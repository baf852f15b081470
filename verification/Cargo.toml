[package]
name = "gdocdown"
version = "0.1.0"
edition = "2021"
publish = false

[dependencies]
diffy = "0.4"
notify = "6"
serde_json = "1"
similar = "2"
ureq = { version = "2", features = ["json"] }
