//! The offline simulator of text edits.
use gdocdown::apply::apply;
use gdocdown::{DeleteContentRange, InsertText, Location, Range, Request};

#[test]
fn applies_insert_at_doc_index() {
    let reqs = vec![Request::InsertText(InsertText {
        location: Location { index: 7 },
        text: "brave ".into(),
    })];
    assert_eq!(apply("Hello world\n", &reqs), "Hello brave world\n");
}

#[test]
fn applies_delete_range() {
    let reqs = vec![Request::DeleteContentRange(DeleteContentRange {
        range: Range { start_index: 8, end_index: 15 },
    })];
    assert_eq!(apply("line a\nline b\n", &reqs), "line a\n");
}
