//! Sync between a Google Doc and a markdown file.
//!
//! Given the current state of a document and a desired markdown text, the library computes
//! the `batchUpdate` requests that turn the one into the other and touch only what changed.
//! It does no I/O of its own.
//!
//! - [`markdown`], [`inline`] and [`table`] parse markdown to the [`model`]. What the syntax
//!   stands for is stated by [`syntax_laws`] of lines, by [`emphasis_laws`] of what stands in
//!   them, and by [`row_laws`] of tables; [`parse_laws`] states what shape a parsed model
//!   has, and [`spacing_laws`] which white space means nothing. [`render`] writes a model as
//!   markdown, and [`writing_laws`] states what is written. [`roundtrip`] states that the two
//!   undo each other, from [`inline_laws`] and [`line_laws`], [`word_models`] that they do on
//!   every model of plain words, and [`blank_laws`] what is lost where they do not, and that
//!   nothing is made up.
//! - [`diff`] gives edit scripts, and [`shortest`] states that none are shorter.
//!   [`text_pass`] turns one into text edits, [`style_pass`] adds paragraph and inline
//!   styles, and [`sync`] puts them together for regions of a document. [`apply`] carries
//!   text edits out. [`text_laws`], [`list_laws`] and [`sync_laws`] state what the edits
//!   give, [`object_laws`] that text is edited around inline objects, [`style_laws`] and
//!   [`paragraph_laws`] what marks and styles come of the passes, and [`unit_laws`] what all
//!   of them together make of a region.
//! - [`json`] and [`api`] read documents; [`reading_laws`] states what documents in the
//!   service's own shape read as, and [`place_laws`] where their parts stand. [`nodes`] syncs
//!   a document by its own indices; [`document_laws`] states when it needs no edit, and
//!   [`region_laws`] what the edits make of the whole. [`structure`] inserts, deletes and
//!   reshapes tables; [`structure_laws`], [`barrier_laws`] and [`table_laws`] state what comes
//!   of it. [`gate`] finds content that must not be edited, and [`gate_laws`] states that all
//!   other content is accounted for. [`session`] puts these together for a live document;
//!   [`limits`] tests whether all indices fit; [`wire`] writes requests as JSON, and
//!   [`wire_laws`] states what the service reads in it.
//! - [`reconcile`], [`baseline`], [`retry`] and [`cli`] hold the decisions of the command
//!   line tool.
//!
//! Document indices count UTF-16 units, so an astral character takes up two of them.
pub mod api;
pub mod apply;
pub mod barrier_laws;
pub mod baseline;
pub mod blank_laws;
pub mod blocks;
pub mod cli;
pub mod diff;
pub mod document_laws;
pub mod emphasis_laws;
pub mod gate;
pub mod gate_laws;
pub mod inline;
pub mod inline_laws;
pub mod json;
pub mod limits;
pub mod line_laws;
pub mod list_laws;
pub mod markdown;
pub mod model;
pub mod nodes;
pub mod object_laws;
pub mod order;
pub mod paragraph_laws;
pub mod parse_laws;
pub mod place_laws;
pub mod reading_laws;
pub mod reconcile;
pub mod region_laws;
pub mod render;
pub mod request;
pub mod retry;
pub mod roundtrip;
pub mod row_laws;
pub mod session;
pub mod shortest;
pub mod spacing_laws;
pub mod structure;
pub mod structure_laws;
pub mod style_laws;
pub mod style_pass;
pub mod sync;
pub mod sync_laws;
pub mod syntax_laws;
pub mod table;
pub mod table_laws;
pub mod text;
pub mod text_laws;
pub mod text_pass;
pub mod unit_laws;
pub mod wire;
pub mod wire_laws;
pub mod word_models;
pub mod writing_laws;

pub use crate::blocks::paragraph_ranges;
pub use crate::inline::parse_inline;
pub use crate::json::Json;
pub use crate::markdown::{markdown_to_model, TOC_PLACEHOLDER};
pub use crate::model::{
    normalize_runs, Block, BlockKind, Cell, DocModel, Node, Run, Table, TextStyle, OBJECT_SENTINEL,
};
pub use crate::nodes::{sync_nodes, CellEdit, CurNode};
pub use crate::render::{model_to_markdown, model_to_plain, run_md};
pub use crate::request::{
    update_text_style, CreateParagraphBullets, DeleteContentRange, DeleteParagraphBullets,
    InsertText, Link, Location, ParagraphStyle, Range, Request, TextStyleMsg, UpdateParagraphStyle,
    UpdateTextStyle,
};
pub use crate::retry::{is_revision_conflict, retry_on_conflict, MAX_CONFLICT_RETRIES};
pub use crate::structure::{reconcile_barriers, table_resize_requests, BarrierKind};
pub use crate::style_pass::{inline_style_requests, style_requests};
pub use crate::sync::{split_paragraph_runs, sync_core, sync_requests, ParaSegment};
pub use crate::table::{is_table_start, parse_table};
pub use crate::text::u16_len;
pub use crate::text_pass::{diff_to_requests, doc_text_requests};
pub use crate::wire::batch_update_body;
