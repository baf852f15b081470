# gdocdown

Edit Google Docs as markdown from any editor. Changes go into the live document
incrementally: a markdown edit becomes a small set of `batchUpdate` requests, so that the
document keeps its comments, its sharing and its history, and others see the edits appear.

The library is written in Rust and verified with Verus. Its functions state in `requires`
and `ensures` clauses what they compute, and the proofs are checked with the code.

## Layout

- `src/` is the library: parsing and rendering, diffs and requests, reading documents, one
  sync as a sequence of decisions, and the decisions of the command line tool. It does no
  I/O. The crate documentation in `src/lib.rs` lists the modules.
- `app/` is the command line tool around it: files, network, access tokens and watching.
- `tests/` runs the library.

## What is proved

- The edits computed for two texts turn the one into the other, counted in UTF-16 units,
  and spare a final line feed that cannot be moved. No edit script between the two deletes
  and inserts fewer characters.
- The markdown of a model parses to that model, for every model that markdown can hold;
  every model of plain words is one. Spaces at the ends of lines and blank lines between
  blocks change nothing.
- A document needs no request for its own model, and one that needs none holds the model.
  Every region of a document is brought to its text, no deletion reaches its end, and what
  stands between the regions stays. The exceptions are regions in which an inline
  object would have to be created, and list items that start with a tab of their own. No
  object has to be created where one stretch of the text is replaced by text without one.
- The style passes give every paragraph that needs it, and the other items of its list, their
  named style, list and level, and their marks, and leave the rest alone.
- Structural requests leave the document with the tables, rules and tables of contents that
  can be had, and with the dimensions wanted.
- A document with content that the model does not hold is not written to, every write is
  locked to the revision that was read, and conflict markers never reach the document.

## What is trusted

The diffs of `similar`, the merge of `diffy`, the JSON texts of `serde_json`, and a few
functions of the standard library are called through small wrappers. Each says in its
documentation what is taken from the crate without proof.

## Use

    gdocdown pull  <docId> <file.md>   document to markdown file
    gdocdown sync  <docId> <file.md>   merge against the last baseline, then push
    gdocdown push  <docId> <file.md>   markdown file to document
    gdocdown watch <docId> <file.md>   seed the file, then reconcile on every save and poll

Access tokens come from `gcloud` Application Default Credentials with the `documents` scope.
