//! Parsing, rendering and syncing, offline.
use gdocdown::apply;
use gdocdown::json::Member;
use gdocdown::{
    batch_update_body, diff_to_requests, doc_text_requests, is_revision_conflict, is_table_start,
    markdown_to_model, model_to_markdown, paragraph_ranges, parse_inline, parse_table,
    reconcile_barriers, retry_on_conflict, run_md, sync_requests, table_resize_requests, u16_len,
    update_text_style, Block, BlockKind, CellEdit, CurNode, InsertText, Json, Link, Location, Node,
    ParaSegment, Range, Request, Run, Table, TextStyle, MAX_CONFLICT_RETRIES, OBJECT_SENTINEL,
    TOC_PLACEHOLDER,
};
use std::cell::Cell;

/// The value under a path of member names.
fn walk<'a>(j: &'a Json, path: &[&str]) -> Option<&'a Json> {
    let mut at = j;
    for name in path {
        at = at.get(name)?;
    }
    Some(at)
}

/// The number under a path of member names.
fn num(j: &Json, path: &[&str]) -> u64 {
    match walk(j, path) {
        Some(Json::Number(n)) => *n,
        other => panic!("no number at {path:?}: {other:?}"),
    }
}

fn obj(members: Vec<(&str, Json)>) -> Json {
    Json::Object(members.into_iter().map(|(name, value)| Member { name: name.to_string(), value }).collect())
}

fn text(s: &str) -> Json {
    Json::Str(s.to_string())
}

fn b(kind: BlockKind, text: &str) -> Block {
    bd(kind, text, 0)
}
fn bd(kind: BlockKind, text: &str, depth: u8) -> Block {
    Block { kind, depth, runs: vec![run(text, TextStyle::default())] }
}
// Node (paragraph) builders.
fn p(kind: BlockKind, text: &str) -> Node {
    Node::Para(b(kind, text))
}
fn pd(kind: BlockKind, text: &str, depth: u8) -> Node {
    Node::Para(bd(kind, text, depth))
}
fn pruns(kind: BlockKind, runs: Vec<Run>) -> Node {
    Node::Para(Block { kind, depth: 0, runs })
}
fn para(n: &Node) -> &Block {
    n.as_para().unwrap()
}
fn run(text: &str, style: TextStyle) -> Run {
    Run { text: text.into(), style, link: None, object: None }
}
fn linked(text: &str, style: TextStyle, url: &str) -> Run {
    Run { text: text.into(), style, link: Some(url.into()), object: None }
}
fn bold() -> TextStyle {
    TextStyle { bold: true, ..Default::default() }
}

#[test]
fn markdown_parses_structure_and_inline() {
    let model = markdown_to_model("# Title\n- a\n1. one\nplain **b** text");
    assert_eq!(model[0], p(BlockKind::Heading(1), "Title"));
    assert_eq!(model[1], p(BlockKind::Bullet, "a"));
    assert_eq!(model[2], p(BlockKind::Number, "one"));
    assert_eq!(
        para(&model[3]).runs,
        vec![run("plain ", TextStyle::default()), run("b", bold()), run(" text", TextStyle::default())]
    );
    assert_eq!(para(&model[3]).text(), "plain b text"); // markers stripped
}

#[test]
fn markdown_parses_a_table_node_between_paragraphs() {
    let model = markdown_to_model("intro\n\n| a | b |\n| --- | --- |\n| 1 | 2 |\n\nafter");
    assert_eq!(model.len(), 3);
    assert_eq!(model[0], p(BlockKind::Normal, "intro"));
    assert_eq!(model[2], p(BlockKind::Normal, "after"));
    let Node::Table(t) = &model[1] else { panic!("expected a table node") };
    assert_eq!(t.columns(), 2);
    assert_eq!(t.rows.len(), 2); // header + one body row
}

#[test]
fn parses_bold_italic_strike() {
    let r = parse_inline("a **b** *i* ~~s~~");
    let styles: Vec<TextStyle> = r.iter().map(|x| x.style).collect();
    assert!(styles.contains(&TextStyle { bold: true, ..Default::default() }));
    assert!(styles.contains(&TextStyle { italic: true, ..Default::default() }));
    assert!(styles.contains(&TextStyle { strikethrough: true, ..Default::default() }));
}

#[test]
fn deferred_marks_stay_literal() {
    // <u>/<sup>/<sub> are not parsed; they pass through as text.
    let r = parse_inline("x<sup>2</sup>");
    assert_eq!(r, vec![run("x<sup>2</sup>", TextStyle::default())]);
}

#[test]
fn parses_links_including_marked_text() {
    assert_eq!(
        parse_inline("see [the docs](https://example.com/x) now"),
        vec![
            run("see ", TextStyle::default()),
            linked("the docs", TextStyle::default(), "https://example.com/x"),
            run(" now", TextStyle::default()),
        ]
    );
    // A bold link keeps both attributes; clean text drops the markup.
    let r = parse_inline("[**bold**](u)");
    assert_eq!(r, vec![linked("bold", bold(), "u")]);
}

#[test]
fn parses_and_handles_inline_image() {
    // Parse a placeholder into a 1-char object run (image and page break).
    let r = parse_inline("a ![](gdoc:image/kix.7gd) b ![](gdoc:pagebreak) c");
    assert_eq!(r[1], Run::object("image/kix.7gd"));
    assert_eq!(r[3], Run::object("pagebreak"));
    assert_eq!(r[1].text, OBJECT_SENTINEL.to_string());

    // Removing the placeholder deletes the image's single index (2: "a"[1] obj[2] "b"[3]).
    let with = vec![pruns(BlockKind::Normal, vec![run("a", TextStyle::default()), Run::object("img1"), run("b", TextStyle::default())])];
    let without = vec![pruns(BlockKind::Normal, vec![run("ab", TextStyle::default())])];
    let del = sync_requests(&with, &without);
    assert!(del.iter().any(|r| matches!(r, Request::DeleteContentRange(d) if d.range.start_index == 2 && d.range.end_index == 3)));

    // Can't create: adding a placeholder never inserts a literal sentinel.
    let create = sync_requests(&without, &with);
    assert!(create.iter().all(|r| !matches!(r, Request::InsertText(it) if it.text.contains(OBJECT_SENTINEL))));
}

#[test]
fn adding_a_link_emits_clear_then_set() {
    let current = vec![p(BlockKind::Normal, "go home now")];
    let desired = vec![pruns(
        BlockKind::Normal,
        vec![run("go ", TextStyle::default()), linked("home", TextStyle::default(), "/h"), run(" now", TextStyle::default())],
    )];
    let links: Vec<_> = sync_requests(&current, &desired)
        .iter()
        .filter_map(|r| match r {
            Request::UpdateTextStyle(u) => Some((u.range.clone(), u.text_style.link.clone())),
            _ => None,
        })
        .collect();
    assert_eq!(
        links,
        vec![
            (Range { start_index: 1, end_index: 12 }, None),                     // clear
            (Range { start_index: 4, end_index: 8 }, Some(Link { url: "/h".into() })), // set on "home"
        ]
    );
}

#[test]
fn nested_marks_combine() {
    let r = parse_inline("***x***"); // bold + italic
    assert_eq!(r, vec![run("x", TextStyle { bold: true, italic: true, ..Default::default() })]);
}

#[test]
fn unmatched_marker_stays_literal() {
    assert_eq!(parse_inline("2 * 3"), vec![run("2 * 3", TextStyle::default())]);
}

#[test]
fn append_inserts_before_final_newline() {
    let reqs = doc_text_requests("a\n", "a\nb\n");
    assert_eq!(
        reqs,
        vec![Request::InsertText(InsertText {
            location: Location { index: 2 },
            text: "\nb".into(),
        })]
    );
    assert_eq!(apply::apply("a\n", &reqs), "a\nb\n");
}

#[test]
fn trailing_delete_eats_preceding_newline() {
    let reqs = doc_text_requests("a\nb\n", "a\n");
    assert_eq!(apply::apply("a\nb\n", &reqs), "a\n");
}

#[test]
fn heading_level_change_emits_paragraph_style_only() {
    let reqs = sync_requests(&vec![p(BlockKind::Heading(1), "Title")], &vec![p(BlockKind::Heading(2), "Title")]);
    assert!(reqs.iter().all(|r| matches!(
        r,
        Request::DeleteParagraphBullets(_) | Request::UpdateParagraphStyle(_)
    )));
    assert!(reqs.iter().any(|r| matches!(r, Request::UpdateParagraphStyle(u) if u.paragraph_style.named_style_type == "HEADING_2")));
}

#[test]
fn text_only_edit_no_marks_emits_no_style() {
    let reqs = sync_requests(&vec![p(BlockKind::Normal, "hello world")], &vec![p(BlockKind::Normal, "hello brave world")]);
    assert!(reqs.iter().all(|r| matches!(r, Request::InsertText(_))));
    assert_eq!(reqs.len(), 1);
}

#[test]
fn adding_bold_emits_clear_then_set() {
    let current = vec![p(BlockKind::Normal, "make me bold")];
    let desired = vec![pruns(BlockKind::Normal, vec![run("make me ", TextStyle::default()), run("bold", bold())])];
    let reqs = sync_requests(&current, &desired);
    // No text change (same clean text); just a clear over [1,13) and bold over [9,13).
    let styles: Vec<_> = reqs
        .iter()
        .filter_map(|r| match r {
            Request::UpdateTextStyle(u) => Some((u.range.clone(), u.text_style.bold)),
            _ => None,
        })
        .collect();
    assert_eq!(
        styles,
        vec![
            (Range { start_index: 1, end_index: 13 }, false), // clear
            (Range { start_index: 9, end_index: 13 }, true),  // set bold on "bold"
        ]
    );
}

#[test]
fn turning_paragraph_into_bullet_keeps_inline_clean() {
    // Only the kind changes; runs are identical, so no inline requests.
    let reqs = sync_requests(&vec![p(BlockKind::Normal, "item")], &vec![p(BlockKind::Bullet, "item")]);
    assert!(reqs.iter().all(|r| !matches!(r, Request::UpdateTextStyle(_))));
}

#[test]
fn nested_lists_parse_depth() {
    let m = markdown_to_model("- a\n  - b\n    - c");
    assert_eq!(m, vec![pd(BlockKind::Bullet, "a", 0), pd(BlockKind::Bullet, "b", 1), pd(BlockKind::Bullet, "c", 2)]);
}

#[test]
fn relative_nesting_matches_google_export() {
    // Google indents numbered nesting by 3 columns/level, bullets by 2 — the
    // stack-based parser must read both as depths 0,1,2.
    let depths = |md: &str| markdown_to_model(md).iter().map(|n| para(n).depth).collect::<Vec<_>>();
    assert_eq!(depths("1. a\n   1. b\n      1. c"), vec![0, 1, 2]);
    assert_eq!(depths("* a\n  * b\n    * c"), vec![0, 1, 2]);
    assert_eq!(depths("- a\n  - b\n- c"), vec![0, 1, 0]); // dedent back to top
}

#[test]
fn parses_gfm_table_with_inline_marks() {
    let lines = ["| Name | Role |", "| :---- | :---- |", "| Ada | **eng** |", "| Bob | [lead](/b) |"];
    assert!(is_table_start(&lines));
    let t = parse_table(&lines).unwrap();
    assert_eq!(t.columns(), 2);
    assert_eq!(t.rows.len(), 3);
    assert_eq!(t.rows[0], vec![vec![run("Name", TextStyle::default())], vec![run("Role", TextStyle::default())]]);
    assert_eq!(t.rows[1][1], vec![run("eng", bold())]);
    assert_eq!(t.rows[2][1], vec![linked("lead", TextStyle::default(), "/b")]);
}

#[test]
fn non_table_is_rejected() {
    // A pipe row without a separator line is not a table.
    assert!(!is_table_start(&["| a | b |", "| c | d |"]));
    // Plain text isn't a table.
    assert!(!is_table_start(&["just text", "more text"]));
    // A short body row pads to the column count.
    let t = parse_table(&["| a | b | c |", "|---|---|---|", "| x |"]).unwrap();
    assert_eq!(t.rows[1], vec![vec![run("x", TextStyle::default())], vec![], vec![]]);
}

#[test]
fn classifies_and_retries_revision_conflicts() {
    let conflict = || Err::<i32, String>("HTTP 400: ... does not match the latest revision.".into());
    assert!(is_revision_conflict(&conflict().unwrap_err()));
    assert!(!is_revision_conflict("HTTP 403: permission denied"));

    // Recovers on the second attempt.
    let n = Cell::new(0);
    let r = retry_on_conflict(|| {
        n.set(n.get() + 1);
        if n.get() == 1 { conflict() } else { Ok(7) }
    });
    assert_eq!(r, Ok(7));
    assert_eq!(n.get(), 2);

    // A non-conflict error is returned immediately (no retry).
    let m = Cell::new(0);
    let r2: Result<i32, String> = retry_on_conflict(|| {
        m.set(m.get() + 1);
        Err("boom".into())
    });
    assert_eq!(r2, Err("boom".into()));
    assert_eq!(m.get(), 1);

    // Persistent conflict gives up after MAX_CONFLICT_RETRIES.
    let k = Cell::new(0);
    let r3 = retry_on_conflict(|| {
        k.set(k.get() + 1);
        conflict()
    });
    assert!(is_revision_conflict(&r3.unwrap_err()));
    assert_eq!(k.get(), MAX_CONFLICT_RETRIES);
}

#[test]
fn serialize_round_trips_through_parse() {
    let md = "# Title\n\nProse with **bold**, *italic*, ~~strike~~, ***both***, a [link](u), \
              and ![](gdoc:image/x) here.\n\n* a\n  * b\n* c\n\n1. one\n   1. two\n\n\
              | h1 | h2 |\n| --- | --- |\n| a | **b** |\n\n---\n\nlast line";
    let model = markdown_to_model(md);
    let out = model_to_markdown(&model);
    assert_eq!(markdown_to_model(&out), model, "round-trip mismatch; serialized:\n{out}");
}

#[test]
fn serialize_escapes_inline_specials() {
    // Text containing markdown specials must round-trip, not become markup.
    let model = markdown_to_model("a \\*literal\\* star and a \\[bracket");
    let out = model_to_markdown(&model);
    assert_eq!(markdown_to_model(&out), model, "serialized: {out}");
    assert_eq!(model[0].as_para().unwrap().text(), "a *literal* star and a [bracket");
}

#[test]
fn checkbox_list_parses_and_round_trips() {
    let m = markdown_to_model("- [ ] One\n- [x] Two\n  - [ ] Nested");
    assert_eq!(
        m,
        vec![
            pd(BlockKind::Checkbox, "One", 0),
            pd(BlockKind::Checkbox, "Two", 0), // checked state dropped
            pd(BlockKind::Checkbox, "Nested", 1),
        ]
    );
    // Serializes as unchecked, and round-trips through the model.
    let out = model_to_markdown(&m);
    assert!(out.contains("- [ ] One"), "{out}");
    assert_eq!(markdown_to_model(&out), m);
}

#[test]
fn markdown_parses_horizontal_rule() {
    assert_eq!(markdown_to_model("a\n\n---\n\nb"), vec![p(BlockKind::Normal, "a"), Node::Rule, p(BlockKind::Normal, "b")]);
    assert_eq!(markdown_to_model("***"), vec![Node::Rule]);
    assert_eq!(markdown_to_model("___"), vec![Node::Rule]);
    // `***word***` is bold+italic inline, not a rule.
    assert!(matches!(markdown_to_model("***word***")[0], Node::Para(_)));
}

#[test]
fn utf16_indices_for_astral_chars() {
    // 😀 and 𝐀 are 1 scalar but 2 UTF-16 units each, the unit Docs counts.
    assert_eq!(u16_len("A😀B𝐀C"), 7);
    // An edit *after* an emoji must land at the UTF-16 offset. "A😀X" -> "A😀Y":
    // 😀 ends at UTF-16 offset 3, so the replace is at doc index 4, not 3.
    let reqs = diff_to_requests("A\u{1F600}X", "A\u{1F600}Y");
    let dels: Vec<_> = reqs.iter().filter_map(|r| match r { Request::DeleteContentRange(d) => Some(d.range.clone()), _ => None }).collect();
    let inss: Vec<_> = reqs.iter().filter_map(|r| match r { Request::InsertText(i) => Some(i.location.index), _ => None }).collect();
    assert_eq!(dels, vec![Range { start_index: 4, end_index: 5 }], "delete X at UTF-16 doc index 4");
    assert_eq!(inss, vec![4], "insert Y at UTF-16 doc index 4");

    // paragraph_ranges accounts for astral width: "😀" para spans 2 units + \n.
    let r = paragraph_ranges(&[b(BlockKind::Normal, "\u{1F600}")]);
    assert_eq!(r[0], Range { start_index: 1, end_index: 4 }); // [1, 1+2+1)
}

#[test]
fn underscore_emphasis_aliases() {
    let italic = TextStyle { italic: true, ..Default::default() };
    let bolditalic = TextStyle { bold: true, italic: true, ..Default::default() };
    // `_`, `__`, `___` behave like `*`, `**`, `***`.
    assert_eq!(parse_inline("_x_"), vec![run("x", italic)]);
    assert_eq!(parse_inline("__x__"), vec![run("x", bold())]);
    assert_eq!(parse_inline("___x___"), vec![run("x", bolditalic)]);
    // Bounded by spaces / punctuation.
    assert_eq!(
        parse_inline("a _b_ c"),
        vec![run("a ", TextStyle::default()), run("b", italic), run(" c", TextStyle::default())]
    );
    // The serializer normalizes to the `*` forms (Google's export flavor).
    assert_eq!(run_md(&run("x", italic), false), "*x*");
}

#[test]
fn underscores_intraword_stay_literal() {
    // Identifiers and filenames must not become emphasis.
    for s in ["snake_case_name", "foo_bar.md", "a_b_c_d", "my__dunder__name"] {
        assert_eq!(parse_inline(s), vec![run(s, TextStyle::default())], "{s} should be literal");
    }
    // Asterisks are unaffected (still intraword-capable).
    assert_eq!(
        parse_inline("a*b*c"),
        vec![run("a", TextStyle::default()), run("b", TextStyle { italic: true, ..Default::default() }), run("c", TextStyle::default())]
    );
}

#[test]
fn empty_heading_and_hash_paragraph_round_trip() {
    // An empty heading survives the trailing-space trim.
    let h = vec![pruns(BlockKind::Heading(1), vec![])];
    assert_eq!(markdown_to_model(&model_to_markdown(&h)), h);
    // A literal "#" paragraph is escaped so it isn't read back as a heading.
    let hp = vec![pruns(BlockKind::Normal, vec![run("#", TextStyle::default())])];
    assert_eq!(markdown_to_model(&model_to_markdown(&hp)), hp);
    // …and a literal TOC-placeholder paragraph stays a paragraph.
    let t = vec![pruns(BlockKind::Normal, vec![run(TOC_PLACEHOLDER, TextStyle::default())])];
    assert_eq!(markdown_to_model(&model_to_markdown(&t)), t);
}

#[test]
fn toc_parses_serializes_and_reconciles() {
    let m = markdown_to_model("intro\n\n<!-- gdoc:toc -->\n\n# Heading");
    assert_eq!(m, vec![p(BlockKind::Normal, "intro"), Node::Toc, p(BlockKind::Heading(1), "Heading")]);
    assert!(model_to_markdown(&m).contains("<!-- gdoc:toc -->"));
    assert_eq!(markdown_to_model(&model_to_markdown(&m)), m);

    // A TOC dropped from the desired model is deleted by range.
    let cur = vec![
        CurNode::Paras(ParaSegment { start_index: 1, blocks: vec![] }),
        CurNode::Toc { start_index: 5, end_index: 30 },
        CurNode::Paras(ParaSegment { start_index: 30, blocks: vec![] }),
    ];
    let (ops, _adj, warns) = reconcile_barriers(&cur, &vec![p(BlockKind::Normal, "x")], 1);
    assert_eq!(ops.len(), 1);
    assert_eq!(num(&ops[0], &["deleteContentRange", "range", "startIndex"]), 5);
    assert_eq!(num(&ops[0], &["deleteContentRange", "range", "endIndex"]), 30);
    assert!(warns.is_empty());

    // A TOC the API can't create is warned + dropped from the target.
    let cur2 = vec![CurNode::Paras(ParaSegment { start_index: 1, blocks: vec![] })];
    let (ops2, adj2, warns2) = reconcile_barriers(&cur2, &vec![p(BlockKind::Normal, "a"), Node::Toc, p(BlockKind::Normal, "b")], 1);
    assert!(ops2.is_empty());
    assert_eq!(warns2.len(), 1);
    assert_eq!(adj2, vec![p(BlockKind::Normal, "a"), p(BlockKind::Normal, "b")]);
}

#[test]
fn reconcile_barriers_deletes_rules_and_warns_on_create() {
    // Delete a rule the desired model dropped.
    let cur = vec![
        CurNode::Paras(ParaSegment { start_index: 1, blocks: vec![] }),
        CurNode::Rule { start_index: 5, end_index: 7 },
        CurNode::Paras(ParaSegment { start_index: 7, blocks: vec![] }),
    ];
    let (ops, _adj, warns) = reconcile_barriers(&cur, &vec![p(BlockKind::Normal, "a")], 1);
    assert_eq!(ops.len(), 1);
    assert_eq!(num(&ops[0], &["deleteContentRange", "range", "startIndex"]), 5);
    assert_eq!(num(&ops[0], &["deleteContentRange", "range", "endIndex"]), 7);
    assert!(warns.is_empty());

    // A rule the API can't create: warn + drop it from the target.
    let cur2 = vec![CurNode::Paras(ParaSegment { start_index: 1, blocks: vec![] })];
    let desired2 = vec![p(BlockKind::Normal, "a"), Node::Rule, p(BlockKind::Normal, "b")];
    let (ops2, adj2, warns2) = reconcile_barriers(&cur2, &desired2, 1);
    assert!(ops2.is_empty());
    assert_eq!(warns2.len(), 1);
    assert_eq!(adj2, vec![p(BlockKind::Normal, "a"), p(BlockKind::Normal, "b")]);
}

#[test]
fn table_resize_emits_row_and_column_ops() {
    let ce = |i| CellEdit { start_index: i, runs: vec![] };
    let cur = vec![
        CurNode::Paras(ParaSegment { start_index: 1, blocks: vec![] }),
        CurNode::Table { start_index: 5, end_index: 20, cells: vec![vec![ce(7), ce(10)], vec![ce(13), ce(16)]] },
        CurNode::Paras(ParaSegment { start_index: 25, blocks: vec![] }),
    ];
    // Desired table is 3 rows x 1 col: add a row, drop a column (each row one cell).
    let desired = vec![Node::Table(Table { rows: vec![vec![vec![]], vec![vec![]], vec![vec![]]] })];

    let ops = table_resize_requests(&cur, &desired);
    // One row added (below row 1), one column removed (column 1).
    assert_eq!(ops.len(), 2);
    assert_eq!(num(&ops[0], &["insertTableRow", "tableCellLocation", "rowIndex"]), 1);
    assert_eq!(num(&ops[0], &["insertTableRow", "tableCellLocation", "tableStartLocation", "index"]), 5);
    assert_eq!(walk(&ops[0], &["insertTableRow", "insertBelow"]), Some(&Json::Bool(true)));
    assert_eq!(num(&ops[1], &["deleteTableColumn", "tableCellLocation", "columnIndex"]), 1);
}

#[test]
fn text_style_serializes_to_google_shape() {
    // A bold link: link present; fields always lists `link` so absent links clear.
    let reqs = vec![update_text_style(
        Range { start_index: 9, end_index: 13 },
        TextStyle { bold: true, ..Default::default() },
        Some("https://x.test"),
    )];
    assert_eq!(
        batch_update_body(&reqs),
        obj(vec![(
            "requests",
            Json::Array(vec![obj(vec![(
                "updateTextStyle",
                obj(vec![
                    ("range", obj(vec![("startIndex", Json::Number(9)), ("endIndex", Json::Number(13))])),
                    (
                        "textStyle",
                        obj(vec![
                            ("bold", Json::Bool(true)),
                            ("italic", Json::Bool(false)),
                            ("strikethrough", Json::Bool(false)),
                            ("link", obj(vec![("url", text("https://x.test"))])),
                        ]),
                    ),
                    ("fields", text("bold,italic,strikethrough,link")),
                ]),
            )])]),
        )])
    );
}
