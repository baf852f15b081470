//! The laws of the library on concrete values.
use gdocdown::api::{document_to_model, sync_doc};
use gdocdown::json::Member;
use gdocdown::model::normalize_runs;
use gdocdown::order::descending_order;
use gdocdown::session::{Action, Session};
use gdocdown::sync::split_paragraph_runs;
use gdocdown::{
    diff_to_requests, doc_text_requests, inline_style_requests, markdown_to_model,
    model_to_markdown, model_to_plain, reconcile_barriers, style_requests, sync_requests,
    table_resize_requests, Block, BlockKind, CellEdit, CurNode, Json, Node, ParaSegment, Request,
    Run, Table, TextStyle,
};

/// Carry text edits out on UTF-16 units; other requests change no text.
fn apply16(text: &str, reqs: &[Request]) -> String {
    let mut body: Vec<u16> = text.encode_utf16().collect();
    for r in reqs {
        match r {
            Request::InsertText(x) => {
                let at = x.location.index - 1;
                let units: Vec<u16> = x.text.encode_utf16().collect();
                body.splice(at..at, units);
            }
            Request::DeleteContentRange(x) => {
                body.drain(x.range.start_index - 1..x.range.end_index - 1);
            }
            _ => {}
        }
    }
    String::from_utf16(&body).unwrap()
}

/// All texts over the alphabet with at most `max` characters.
fn texts(alphabet: &[char], max: usize) -> Vec<String> {
    let mut all = vec![String::new()];
    let mut from = 0;
    for _ in 0..max {
        let to = all.len();
        for i in from..to {
            for c in alphabet {
                let mut s = all[i].clone();
                s.push(*c);
                all.push(s);
            }
        }
        from = to;
    }
    all
}

fn obj(members: Vec<(&str, Json)>) -> Json {
    Json::Object(members.into_iter().map(|(name, value)| Member { name: name.to_string(), value }).collect())
}

fn arr(items: Vec<Json>) -> Json {
    Json::Array(items)
}

fn text(s: &str) -> Json {
    Json::Str(s.to_string())
}

fn para_at(start: u64, content: &str) -> Json {
    let run = obj(vec![("textRun", obj(vec![("content", text(content)), ("textStyle", obj(vec![]))]))]);
    obj(vec![("startIndex", Json::Number(start)), ("paragraph", obj(vec![("elements", arr(vec![run]))]))])
}

fn rule_at(start: u64) -> Json {
    let run = obj(vec![("horizontalRule", obj(vec![]))]);
    obj(vec![
        ("startIndex", Json::Number(start)),
        ("endIndex", Json::Number(start + 2)),
        ("paragraph", obj(vec![("elements", arr(vec![run]))])),
    ])
}

fn cell_at(start: u64, content: &str) -> Json {
    obj(vec![("content", arr(vec![para_at(start, content)]))])
}

fn table_at(start: u64, end: u64, rows: Vec<Vec<Json>>) -> Json {
    let rows = rows.into_iter().map(|cells| obj(vec![("tableCells", arr(cells))])).collect();
    obj(vec![
        ("startIndex", Json::Number(start)),
        ("endIndex", Json::Number(end)),
        ("table", obj(vec![("tableRows", arr(rows))])),
    ])
}

fn doc(content: Vec<Json>) -> Json {
    obj(vec![("revisionId", text("r1")), ("body", obj(vec![("content", arr(content))]))])
}

/// A document with two paragraphs, a table, a rule and a last paragraph.
fn mixed_doc() -> Json {
    doc(vec![
        para_at(1, "one\n"),
        para_at(5, "two\n"),
        table_at(9, 20, vec![vec![cell_at(12, "h\n"), cell_at(15, "i\n")]]),
        rule_at(20),
        para_at(22, "end\n"),
    ])
}

fn plain(s: &str) -> Run {
    Run { text: s.into(), style: TextStyle::default(), link: None, object: None }
}

fn block(kind: BlockKind, depth: u8, s: &str) -> Block {
    Block { kind, depth, runs: vec![plain(s)] }
}

#[test]
fn edits_give_the_new_text_for_all_short_texts() {
    let all = texts(&['a', 'b', '\n'], 4);
    for old in &all {
        for new in &all {
            let reqs = diff_to_requests(old, new);
            assert_eq!(&apply16(old, &reqs), new, "{old:?} -> {new:?}: {reqs:?}");
            if old == new {
                assert!(reqs.is_empty());
            }
        }
    }
}

#[test]
fn edits_count_in_utf16_units() {
    let all = texts(&['a', '\u{1F600}', '\n'], 3);
    for old in &all {
        for new in &all {
            let reqs = diff_to_requests(old, new);
            assert_eq!(&apply16(old, &reqs), new, "{old:?} -> {new:?}: {reqs:?}");
        }
    }
}

#[test]
fn body_edits_spare_the_final_line_feed() {
    let all = texts(&['a', '\u{1F600}', '\n'], 3);
    for old in &all {
        for new in &all {
            let (old, new) = (format!("{old}\n"), format!("{new}\n"));
            let len: usize = old.encode_utf16().count();
            let reqs = doc_text_requests(&old, &new);
            for r in &reqs {
                match r {
                    Request::InsertText(x) => assert!(x.location.index <= len, "{old:?} -> {new:?}: {r:?}"),
                    Request::DeleteContentRange(x) => {
                        assert!(x.range.start_index < x.range.end_index, "{old:?} -> {new:?}: {r:?}");
                        assert!(x.range.end_index <= len, "{old:?} -> {new:?}: {r:?}");
                    }
                    other => panic!("no text edit: {other:?}"),
                }
            }
            assert_eq!(apply16(&old, &reqs), new, "{old:?} -> {new:?}: {reqs:?}");
        }
    }
}

#[test]
fn long_texts_are_edited_alike() {
    let mut seed: u64 = 7;
    let mut word = |max: u64| {
        let mut next = || {
            seed = seed.wrapping_mul(6364136223846793005).wrapping_add(1442695040888963407);
            seed >> 33
        };
        let len = next() % max;
        (0..len).map(|_| ['a', 'b', '\u{1F600}', '\n'][(next() % 4) as usize]).collect::<String>()
    };
    for _ in 0..400 {
        let (old, new) = (format!("{}\n", word(260)), format!("{}\n", word(260)));
        let len: usize = old.encode_utf16().count();
        assert_eq!(apply16(&old, &diff_to_requests(&old, &new)), new);
        let reqs = doc_text_requests(&old, &new);
        for r in &reqs {
            match r {
                Request::InsertText(x) => assert!(x.location.index <= len),
                Request::DeleteContentRange(x) => assert!(x.range.end_index <= len),
                other => panic!("no text edit: {other:?}"),
            }
        }
        assert_eq!(apply16(&old, &reqs), new);
    }
}

#[test]
fn a_cleared_body_keeps_its_line_feed() {
    let reqs = doc_text_requests("a\u{1F600}\nb\n", "");
    assert_eq!(reqs.len(), 1);
    assert_eq!(apply16("a\u{1F600}\nb\n", &reqs), "\n");
    // A region of one line feed that should be empty needs no edit at all.
    let cur = vec![Node::Para(Block { kind: BlockKind::Normal, depth: 0, runs: vec![] }), Node::Rule];
    assert!(sync_requests(&cur, &vec![Node::Rule]).is_empty());
}

#[test]
fn edits_of_a_flat_model_give_its_text() {
    let cur = markdown_to_model("# Title\none\ntwo\n* item");
    let des = markdown_to_model("# Title!\ntwo\n* \u{1F600} item\n* other\nlast");
    let reqs = sync_requests(&cur, &des);
    assert_eq!(apply16(&model_to_plain(&cur), &reqs), model_to_plain(&des));
    assert!(sync_requests(&des, &des).is_empty());
}

/// As `apply16`, where making a list takes the tabs at the start of its paragraphs.
fn apply_lists(text: &str, reqs: &[Request]) -> String {
    let mut body = text.to_string();
    for r in reqs {
        if let Request::CreateParagraphBullets(x) = r {
            let units: Vec<u16> = body.encode_utf16().collect();
            let (start, end) = (x.range.start_index - 1, x.range.end_index - 1);
            let mut out = units[..start].to_vec();
            let mut fresh = true;
            for u in &units[start..end] {
                if !(fresh && *u == 9) {
                    out.push(*u);
                    fresh = *u == 10;
                }
            }
            out.extend(&units[end..]);
            body = String::from_utf16(&out).unwrap();
        } else {
            body = apply16(&body, std::slice::from_ref(r));
        }
    }
    body
}

#[test]
fn edits_of_nested_lists_give_their_text() {
    let cur = markdown_to_model("* a\n  * b\n1. x");
    let des = markdown_to_model("top\n* a\n  * \u{1F600}b\n    * c\n* d\n1. x\n   1. y\n- [ ] t\n  - [ ] u");
    for (from, to) in [(&cur, &des), (&des, &cur)] {
        let reqs = sync_requests(from, to);
        assert_eq!(apply_lists(&model_to_plain(from), &reqs), model_to_plain(to));
    }
    // The tabs are there meanwhile.
    let reqs = sync_requests(&cur, &des);
    assert!(apply16(&model_to_plain(&cur), &reqs).contains("\t\tc"));
}

#[test]
fn restyled_paragraphs_have_the_marks_of_their_runs() {
    let cur = markdown_to_model("**all bold**\nplain\n*x* y");
    let des = markdown_to_model("a **\u{1F600}** [l](u)\nplain\nx y");
    let blocks = |m: &Vec<Node>| m.iter().map(|n| n.as_para().unwrap().clone()).collect::<Vec<Block>>();
    let reqs = inline_style_requests(&blocks(&cur), &blocks(&des));
    // Whatever marks were there, those that are left are the ones of the runs.
    let stale = (TextStyle { bold: true, italic: true, strikethrough: true }, Some("old".to_string()));
    let mut marks = vec![stale; model_to_plain(&des).encode_utf16().count()];
    let mut touched = vec![false; marks.len()];
    for r in &reqs {
        let Request::UpdateTextStyle(x) = r else { panic!("{r:?}") };
        assert_eq!(x.fields, "bold,italic,strikethrough,link");
        for i in x.range.start_index - 1..x.range.end_index - 1 {
            let style = TextStyle {
                bold: x.text_style.bold,
                italic: x.text_style.italic,
                strikethrough: x.text_style.strikethrough,
            };
            marks[i] = (style, x.text_style.link.as_ref().map(|l| l.url.clone()));
            touched[i] = true;
        }
    }
    let mut at = 0;
    for (i, b) in blocks(&des).iter().enumerate() {
        for r in &b.runs {
            for _ in r.text.encode_utf16() {
                // The second paragraph was kept and is left alone.
                assert_eq!(touched[at], i != 1, "unit {at}");
                if i != 1 {
                    assert_eq!(marks[at], (r.style, r.link.clone()), "unit {at}");
                }
                at += 1;
            }
        }
        at += 1;
    }
}

#[test]
fn normalizing_runs_twice_changes_nothing_more() {
    let bold = TextStyle { bold: true, ..TextStyle::default() };
    let runs = vec![
        plain("a"),
        plain(""),
        plain("b"),
        Run { text: "c".into(), style: bold, link: None, object: None },
        Run::object("image/1"),
        Run::object("image/2"),
    ];
    let once = normalize_runs(runs);
    assert_eq!(once.len(), 4);
    assert_eq!(once[0], plain("ab"));
    assert_eq!(normalize_runs(once.clone()), once);
}

#[test]
fn markdown_of_a_model_parses_to_the_model() {
    let italic = TextStyle { italic: true, ..TextStyle::default() };
    let both = TextStyle { bold: true, italic: true, ..TextStyle::default() };
    let struck = TextStyle { strikethrough: true, ..TextStyle::default() };
    let model = vec![
        Node::Para(block(BlockKind::Heading(6), 0, "Deep # title")),
        Node::Para(Block {
            kind: BlockKind::Normal,
            depth: 0,
            runs: vec![
                plain("a *b* [c](d) ~~e~~ \\ "),
                Run { text: "slanted".into(), style: italic, link: None, object: None },
                plain(" "),
                Run { text: "both".into(), style: both, link: Some("https://x.y/z".into()), object: None },
                Run::object("pagebreak"),
                Run { text: "gone".into(), style: struck, link: None, object: None },
            ],
        }),
        Node::Para(block(BlockKind::Number, 0, "first")),
        Node::Para(block(BlockKind::Number, 1, "inner")),
        Node::Para(block(BlockKind::Bullet, 0, "dot")),
        Node::Para(block(BlockKind::Checkbox, 0, "task")),
        Node::Rule,
        Node::Toc,
        Node::Table(Table {
            rows: vec![vec![vec![plain("h")], vec![]], vec![vec![plain("x y")], vec![plain("*")]]],
        }),
        Node::Para(block(BlockKind::Normal, 0, "---")),
    ];
    assert_eq!(markdown_to_model(&model_to_markdown(&model)), model);
    assert_eq!(markdown_to_model(&model_to_markdown(&vec![])), vec![]);
}

#[test]
fn marks_at_the_edge_of_emphasis_do_not_survive() {
    // A mark that ends in its own marker character is outside what markdown can say.
    let bold = TextStyle { bold: true, ..TextStyle::default() };
    let model = vec![Node::Para(Block {
        kind: BlockKind::Normal,
        depth: 0,
        runs: vec![Run { text: "x*".into(), style: bold, link: None, object: None }],
    })];
    assert_ne!(markdown_to_model(&model_to_markdown(&model)), model);
}

#[test]
fn parsed_tables_are_rectangular() {
    let model = markdown_to_model("| a | b |\n| - | - |\n| 1 |\n| 1 | 2 | 3 |");
    let Node::Table(t) = &model[0] else { panic!("no table: {model:?}") };
    assert_eq!(t.rows.iter().map(|r| r.len()).collect::<Vec<_>>(), vec![2, 2, 2]);
    assert_eq!(t.rows[1][1], vec![]);
    assert_eq!(t.rows[2][1], vec![plain("2")]);
}

#[test]
fn parsed_levels_stay_in_range() {
    let mut md = String::new();
    for i in 0..12 {
        md.push_str(&" ".repeat(i));
        md.push_str("- x\n");
    }
    md.push_str("####### seven\n");
    let model = markdown_to_model(&md);
    let depths: Vec<u8> = model.iter().map(|n| n.as_para().unwrap().depth).collect();
    assert_eq!(depths, vec![0, 1, 2, 3, 4, 5, 6, 7, 8, 8, 8, 8, 0]);
    assert_eq!(model[12].as_para().unwrap().kind, BlockKind::Normal);
}

#[test]
fn there_is_one_more_run_than_barriers() {
    let model = markdown_to_model("a\n---\n---\nb\nc\n<!-- gdoc:toc -->");
    let runs = split_paragraph_runs(&model);
    assert_eq!(runs.iter().map(|r| r.len()).collect::<Vec<_>>(), vec![1, 0, 2, 0]);
}

#[test]
fn descending_order_is_stable() {
    assert_eq!(descending_order(&vec![3, 9, 1, 9]), vec![1, 3, 0, 2]);
    assert!(descending_order(&vec![]).is_empty());
}

#[test]
fn the_last_region_is_edited_first() {
    let doc = mixed_doc();
    let desired = markdown_to_model("one!\ntwo\n\n| h? | i |\n| - | - |\n\n---\n\nend.");
    let indices: Vec<usize> = sync_doc(&doc, &desired)
        .iter()
        .filter_map(|r| match r {
            Request::InsertText(x) => Some(x.location.index),
            _ => None,
        })
        .collect();
    assert_eq!(indices, vec![25, 13, 4]);
}

#[test]
fn a_document_needs_no_edit_for_its_own_model() {
    let doc = mixed_doc();
    let model = document_to_model(&doc);
    assert!(sync_doc(&doc, &model).is_empty());
    let mut session = Session::new(&model);
    match session.on_document(&doc) {
        Action::Finish(Ok(warnings)) => assert!(warnings.is_empty()),
        other => panic!("{other:?}"),
    }
}

#[test]
fn a_pulled_document_needs_no_edit() {
    let doc = mixed_doc();
    let md = model_to_markdown(&document_to_model(&doc));
    assert!(sync_doc(&doc, &markdown_to_model(&md)).is_empty());
}

#[test]
fn matching_barriers_need_no_request() {
    let nodes = vec![
        CurNode::Paras(ParaSegment { start_index: 1, blocks: vec![] }),
        CurNode::Rule { start_index: 2, end_index: 4 },
        CurNode::Paras(ParaSegment { start_index: 4, blocks: vec![] }),
    ];
    let model = markdown_to_model("a\n\n---\n\nb");
    let (ops, adjusted, warnings) = reconcile_barriers(&nodes, &model, 4);
    assert!(ops.is_empty());
    assert!(warnings.is_empty());
    assert_eq!(adjusted, model);
}

#[test]
fn paragraphs_and_tables_are_never_dropped() {
    let nodes = vec![CurNode::Paras(ParaSegment { start_index: 1, blocks: vec![] })];
    let model = markdown_to_model("a\n\n---\n\n| h |\n| - |\n\n<!-- gdoc:toc -->\n\nb");
    let (ops, adjusted, warnings) = reconcile_barriers(&nodes, &model, 1);
    assert_eq!(adjusted, markdown_to_model("a\n\n| h |\n| - |\n\nb"));
    assert_eq!(warnings.len(), 2);
    assert_eq!(ops.len(), 1);
}

#[test]
fn an_inline_object_is_never_inserted() {
    let cur = markdown_to_model("ab");
    let des = markdown_to_model("a![](gdoc:image/1)b");
    for r in sync_requests(&cur, &des) {
        if let Request::InsertText(x) = r {
            panic!("inserts {:?}", x.text);
        }
    }
}

#[test]
fn an_inserted_paragraph_gets_its_own_style() {
    let cur = vec![block(BlockKind::Number, 0, "one")];
    let des = vec![block(BlockKind::Number, 0, "one"), block(BlockKind::Normal, 0, "plain")];
    let reqs = style_requests(&cur, &des);
    // "one\n" takes up the indices 1 to 5, "plain\n" those from 5 to 11.
    assert_eq!(reqs.len(), 2);
    match (&reqs[0], &reqs[1]) {
        (Request::DeleteParagraphBullets(x), Request::UpdateParagraphStyle(y)) => {
            assert_eq!((x.range.start_index, x.range.end_index), (5, 11));
            assert_eq!((y.range.start_index, y.range.end_index), (5, 11));
            assert_eq!(y.paragraph_style.named_style_type, "NORMAL_TEXT");
        }
        other => panic!("{other:?}"),
    }
    // A nested item gets a tab for each level, and the list reaches over the tabs.
    let des = vec![block(BlockKind::Bullet, 0, "a"), block(BlockKind::Bullet, 2, "b")];
    let reqs = style_requests(&[], &des);
    match reqs.last() {
        Some(Request::CreateParagraphBullets(x)) => {
            assert_eq!((x.range.start_index, x.range.end_index), (1, 7));
            assert_eq!(x.bullet_preset, "BULLET_DISC_CIRCLE_SQUARE");
        }
        other => panic!("{other:?}"),
    }
    match &reqs[2] {
        Request::InsertText(x) => assert_eq!((x.location.index, x.text.as_str()), (3, "\t\t")),
        other => panic!("{other:?}"),
    }
}

/// The kinds of a document's barriers after structural requests, by their indices: `T` for
/// a table, `R` for a rule and `C` for a table of contents.
fn kinds_after(barriers: &[(char, u64, u64)], ops: &[Json]) -> String {
    let mut all: Vec<(char, u64)> = barriers.iter().map(|(k, start, _)| (*k, *start)).collect();
    for op in ops {
        if let Some(d) = op.get("deleteContentRange") {
            let Some(Json::Number(start)) = d.get("range").and_then(|r| r.get("startIndex")) else {
                panic!("{op:?}")
            };
            let at = all.iter().position(|(_, s)| s == start).unwrap();
            all.remove(at);
        } else {
            let Some(Json::Number(index)) =
                op.get("insertTable").and_then(|t| t.get("location")).and_then(|l| l.get("index"))
            else {
                panic!("{op:?}")
            };
            let at = all.iter().position(|(_, s)| s >= index).unwrap_or(all.len());
            // The new table stands before what starts at its index.
            all.insert(at, ('T', *index));
        }
    }
    all.into_iter().map(|(k, _)| k).collect()
}

#[test]
fn structural_requests_reach_the_barriers() {
    let kinds = ['T', 'R', 'C'];
    let words = texts(&kinds, 3);
    for have in &words {
        let mut nodes = Vec::new();
        let mut barriers = Vec::new();
        let mut at = 1;
        for k in have.chars() {
            nodes.push(CurNode::Paras(ParaSegment { start_index: at, blocks: vec![] }));
            let (start_index, end_index) = (at + 1, at + 3);
            barriers.push((k, start_index as u64, end_index as u64));
            nodes.push(match k {
                'T' => CurNode::Table { start_index, end_index, cells: vec![] },
                'R' => CurNode::Rule { start_index, end_index },
                _ => CurNode::Toc { start_index, end_index },
            });
            at = end_index;
        }
        nodes.push(CurNode::Paras(ParaSegment { start_index: at, blocks: vec![] }));
        for want in &words {
            let model = want
                .chars()
                .map(|k| match k {
                    'T' => Node::Table(Table { rows: vec![vec![vec![]]] }),
                    'R' => Node::Rule,
                    _ => Node::Toc,
                })
                .collect();
            let (ops, adjusted, warnings) = reconcile_barriers(&nodes, &model, at);
            let reached: String = adjusted
                .iter()
                .map(|n| match n {
                    Node::Table(_) => 'T',
                    Node::Rule => 'R',
                    _ => 'C',
                })
                .collect();
            assert_eq!(kinds_after(&barriers, &ops), reached, "{have:?} -> {want:?}: {ops:?}");
            assert_eq!(warnings.len(), want.len() - reached.len());
        }
    }
}

#[test]
fn resize_requests_give_the_dimensions() {
    let grid = |rows: usize, cols: usize| Table { rows: vec![vec![vec![]; cols]; rows] };
    for (rows, cols) in [(1, 1), (2, 3), (3, 2)] {
        for (des_rows, des_cols) in [(1, 1), (2, 2), (4, 1), (1, 4)] {
            let cell = || CellEdit { start_index: 9, runs: vec![] };
            let cells = (0..rows).map(|_| (0..cols).map(|_| cell()).collect()).collect();
            let nodes = vec![
                CurNode::Paras(ParaSegment { start_index: 1, blocks: vec![] }),
                CurNode::Table { start_index: 5, end_index: 20, cells },
            ];
            let model = vec![Node::Table(grid(des_rows, des_cols))];
            let (mut r, mut c) = (rows, cols);
            for op in table_resize_requests(&nodes, &model) {
                let names = ["insertTableRow", "deleteTableRow", "insertTableColumn", "deleteTableColumn"];
                let name = names.into_iter().find(|n| op.get(n).is_some()).unwrap();
                let loc = op.get(name).unwrap().get("tableCellLocation").unwrap();
                let index = |n: &str| match loc.get(n) {
                    Some(Json::Number(x)) => *x as usize,
                    other => panic!("{other:?}"),
                };
                assert!(index("rowIndex") < r && index("columnIndex") < c, "{op:?}");
                match name {
                    "insertTableRow" => r += 1,
                    "deleteTableRow" => r -= 1,
                    "insertTableColumn" => c += 1,
                    _ => c -= 1,
                }
            }
            assert_eq!((r, c), (des_rows, des_cols));
        }
    }
}
