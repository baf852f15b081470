//! Reading documents and syncing them by their own indices.
use gdocdown::api::{document_to_model, sync_doc, unsupported_features};
use gdocdown::json::Member;
use gdocdown::{markdown_to_model, Block, BlockKind, Json, Node, Request, Run, TextStyle};

fn obj(members: Vec<(&str, Json)>) -> Json {
    Json::Object(members.into_iter().map(|(name, value)| Member { name: name.to_string(), value }).collect())
}

fn arr(items: Vec<Json>) -> Json {
    Json::Array(items)
}

fn text(s: &str) -> Json {
    Json::Str(s.to_string())
}

fn num(n: u64) -> Json {
    Json::Number(n)
}

fn text_run(content: &str, style: Vec<(&str, Json)>) -> Json {
    obj(vec![("textRun", obj(vec![("content", text(content)), ("textStyle", obj(style))]))])
}

fn paragraph(elements: Vec<Json>) -> Json {
    obj(vec![("elements", arr(elements))])
}

fn doc(content: Vec<Json>) -> Json {
    obj(vec![("body", obj(vec![("content", arr(content))]))])
}

fn cell(content: &str, bold: bool) -> Json {
    let p = paragraph(vec![text_run(&format!("{content}\n"), vec![("bold", Json::Bool(bold))])]);
    obj(vec![("content", arr(vec![obj(vec![("paragraph", p)])]))])
}

// A cell whose content paragraph carries a real start index.
fn pcell(content: &str, start: u64) -> Json {
    let p = paragraph(vec![text_run(&format!("{content}\n"), vec![])]);
    obj(vec![("content", arr(vec![obj(vec![("startIndex", num(start)), ("paragraph", p)])]))])
}

fn table(rows: Vec<Vec<Json>>) -> Json {
    let rows = rows.into_iter().map(|cells| obj(vec![("tableCells", arr(cells))])).collect();
    obj(vec![("tableRows", arr(rows))])
}

#[test]
fn document_to_model_reads_paragraphs_and_tables() {
    let doc = doc(vec![
        obj(vec![("paragraph", paragraph(vec![text_run("intro\n", vec![])]))]),
        obj(vec![(
            "table",
            table(vec![
                vec![cell("Name", false), cell("Role", false)],
                vec![cell("Ada", false), cell("eng", true)],
            ]),
        )]),
    ]);

    let model = document_to_model(&doc);
    assert_eq!(model.len(), 2);
    assert_eq!(
        model[0],
        Node::Para(Block {
            kind: BlockKind::Normal,
            depth: 0,
            runs: vec![Run { text: "intro".into(), style: TextStyle::default(), link: None, object: None }],
        })
    );
    let Node::Table(t) = &model[1] else { panic!("expected a table node") };
    assert_eq!(t.rows.len(), 2);
    assert_eq!(t.columns(), 2);
    assert_eq!(t.rows[0][0], vec![Run { text: "Name".into(), style: TextStyle::default(), link: None, object: None }]);
    assert_eq!(
        t.rows[1][1],
        vec![Run {
            text: "eng".into(),
            style: TextStyle { bold: true, ..Default::default() },
            link: None,
            object: None,
        }]
    );
}

#[test]
fn sync_doc_edits_paragraph_after_a_table_at_its_real_index() {
    // "intro\n" occupies [1,7); a table fills [7,19); "after\n" lives at [19,25).
    let doc = doc(vec![
        obj(vec![("startIndex", num(1)), ("paragraph", paragraph(vec![text_run("intro\n", vec![])]))]),
        obj(vec![("startIndex", num(7)), ("table", table(vec![vec![cell("x", false)]]))]),
        obj(vec![("startIndex", num(19)), ("paragraph", paragraph(vec![text_run("after\n", vec![])]))]),
    ]);

    // Edit the trailing paragraph; the table sits between the two paragraphs.
    let desired = markdown_to_model("intro\n\n| h |\n| --- |\n| x |\n\nafter edited");
    let reqs = sync_doc(&doc, &desired);

    let inserts: Vec<_> = reqs
        .iter()
        .filter_map(|r| match r {
            Request::InsertText(it) => Some((it.location.index, it.text.clone())),
            _ => None,
        })
        .collect();
    // "after" -> "after edited": insert " edited" before the newline at real
    // index 24, not at 12, where a flat offset would put it.
    assert_eq!(inserts, vec![(24, " edited".to_string())]);
}

#[test]
fn detects_unsupported_content() {
    let dirty = doc(vec![
        obj(vec![("sectionBreak", obj(vec![]))]), // leading default: ignored
        obj(vec![(
            "paragraph",
            paragraph(vec![
                text_run("hi\n", vec![]),
                obj(vec![("pageBreak", obj(vec![]))]), // modeled
                obj(vec![("footnoteReference", obj(vec![("footnoteId", text("f1"))]))]), // modeled
            ]),
        )]),
        obj(vec![(
            "paragraph",
            paragraph(vec![obj(vec![("inlineObjectElement", obj(vec![("inlineObjectId", text("x"))]))])]), // modeled
        )]),
        obj(vec![("paragraph", paragraph(vec![obj(vec![("equation", obj(vec![]))])]))]), // NOT modeled
    ]);
    let f = unsupported_features(&dirty);
    assert!(f.contains(&"equation".to_string()), "{f:?}");
    assert!(!f.contains(&"image".to_string()), "image should be modeled: {f:?}");
    assert!(!f.contains(&"page break".to_string()), "page break should be modeled: {f:?}");
    assert!(!f.contains(&"footnote".to_string()), "footnote should be modeled: {f:?}");

    // Paragraphs, tables, horizontal rules, and the leading section break are fine.
    let clean = doc(vec![
        obj(vec![("sectionBreak", obj(vec![]))]),
        obj(vec![("paragraph", paragraph(vec![text_run("hi\n", vec![])]))]),
        obj(vec![(
            "paragraph",
            paragraph(vec![obj(vec![("horizontalRule", obj(vec![]))]), text_run("\n", vec![])]),
        )]),
    ]);
    assert!(unsupported_features(&clean).is_empty(), "{:?}", unsupported_features(&clean));
}

#[test]
fn sync_doc_edits_a_table_cell_at_its_real_index() {
    // A 2x2 table; cell (1,1) "eng" lives at content index 16.
    let doc = doc(vec![
        obj(vec![("startIndex", num(1)), ("paragraph", paragraph(vec![text_run("top\n", vec![])]))]),
        obj(vec![
            ("startIndex", num(5)),
            (
                "table",
                table(vec![vec![pcell("Name", 7), pcell("Role", 10)], vec![pcell("Ada", 13), pcell("eng", 16)]]),
            ),
        ]),
        obj(vec![("startIndex", num(25)), ("paragraph", paragraph(vec![text_run("end\n", vec![])]))]),
    ]);

    // Same dimensions; only cell (1,1) changes: "eng" -> "engineer".
    let desired = markdown_to_model("top\n\n| Name | Role |\n| --- | --- |\n| Ada | engineer |\n\nend");
    let inserts: Vec<_> = sync_doc(&doc, &desired)
        .iter()
        .filter_map(|r| match r {
            Request::InsertText(it) => Some((it.location.index, it.text.clone())),
            _ => None,
        })
        .collect();
    // Append "ineer" inside cell (1,1): real index 16 + offset 3 = 19. No other edits.
    assert_eq!(inserts, vec![(19, "ineer".to_string())]);
}
