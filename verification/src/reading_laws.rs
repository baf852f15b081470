//! Documents in the shape that the service gives them read as what they show.
//!
//! Documents are written here by the names of the document service, from what they should
//! show; reading them gives that back.
use crate::api::{
    body_content, cell_content, chomp, descriptor, digits_value, document_model, element_node,
    element_nodes, element_run, element_runs, named_kind, paragraph_block, paragraph_runs, row_runs,
    rule_paragraph, style_of, table_items, table_runs, unsigned_part,
};
use crate::gate::unsupported;
use crate::gate_laws::{held_name, law_let_through, lets_through};
use crate::json::{
    dig, find_member, get_field, has_member, item_at, items, members, number_of, text_of, JsonV,
};
use crate::model::{
    lemma_absorb_all_identity, list_kind_of, normal_form, object_run, BlockKind, BlockV, NodeV,
    RunV, TextStyle,
};
use crate::style_pass::{decimal, list_preset, named_style};
use crate::text::{ascii_digit, occurs_at};
use crate::wire_laws::{lemma_member_none, lemma_members};
use vstd::prelude::*;

verus! {

// ---------------------------------------------------------------------------
// List items
// ---------------------------------------------------------------------------

/// The level of its list that a list item stands on, as the document describes it. An item
/// without a level stands on the first, and one without a list is looked up under no name.
pub open spec fn level_entry(doc: JsonV, bullet: JsonV) -> Option<JsonV> {
    let level = match number_of(get_field(bullet, "nestingLevel"@)) {
        Some(n) => n as int,
        None => 0,
    };
    let id = match text_of(get_field(bullet, "listId"@)) {
        Some(id) => id,
        None => Seq::empty(),
    };
    item_at(
        dig(dig(dig(get_field(doc, "lists"@), id), "listProperties"@), "nestingLevels"@),
        level,
    )
}

/// A list item is numbered where its level has a glyph type, a bullet where it has a glyph
/// symbol instead, and a checkbox where it has neither; its depth is its nesting level.
pub proof fn law_list_item(doc: JsonV, p: JsonV, bullet: JsonV)
    requires
        get_field(p, "bullet"@) == Some(bullet),
    ensures
        ({
            let b = paragraph_block(p, doc);
            let glyph = text_of(dig(level_entry(doc, bullet), "glyphType"@));
            let symbol = text_of(dig(level_entry(doc, bullet), "glyphSymbol"@));
            let typed = glyph is Some && glyph != Some("GLYPH_TYPE_UNSPECIFIED"@);
            &&& typed ==> b.kind == BlockKind::Number
            &&& !typed && symbol is Some ==> b.kind == BlockKind::Bullet
            &&& !typed && symbol is None ==> b.kind == BlockKind::Checkbox
            &&& number_of(get_field(bullet, "nestingLevel"@)) matches Some(n) ==> (n <= 255
                ==> b.depth == n)
            &&& get_field(bullet, "nestingLevel"@) is None ==> b.depth == 0
        }),
{
}

/// A paragraph is a rule just where one of its elements is, whatever else it holds.
pub proof fn law_rule(doc: JsonV, el: JsonV, p: JsonV)
    requires
        get_field(el, "paragraph"@) == Some(p),
    ensures
        element_node(el, doc) == Some(NodeV::Rule) <==> exists|j: int|
            0 <= j < items(get_field(p, "elements"@)).len() && has_member(
                #[trigger] items(get_field(p, "elements"@))[j],
                "horizontalRule"@,
            ),
{
}

/// A mark is on just where the style says that it is true.
pub proof fn law_marks_read(ts: JsonV)
    ensures
        ({
            let style = style_of(Some(ts));
            let on = Some(JsonV::Bool(true));
            &&& style.bold <==> get_field(ts, "bold"@) == on
            &&& style.italic <==> get_field(ts, "italic"@) == on
            &&& style.strikethrough <==> get_field(ts, "strikethrough"@) == on
        }),
{
}

// ---------------------------------------------------------------------------
// Writing documents
// ---------------------------------------------------------------------------

/// The marks and the link of a text style; what is off is left out.
pub open spec fn shown_style(style: TextStyle, link: Option<Seq<char>>) -> Seq<
    (Seq<char>, JsonV),
> {
    let on = JsonV::Bool(true);
    let none = Seq::<(Seq<char>, JsonV)>::empty();
    (if style.bold {
        seq![("bold"@, on)]
    } else {
        none
    }) + (if style.italic {
        seq![("italic"@, on)]
    } else {
        none
    }) + (if style.strikethrough {
        seq![("strikethrough"@, on)]
    } else {
        none
    }) + (match link {
        Some(url) => seq![("link"@, JsonV::Object(seq![("url"@, JsonV::Str(url))]))],
        None => none,
    })
}

/// What a paragraph element holds: text with a style.
pub open spec fn shown_text(
    content: Seq<char>,
    style: TextStyle,
    link: Option<Seq<char>>,
) -> (Seq<char>, JsonV) {
    (
        "textRun"@,
        JsonV::Object(
            seq![
                ("content"@, JsonV::Str(content)),
                ("textStyle"@, JsonV::Object(shown_style(style, link))),
            ],
        ),
    )
}

/// What a paragraph element holds: an inline object. An image and a footnote have an id, a
/// page break, a column break and a page number have none.
pub open spec fn shown_object(d: Seq<char>) -> (Seq<char>, JsonV) {
    let nothing = JsonV::Object(Seq::empty());
    if occurs_at(d, "image/"@, 0) {
        (
            "inlineObjectElement"@,
            JsonV::Object(seq![("inlineObjectId"@, JsonV::Str(d.skip(6)))]),
        )
    } else if occurs_at(d, "footnote/"@, 0) {
        ("footnoteReference"@, JsonV::Object(seq![("footnoteId"@, JsonV::Str(d.skip(9)))]))
    } else if d == "pagebreak"@ {
        ("pageBreak"@, nothing)
    } else if d == "columnbreak"@ {
        ("columnBreak"@, nothing)
    } else {
        ("autoText"@, nothing)
    }
}

/// The descriptor names an inline object that a document can show.
pub open spec fn known_object(d: Seq<char>) -> bool {
    occurs_at(d, "image/"@, 0) || occurs_at(d, "footnote/"@, 0) || d == "pagebreak"@ || d
        == "columnbreak"@ || d == "autotext"@
}

/// A paragraph element with its indices.
pub open spec fn shown_element(held: (Seq<char>, JsonV), start: u64, end: u64) -> JsonV {
    JsonV::Object(
        seq![("startIndex"@, JsonV::Number(start)), ("endIndex"@, JsonV::Number(end)), held],
    )
}

/// Where the elements of a document stand.
pub struct Places {
    pub start: spec_fn(int) -> u64,
    pub end: spec_fn(int) -> u64,
}

/// What the `k`-th element of a paragraph with these runs holds. The line feed at the end
/// stands in the last run where that is text, and else in an element of its own.
pub open spec fn shown_run(runs: Seq<RunV>, k: int) -> (Seq<char>, JsonV) {
    if k >= runs.len() {
        shown_text(
            seq!['\n'],
            TextStyle { bold: false, italic: false, strikethrough: false },
            None,
        )
    } else {
        let r = runs[k];
        match r.object {
            Some(d) => shown_object(d),
            None => shown_text(
                if k == runs.len() - 1 {
                    r.text.push('\n')
                } else {
                    r.text
                },
                r.style,
                r.link,
            ),
        }
    }
}

/// The elements of a paragraph with these runs.
pub open spec fn shown_runs(runs: Seq<RunV>, at: Places) -> Seq<JsonV> {
    let n = if runs.len() == 0 || runs.last().object is Some {
        runs.len() + 1
    } else {
        runs.len()
    };
    Seq::new(n, |k: int| shown_element(shown_run(runs, k), (at.start)(k), (at.end)(k)))
}

/// The named style of a kind of paragraph.
pub open spec fn shown_name(kind: BlockKind) -> Seq<char> {
    match kind {
        BlockKind::Heading(n) => if n == 1 {
            "HEADING_1"@
        } else if n == 2 {
            "HEADING_2"@
        } else if n == 3 {
            "HEADING_3"@
        } else if n == 4 {
            "HEADING_4"@
        } else if n == 5 {
            "HEADING_5"@
        } else {
            "HEADING_6"@
        },
        _ => "NORMAL_TEXT"@,
    }
}

/// The list of a kind of list item.
pub open spec fn shown_list(kind: BlockKind) -> Seq<char> {
    match kind {
        BlockKind::Number => "numbers"@,
        BlockKind::Bullet => "bullets"@,
        _ => "checkboxes"@,
    }
}

/// A level of a list of this kind: numbers have a glyph type, bullets have a symbol, and
/// checkboxes have neither.
pub open spec fn shown_level(kind: BlockKind) -> JsonV {
    JsonV::Object(
        match kind {
            BlockKind::Number => seq![("glyphType"@, JsonV::Str("DECIMAL"@))],
            BlockKind::Bullet => seq![("glyphSymbol"@, JsonV::Str("\u{25cf}"@))],
            _ => seq![("glyphType"@, JsonV::Str("GLYPH_TYPE_UNSPECIFIED"@))],
        },
    )
}

/// A list of this kind, with a level for every depth.
pub open spec fn shown_levels(kind: BlockKind) -> JsonV {
    JsonV::Object(
        seq![
            (
                "listProperties"@,
                JsonV::Object(
                    seq![
                        (
                            "nestingLevels"@,
                            JsonV::Array(Seq::new(256, |i: int| shown_level(kind))),
                        ),
                    ],
                ),
            ),
        ],
    )
}

/// The lists of a document: one of each kind.
pub open spec fn shown_lists() -> JsonV {
    JsonV::Object(
        seq![
            ("numbers"@, shown_levels(BlockKind::Number)),
            ("bullets"@, shown_levels(BlockKind::Bullet)),
            ("checkboxes"@, shown_levels(BlockKind::Checkbox)),
        ],
    )
}

/// A paragraph. The level of a list item at the top is left out.
pub open spec fn shown_paragraph(b: BlockV, at: Places) -> JsonV {
    let elements = ("elements"@, JsonV::Array(shown_runs(b.runs, at)));
    let name = (
        "paragraphStyle"@,
        JsonV::Object(seq![("namedStyleType"@, JsonV::Str(shown_name(b.kind)))]),
    );
    let id = ("listId"@, JsonV::Str(shown_list(b.kind)));
    JsonV::Object(
        if !list_kind_of(b.kind) {
            seq![elements, name]
        } else if b.depth == 0 {
            seq![elements, name, ("bullet"@, JsonV::Object(seq![id]))]
        } else {
            seq![
                elements,
                name,
                (
                    "bullet"@,
                    JsonV::Object(seq![id, ("nestingLevel"@, JsonV::Number(b.depth as u64))]),
                ),
            ]
        },
    )
}

/// A structural element that holds this, with its indices.
pub open spec fn shown_node(held: (Seq<char>, JsonV), start: u64, end: u64) -> JsonV {
    JsonV::Object(
        seq![("startIndex"@, JsonV::Number(start)), ("endIndex"@, JsonV::Number(end)), held],
    )
}

/// A table cell: its first paragraph.
pub open spec fn shown_cell(runs: Seq<RunV>, at: Places) -> JsonV {
    let b = BlockV { kind: BlockKind::Normal, depth: 0, runs };
    JsonV::Object(
        seq![
            (
                "content"@,
                JsonV::Array(
                    seq![shown_node(("paragraph"@, shown_paragraph(b, at)), (at.start)(0), 0)],
                ),
            ),
        ],
    )
}

/// A table row.
pub open spec fn shown_row(row: Seq<Seq<RunV>>, at: Places) -> JsonV {
    JsonV::Object(
        seq![
            (
                "tableCells"@,
                JsonV::Array(Seq::new(row.len(), |j: int| shown_cell(row[j], at))),
            ),
        ],
    )
}

/// A table.
pub open spec fn shown_table(rows: Seq<Seq<Seq<RunV>>>, at: Places) -> JsonV {
    JsonV::Object(
        seq![
            (
                "tableRows"@,
                JsonV::Array(Seq::new(rows.len(), |i: int| shown_row(rows[i], at))),
            ),
        ],
    )
}

/// What the structural element of a node holds. A rule stands in a paragraph.
pub open spec fn shown_held(n: NodeV, at: Places) -> (Seq<char>, JsonV) {
    match n {
        NodeV::Para(b) => ("paragraph"@, shown_paragraph(b, at)),
        NodeV::Table(rows) => ("table"@, shown_table(rows, at)),
        NodeV::Rule => (
            "paragraph"@,
            JsonV::Object(
                seq![
                    (
                        "elements"@,
                        JsonV::Array(
                            seq![
                                shown_element(
                                    ("horizontalRule"@, JsonV::Object(Seq::empty())),
                                    0,
                                    1,
                                ),
                                shown_element(shown_run(Seq::empty(), 0), 1, 2),
                            ],
                        ),
                    ),
                ],
            ),
        ),
        NodeV::Toc => ("tableOfContents"@, JsonV::Object(Seq::empty())),
    }
}

/// The structural elements of a document: a section break at the front, and the nodes.
pub open spec fn shown_content(nodes: Seq<NodeV>, at: Places) -> Seq<JsonV> {
    Seq::new(
        nodes.len() + 1,
        |i: int|
            if i == 0 {
                JsonV::Object(seq![("sectionBreak"@, JsonV::Object(Seq::empty()))])
            } else {
                shown_node(shown_held(nodes[i - 1], at), (at.start)(i), (at.end)(i))
            },
    )
}

/// A document that shows these nodes.
pub open spec fn shown_document(nodes: Seq<NodeV>, at: Places) -> JsonV {
    JsonV::Object(
        seq![
            (
                "body"@,
                JsonV::Object(seq![("content"@, JsonV::Array(shown_content(nodes, at)))]),
            ),
            ("lists"@, shown_lists()),
        ],
    )
}

// ---------------------------------------------------------------------------
// What can be shown
// ---------------------------------------------------------------------------

/// A run that a paragraph can show: text of one paragraph, or a known object.
pub open spec fn showable_run(r: RunV) -> bool {
    match r.object {
        Some(d) => known_object(d) && r == object_run(d),
        None => !r.text.contains('\n'),
    }
}

/// Runs that a paragraph can show.
pub open spec fn showable_runs(runs: Seq<RunV>) -> bool {
    &&& normal_form(runs)
    &&& forall|k: int| 0 <= k < runs.len() ==> showable_run(#[trigger] runs[k])
}

/// A table row that can be shown.
pub open spec fn showable_row(row: Seq<Seq<RunV>>) -> bool {
    forall|j: int| 0 <= j < row.len() ==> showable_runs(#[trigger] row[j])
}

/// Table rows that can be shown.
pub open spec fn showable_rows(rows: Seq<Seq<Seq<RunV>>>) -> bool {
    forall|i: int| 0 <= i < rows.len() ==> #[trigger] showable_row(rows[i])
}

/// A node that a document can show.
pub open spec fn showable(n: NodeV) -> bool {
    match n {
        NodeV::Para(b) => {
            &&& showable_runs(b.runs)
            &&& b.kind matches BlockKind::Heading(n) ==> 1 <= n <= 6
            &&& !list_kind_of(b.kind) ==> b.depth == 0
        },
        NodeV::Table(rows) => showable_rows(rows),
        _ => true,
    }
}

// ---------------------------------------------------------------------------
// Reading runs
// ---------------------------------------------------------------------------

/// The names are told apart.
pub proof fn lemma_element_names()
    ensures
        "textRun"@.len() == 7,
        "startIndex"@.len() == 10,
        "startIndex"@[0] == 's',
        "endIndex"@.len() == 8,
        "endIndex"@[0] == 'e',
        "horizontalRule"@.len() == 14,
        "inlineObjectElement"@.len() == 19,
        "footnoteReference"@.len() == 17,
        "pageBreak"@.len() == 9,
        "columnBreak"@.len() == 11,
        "autoText"@.len() == 8,
        "autoText"@[0] == 'a',
        "content"@.len() == 7,
        "textStyle"@.len() == 9,
        "bold"@.len() == 4,
        "bold"@[0] == 'b',
        "italic"@.len() == 6,
        "strikethrough"@.len() == 13,
        "link"@.len() == 4,
        "link"@[0] == 'l',
{
    reveal_strlit("textRun");
    reveal_strlit("startIndex");
    reveal_strlit("endIndex");
    reveal_strlit("horizontalRule");
    reveal_strlit("inlineObjectElement");
    reveal_strlit("footnoteReference");
    reveal_strlit("pageBreak");
    reveal_strlit("columnBreak");
    reveal_strlit("autoText");
    reveal_strlit("content");
    reveal_strlit("textStyle");
    reveal_strlit("bold");
    reveal_strlit("italic");
    reveal_strlit("strikethrough");
    reveal_strlit("link");
}

/// What an object of three members, of which the last is named otherwise than the first
/// two, has under a name.
proof fn lemma_third(ms: Seq<(Seq<char>, JsonV)>, name: Seq<char>)
    requires
        ms.len() == 3,
        ms[0].0 != name,
        ms[1].0 != name,
    ensures
        get_field(JsonV::Object(ms), name) == if ms[2].0 == name {
            Some(ms[2].1)
        } else {
            None
        },
{
    reveal_with_fuel(find_member, 4);
}

/// A style reads as what it shows.
proof fn lemma_style_reads(style: TextStyle, link: Option<Seq<char>>)
    ensures
        style_of(Some(JsonV::Object(shown_style(style, link)))) == style,
        text_of(dig(dig(Some(JsonV::Object(shown_style(style, link))), "link"@), "url"@)) == link,
{
    lemma_element_names();
    let ms = shown_style(style, link);
    let on = JsonV::Bool(true);
    lemma_members(ms);
    let b = if style.bold {
        1int
    } else {
        0
    };
    let i = if style.italic {
        1int
    } else {
        0
    };
    let s = if style.strikethrough {
        1int
    } else {
        0
    };
    if style.bold {
        assert(ms[0] == ("bold"@, on));
    } else {
        lemma_member_none(ms, "bold"@, 0);
    }
    if style.italic {
        assert(ms[b] == ("italic"@, on));
    } else {
        lemma_member_none(ms, "italic"@, 0);
    }
    if style.strikethrough {
        assert(ms[b + i] == ("strikethrough"@, on));
    } else {
        lemma_member_none(ms, "strikethrough"@, 0);
    }
    match link {
        Some(url) => {
            let address = seq![("url"@, JsonV::Str(url))];
            assert(ms[b + i + s] == ("link"@, JsonV::Object(address)));
            lemma_members(address);
            assert(address[0].0 == "url"@);
        },
        None => {
            lemma_member_none(ms, "link"@, 0);
        },
    }
}

/// An element with text reads as that text without the paragraph's line feed.
proof fn lemma_text_reads(
    content: Seq<char>,
    style: TextStyle,
    link: Option<Seq<char>>,
    start: u64,
    end: u64,
)
    ensures
        ({
            let e = shown_element(shown_text(content, style, link), start, end);
            &&& descriptor(e) is None
            &&& !has_member(e, "horizontalRule"@)
            &&& element_run(e) == if chomp(content).len() == 0 {
                None
            } else {
                Some(RunV { text: chomp(content), style, link, object: None })
            }
        }),
{
    lemma_element_names();
    let held = shown_text(content, style, link);
    let e = shown_element(held, start, end);
    let ms = e->Object_0;
    lemma_third(ms, "inlineObjectElement"@);
    lemma_third(ms, "footnoteReference"@);
    lemma_third(ms, "pageBreak"@);
    lemma_third(ms, "columnBreak"@);
    lemma_third(ms, "autoText"@);
    lemma_third(ms, "horizontalRule"@);
    lemma_third(ms, "textRun"@);
    let inner = held.1->Object_0;
    lemma_members(inner);
    assert(inner[0].0 == "content"@ && inner[1].0 == "textStyle"@);
    lemma_style_reads(style, link);
}

/// An element with an inline object reads as that object.
proof fn lemma_object_reads(d: Seq<char>, start: u64, end: u64)
    requires
        known_object(d),
    ensures
        element_run(shown_element(shown_object(d), start, end)) == Some(object_run(d)),
        !has_member(shown_element(shown_object(d), start, end), "horizontalRule"@),
{
    lemma_element_names();
    reveal_strlit("image/");
    reveal_strlit("footnote/");
    let held = shown_object(d);
    let e = shown_element(held, start, end);
    let ms = e->Object_0;
    lemma_third(ms, "inlineObjectElement"@);
    lemma_third(ms, "footnoteReference"@);
    lemma_third(ms, "pageBreak"@);
    lemma_third(ms, "columnBreak"@);
    lemma_third(ms, "autoText"@);
    lemma_third(ms, "horizontalRule"@);
    let inner = held.1->Object_0;
    if occurs_at(d, "image/"@, 0) {
        lemma_members(inner);
        assert(inner[0].0 == "inlineObjectId"@);
        assert("image/"@ + d.skip(6) =~= d) by {
            assert(d.subrange(0, 6) == "image/"@);
            assert(d =~= d.subrange(0, 6) + d.skip(6));
        }
    } else if occurs_at(d, "footnote/"@, 0) {
        lemma_members(inner);
        assert(inner[0].0 == "footnoteId"@);
        assert("footnote/"@ + d.skip(9) =~= d) by {
            assert(d.subrange(0, 9) == "footnote/"@);
            assert(d =~= d.subrange(0, 9) + d.skip(9));
        }
    }
}

/// The elements of a paragraph read as its runs.
proof fn lemma_runs_read(runs: Seq<RunV>, at: Places, n: int)
    requires
        showable_runs(runs),
        0 <= n <= shown_runs(runs, at).len(),
    ensures
        element_runs(shown_runs(runs, at), n) == runs.take(
            if n <= runs.len() {
                n
            } else {
                runs.len() as int
            },
        ),
        forall|k: int|
            0 <= k < n ==> !has_member(#[trigger] shown_runs(runs, at)[k], "horizontalRule"@),
    decreases n,
{
    let es = shown_runs(runs, at);
    if n > 0 {
        lemma_runs_read(runs, at, n - 1);
        let k = n - 1;
        if k < runs.len() {
            let r = runs[k];
            assert(showable_run(r));
            match r.object {
                Some(d) => {
                    lemma_object_reads(d, (at.start)(k), (at.end)(k));
                },
                None => {
                    let content = if k == runs.len() - 1 {
                        r.text.push('\n')
                    } else {
                        r.text
                    };
                    lemma_text_reads(content, r.style, r.link, (at.start)(k), (at.end)(k));
                    assert(r.text.len() > 0);
                    assert(r.text.last() != '\n') by {
                        assert(r.text.contains(r.text[r.text.len() - 1]));
                    }
                    assert(chomp(content) =~= r.text);
                },
            }
            assert(element_run(es[k]) == Some(r));
            assert(runs.take(n) =~= runs.take(k).push(r));
        } else {
            let plain = TextStyle { bold: false, italic: false, strikethrough: false };
            lemma_text_reads(seq!['\n'], plain, None, (at.start)(k), (at.end)(k));
            assert(chomp(seq!['\n']).len() == 0);
            assert(element_run(es[k]) is None);
        }
    } else {
        assert(runs.take(0) =~= Seq::<RunV>::empty());
    }
}

/// A paragraph reads as its runs, and is no rule.
proof fn lemma_paragraph_reads(b: BlockV, at: Places)
    requires
        showable_runs(b.runs),
    ensures
        paragraph_runs(Some(shown_paragraph(b, at))) == b.runs,
        !rule_paragraph(shown_paragraph(b, at)),
{
    let p = shown_paragraph(b, at);
    let ms = p->Object_0;
    lemma_members(ms);
    assert(ms[0].0 == "elements"@);
    let es = shown_runs(b.runs, at);
    assert(items(get_field(p, "elements"@)) == es);
    lemma_runs_read(b.runs, at, es.len() as int);
    assert(b.runs.take(b.runs.len() as int) =~= b.runs);
    lemma_absorb_all_identity(Seq::empty(), b.runs);
    assert(Seq::<RunV>::empty() + b.runs =~= b.runs);
}

// ---------------------------------------------------------------------------
// Reading blocks
// ---------------------------------------------------------------------------

/// The lists of a shown document.
proof fn lemma_lists(doc: JsonV, kind: BlockKind)
    requires
        list_kind_of(kind),
        get_field(doc, "lists"@) == Some(shown_lists()),
    ensures
        dig(get_field(doc, "lists"@), shown_list(kind)) == Some(shown_levels(kind)),
        items(
            dig(dig(Some(shown_levels(kind)), "listProperties"@), "nestingLevels"@),
        ) == Seq::new(256, |i: int| shown_level(kind)),
{
    reveal_strlit("numbers");
    reveal_strlit("bullets");
    reveal_strlit("checkboxes");
    let ms = shown_lists()->Object_0;
    lemma_members(ms);
    assert(ms[0].0 == "numbers"@ && ms[1].0 == "bullets"@ && ms[2].0 == "checkboxes"@);
    assert("numbers"@[0] == 'n' && "bullets"@[0] == 'b' && "checkboxes"@[0] == 'c');
    let outer = shown_levels(kind)->Object_0;
    lemma_members(outer);
    assert(outer[0].0 == "listProperties"@);
    let inner = outer[0].1->Object_0;
    lemma_members(inner);
    assert(inner[0].0 == "nestingLevels"@);
}

/// The kind of a list item of a shown document.
proof fn lemma_list_reads(doc: JsonV, b: BlockV, at: Places)
    requires
        list_kind_of(b.kind),
        get_field(doc, "lists"@) == Some(shown_lists()),
    ensures
        paragraph_block(shown_paragraph(b, at), doc).kind == b.kind,
        paragraph_block(shown_paragraph(b, at), doc).depth == b.depth,
{
    reveal_strlit("elements");
    reveal_strlit("paragraphStyle");
    reveal_strlit("bullet");
    reveal_strlit("listId");
    reveal_strlit("nestingLevel");
    reveal_strlit("glyphType");
    reveal_strlit("glyphSymbol");
    reveal_strlit("DECIMAL");
    reveal_strlit("GLYPH_TYPE_UNSPECIFIED");
    let p = shown_paragraph(b, at);
    let ms = p->Object_0;
    lemma_members(ms);
    assert(ms[0].0 == "elements"@ && ms[1].0 == "paragraphStyle"@ && ms[2].0 == "bullet"@);
    assert("elements"@.len() == 8 && "paragraphStyle"@.len() == 14 && "bullet"@.len() == 6);
    let bullet = ms[2].1;
    assert(get_field(p, "bullet"@) == Some(bullet));
    let bs = bullet->Object_0;
    lemma_members(bs);
    assert(bs[0].0 == "listId"@);
    assert("listId"@.len() == 6 && "nestingLevel"@.len() == 12);
    if b.depth == 0 {
        lemma_member_none(bs, "nestingLevel"@, 0);
    } else {
        assert(bs[1].0 == "nestingLevel"@);
    }
    lemma_lists(doc, b.kind);
    let level = shown_level(b.kind);
    assert(level_entry(doc, bullet) == Some(level));
    let ls = level->Object_0;
    lemma_members(ls);
    assert("glyphType"@.len() == 9 && "glyphSymbol"@.len() == 11);
    assert("DECIMAL"@.len() == 7 && "GLYPH_TYPE_UNSPECIFIED"@.len() == 22);
    match b.kind {
        BlockKind::Number => {
            assert(ls[0].0 == "glyphType"@);
        },
        BlockKind::Bullet => {
            assert(ls[0].0 == "glyphSymbol"@);
            lemma_member_none(ls, "glyphType"@, 0);
        },
        _ => {
            assert(ls[0].0 == "glyphType"@);
            lemma_member_none(ls, "glyphSymbol"@, 0);
        },
    }
    law_list_item(doc, p, bullet);
}

/// The kind that a named style stands for: a heading of the level that it names, or normal
/// text.
pub proof fn law_named_kinds(kind: BlockKind)
    requires
        !list_kind_of(kind),
        kind matches BlockKind::Heading(n) ==> 1 <= n <= 6,
    ensures
        named_kind(shown_name(kind)) == kind,
{
    reveal_strlit("HEADING_");
    reveal_strlit("NORMAL_TEXT");
    let prefix = "HEADING_"@;
    let s = shown_name(kind);
    match kind {
        BlockKind::Heading(n) => {
            reveal_strlit("HEADING_1");
            reveal_strlit("HEADING_2");
            reveal_strlit("HEADING_3");
            reveal_strlit("HEADING_4");
            reveal_strlit("HEADING_5");
            reveal_strlit("HEADING_6");
            assert(s.len() == 9);
            assert(s.subrange(0, 8) =~= prefix);
            assert(occurs_at(s, prefix, 0));
            let t = s.skip(8);
            assert(t.len() == 1);
            assert(t[0] == s[8]);
            assert(t.drop_last() =~= Seq::<char>::empty());
            reveal_with_fuel(digits_value, 2);
            assert(unsigned_part(t) == t);
            assert(digits_value(t) == n);
            assert(forall|i: int| 0 <= i < t.len() ==> ascii_digit(#[trigger] t[i]));
        },
        _ => {
            assert(s[0] == 'N');
            if occurs_at(s, prefix, 0) {
                assert(s.subrange(0, 8)[0] == prefix[0]);
            }
        },
    }
}

/// Any name but that of a heading stands for normal text.
pub proof fn law_other_names(name: Seq<char>)
    requires
        name.len() < 8 || name.subrange(0, 8) != "HEADING_"@,
    ensures
        named_kind(name) == BlockKind::Normal,
{
    reveal_strlit("HEADING_");
}

/// A paragraph of a shown document reads as its block.
proof fn lemma_block_reads(doc: JsonV, b: BlockV, at: Places)
    requires
        showable(NodeV::Para(b)),
        get_field(doc, "lists"@) == Some(shown_lists()),
    ensures
        paragraph_block(shown_paragraph(b, at), doc) == b,
{
    lemma_paragraph_reads(b, at);
    if list_kind_of(b.kind) {
        lemma_list_reads(doc, b, at);
    } else {
        reveal_strlit("elements");
        reveal_strlit("paragraphStyle");
        reveal_strlit("bullet");
        let p = shown_paragraph(b, at);
        let ms = p->Object_0;
        lemma_members(ms);
        assert(ms[0].0 == "elements"@ && ms[1].0 == "paragraphStyle"@);
        assert("elements"@.len() == 8 && "paragraphStyle"@.len() == 14 && "bullet"@.len() == 6);
        lemma_member_none(ms, "bullet"@, 0);
        let style = ms[1].1->Object_0;
        lemma_members(style);
        assert(style[0].0 == "namedStyleType"@);
        law_named_kinds(b.kind);
    }
}

/// A table reads as its cells.
proof fn lemma_table_reads(rows: Seq<Seq<Seq<RunV>>>, at: Places)
    requires
        showable_rows(rows),
    ensures
        table_runs(Some(shown_table(rows, at))) == rows,
{
    reveal_strlit("startIndex");
    reveal_strlit("endIndex");
    reveal_strlit("paragraph");
    let t = shown_table(rows, at);
    let ms = t->Object_0;
    lemma_members(ms);
    assert(ms[0].0 == "tableRows"@);
    assert forall|i: int| 0 <= i < rows.len() implies row_runs(table_items(Some(t))[i])
        == rows[i] by {
        let row = rows[i];
        let j = shown_row(row, at);
        let rs = j->Object_0;
        lemma_members(rs);
        assert(rs[0].0 == "tableCells"@);
        assert(showable_row(rows[i]));
        assert forall|c: int| 0 <= c < row.len() implies row_runs(j)[c] == row[c] by {
            assert(showable_runs(row[c]));
            let cell = shown_cell(row[c], at);
            let cs = cell->Object_0;
            lemma_members(cs);
            assert(cs[0].0 == "content"@);
            let b = BlockV { kind: BlockKind::Normal, depth: 0, runs: row[c] };
            let first = cell_content(cell)->0;
            assert("startIndex"@.len() == 10 && "endIndex"@.len() == 8 && "paragraph"@.len() == 9);
            assert(first == shown_node(("paragraph"@, shown_paragraph(b, at)), (at.start)(0), 0));
            lemma_third(first->Object_0, "paragraph"@);
            lemma_paragraph_reads(b, at);
        }
        assert(row_runs(j) =~= row);
    }
    assert(table_runs(Some(t)) =~= rows);
}

/// The structural element of a node reads as the node.
proof fn lemma_node_reads(doc: JsonV, n: NodeV, at: Places, start: u64, end: u64)
    requires
        showable(n),
        get_field(doc, "lists"@) == Some(shown_lists()),
    ensures
        element_node(shown_node(shown_held(n, at), start, end), doc) == Some(n),
{
    reveal_strlit("startIndex");
    reveal_strlit("endIndex");
    reveal_strlit("paragraph");
    reveal_strlit("table");
    reveal_strlit("tableOfContents");
    let el = shown_node(shown_held(n, at), start, end);
    let ms = el->Object_0;
    assert("startIndex"@.len() == 10 && "endIndex"@.len() == 8);
    assert("paragraph"@.len() == 9 && "table"@.len() == 5 && "tableOfContents"@.len() == 15);
    assert(ms[0].0 == "startIndex"@ && ms[1].0 == "endIndex"@);
    lemma_third(ms, "paragraph"@);
    lemma_third(ms, "table"@);
    lemma_third(ms, "tableOfContents"@);
    match n {
        NodeV::Para(b) => {
            lemma_block_reads(doc, b, at);
            lemma_paragraph_reads(b, at);
        },
        NodeV::Table(rows) => {
            lemma_table_reads(rows, at);
        },
        NodeV::Rule => {
            let p = ms[2].1;
            lemma_members(p->Object_0);
            assert(p->Object_0[0].0 == "elements"@);
            let es = items(get_field(p, "elements"@));
            lemma_element_names();
            lemma_third(es[0]->Object_0, "horizontalRule"@);
            assert(has_member(es[0], "horizontalRule"@));
        },
        NodeV::Toc => {},
    }
}

/// A document that shows a model, in the shape that the service gives it, reads as that
/// model: paragraphs with their styles, lists, levels, marks, links and objects, tables with
/// their cells, rules and tables of contents.
pub proof fn law_document_reads(nodes: Seq<NodeV>, at: Places)
    requires
        forall|i: int| 0 <= i < nodes.len() ==> showable(#[trigger] nodes[i]),
    ensures
        document_model(shown_document(nodes, at)) == nodes,
{
    let doc = shown_document(nodes, at);
    let els = shown_content(nodes, at);
    lemma_shown_body(nodes, at);
    lemma_nodes_read(nodes, at, els.len() as int);
    assert(nodes.take(nodes.len() as int) =~= nodes);
}

/// The parts of a shown document.
pub proof fn lemma_shown_body(nodes: Seq<NodeV>, at: Places)
    ensures
        body_content(shown_document(nodes, at)) == shown_content(nodes, at),
        get_field(shown_document(nodes, at), "lists"@) == Some(shown_lists()),
{
    reveal_strlit("body");
    reveal_strlit("lists");
    let ms = shown_document(nodes, at)->Object_0;
    lemma_members(ms);
    assert("body"@.len() == 4 && "lists"@.len() == 5);
    assert(ms[0].0 == "body"@ && ms[1].0 == "lists"@);
    let body = ms[0].1->Object_0;
    lemma_members(body);
    assert(body[0].0 == "content"@);
}

proof fn lemma_nodes_read(nodes: Seq<NodeV>, at: Places, n: int)
    requires
        forall|i: int| 0 <= i < nodes.len() ==> showable(#[trigger] nodes[i]),
        0 <= n <= nodes.len() + 1,
    ensures
        element_nodes(shown_content(nodes, at), shown_document(nodes, at), n) == nodes.take(
            if n == 0 {
                0
            } else {
                n - 1
            },
        ),
    decreases n,
{
    let els = shown_content(nodes, at);
    let doc = shown_document(nodes, at);
    lemma_shown_body(nodes, at);
    if n == 0 {
        assert(nodes.take(0) =~= Seq::<NodeV>::empty());
    } else {
        lemma_nodes_read(nodes, at, n - 1);
        if n == 1 {
            reveal_strlit("sectionBreak");
            reveal_strlit("paragraph");
            reveal_strlit("table");
            reveal_strlit("tableOfContents");
            let ms = els[0]->Object_0;
            assert("sectionBreak"@.len() == 12 && "paragraph"@.len() == 9 && "table"@.len() == 5
                && "tableOfContents"@.len() == 15);
            lemma_member_none(ms, "paragraph"@, 0);
            lemma_member_none(ms, "table"@, 0);
            lemma_member_none(ms, "tableOfContents"@, 0);
            assert(element_node(els[0], doc) is None);
            assert(nodes.take(0) =~= Seq::<NodeV>::empty());
        } else {
            let node = nodes[n - 2];
            assert(showable(node));
            lemma_node_reads(doc, node, at, (at.start)(n - 1), (at.end)(n - 1));
            assert(nodes.take(n - 1) =~= nodes.take(n - 2).push(node));
        }
    }
}

// ---------------------------------------------------------------------------
// What is written
// ---------------------------------------------------------------------------

/// The kind of list that a preset makes, by its name.
pub open spec fn preset_kind(preset: Seq<char>) -> Option<BlockKind> {
    if occurs_at(preset, "NUMBERED_"@, 0) {
        Some(BlockKind::Number)
    } else if preset == "BULLET_CHECKBOX"@ {
        Some(BlockKind::Checkbox)
    } else if occurs_at(preset, "BULLET_"@, 0) {
        Some(BlockKind::Bullet)
    } else {
        None
    }
}

/// The named style and the list preset that are written for a paragraph are those that it is
/// read by again.
pub proof fn law_kinds_written(kind: BlockKind)
    requires
        kind matches BlockKind::Heading(n) ==> 1 <= n <= 6,
    ensures
        named_style(kind) == shown_name(kind),
        !list_kind_of(kind) ==> named_kind(named_style(kind)) == kind,
        list_kind_of(kind) ==> preset_kind(list_preset(kind)) == Some(kind),
{
    if !list_kind_of(kind) {
        law_named_kinds(kind);
    }
    if let BlockKind::Heading(n) = kind {
        reveal_strlit("HEADING_");
        reveal_strlit("HEADING_1");
        reveal_strlit("HEADING_2");
        reveal_strlit("HEADING_3");
        reveal_strlit("HEADING_4");
        reveal_strlit("HEADING_5");
        reveal_strlit("HEADING_6");
        let a = named_style(kind);
        let b = shown_name(kind);
        assert(decimal(n as nat) =~= seq![('0' as u32 + n as nat % 10) as char]);
        assert(a.len() == 9);
        assert(a[8] == b[8]);
        assert(a =~= b);
    }
    reveal_strlit("NUMBERED_");
    reveal_strlit("BULLET_");
    reveal_strlit("BULLET_CHECKBOX");
    reveal_strlit("NUMBERED_DECIMAL_ALPHA_ROMAN");
    reveal_strlit("BULLET_DISC_CIRCLE_SQUARE");
    let p = list_preset(kind);
    match kind {
        BlockKind::Number => {
            assert(p.subrange(0, 9) =~= "NUMBERED_"@);
        },
        BlockKind::Bullet => {
            assert(p[0] == 'B');
            if occurs_at(p, "NUMBERED_"@, 0) {
                assert(p.subrange(0, 9)[0] == "NUMBERED_"@[0]);
            }
            assert(p.len() != "BULLET_CHECKBOX"@.len());
            assert(p.subrange(0, 7) =~= "BULLET_"@);
        },
        BlockKind::Checkbox => {
            assert(p[0] == 'B');
            if occurs_at(p, "NUMBERED_"@, 0) {
                assert(p.subrange(0, 9)[0] == "NUMBERED_"@[0]);
            }
            assert(p =~= "BULLET_CHECKBOX"@);
        },
        _ => {},
    }
}

/// The elements of a shown paragraph have only members that are held.
proof fn lemma_elements_pass(es: Seq<JsonV>, j: int, m: int)
    requires
        0 <= j < es.len(),
        exists|held: (Seq<char>, JsonV), a: u64, b: u64|
            held_name(held.0) && es[j] == #[trigger] shown_element(held, a, b),
        0 <= m < members(es[j]).len(),
    ensures
        held_name(members(es[j])[m].0),
{
}

/// Nothing in a shown document is unsupported.
pub proof fn law_shown_passes(nodes: Seq<NodeV>, at: Places)
    ensures
        unsupported(shown_document(nodes, at)).len() == 0,
{
    let doc = shown_document(nodes, at);
    let els = body_content(doc);
    lemma_shown_body(nodes, at);
    assert forall|i: int| 0 <= i < els.len() implies lets_through(#[trigger] els[i], i) by {
        reveal_strlit("startIndex");
        reveal_strlit("endIndex");
        reveal_strlit("paragraph");
        reveal_strlit("table");
        reveal_strlit("tableOfContents");
        reveal_strlit("sectionBreak");
        let ms = els[i]->Object_0;
        assert("startIndex"@.len() == 10 && "endIndex"@.len() == 8 && "paragraph"@.len() == 9
            && "table"@.len() == 5 && "tableOfContents"@.len() == 15 && "sectionBreak"@.len()
            == 12);
        if i == 0 {
            lemma_member_none(ms, "paragraph"@, 0);
            lemma_members(ms);
            assert(ms[0].0 == "sectionBreak"@);
        } else {
            let n = nodes[i - 1];
            assert(els[i] == shown_node(shown_held(n, at), (at.start)(i), (at.end)(i)));
            lemma_third(ms, "paragraph"@);
            lemma_third(ms, "table"@);
            lemma_third(ms, "tableOfContents"@);
            match n {
                NodeV::Para(b) => {
                    let p = shown_paragraph(b, at);
                    lemma_members(p->Object_0);
                    assert(p->Object_0[0].0 == "elements"@);
                    let es = shown_runs(b.runs, at);
                    assert(items(get_field(p, "elements"@)) == es);
                    assert forall|j: int, m: int|
                        0 <= j < es.len() && 0 <= m < members(es[j]).len() implies held_name(
                        (#[trigger] members(es[j])[m]).0,
                    ) by {
                        let held = shown_run(b.runs, j);
                        assert(es[j] == shown_element(held, (at.start)(j), (at.end)(j)));
                        lemma_elements_pass(es, j, m);
                    }
                },
                NodeV::Rule => {
                    let p = ms[2].1;
                    lemma_members(p->Object_0);
                    assert(p->Object_0[0].0 == "elements"@);
                    let es = items(get_field(p, "elements"@));
                    assert forall|j: int, m: int|
                        0 <= j < es.len() && 0 <= m < members(es[j]).len() implies held_name(
                        (#[trigger] members(es[j])[m]).0,
                    ) by {
                        if j == 0 {
                            let held = ("horizontalRule"@, JsonV::Object(Seq::empty()));
                            assert(es[j] == shown_element(held, 0, 1));
                        } else {
                            let held = shown_run(Seq::empty(), 0);
                            assert(es[j] == shown_element(held, 1, 2));
                        }
                        lemma_elements_pass(es, j, m);
                    }
                },
                _ => {},
            }
        }
    }
    law_let_through(doc);
}

} // verus!
