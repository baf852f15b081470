//! Reading documents: from the JSON of `documents.get` to the model and to positioned
//! nodes.
use crate::json::{
    array_of, dig, dig_into, get_field, has_member, is_true, item_at, item_of, items, json_views,
    number_of, opt_json, str_of, text_of, true_of, u64_of, Json, JsonV,
};
use crate::model::{
    block_views, node_views, normalize_runs, normalized, object_run, row_view, rows_view, run_views,
    Block, BlockKind, BlockV, Cell, DocModel, Node, NodeV, Run, RunV, Table, TextStyle,
};
use crate::nodes::{
    all_units, cell_views, cells_covered, cur_views, grid_views, node_requests, regions_reached,
    settled, sync_nodes, units_fit, CellEdit, CellV, CurNode, CurNodeV,
};
use crate::region_laws::document_reached;
use crate::request::{request_views, Request};
use crate::sync::{ParaSegment, SegmentV};
use crate::text::{ascii_digit, occurs_at, same_text, str_at, to_chars, to_text};
use vstd::prelude::*;
use vstd::slice::slice_subrange;
pub use crate::gate::unsupported_features;

verus! {

/// The number that decimal digits write.
pub open spec fn digits_value(s: Seq<char>) -> nat
    decreases s.len(),
{
    if s.len() == 0 {
        0
    } else {
        digits_value(s.drop_last()) * 10 + (s.last() as u32 - '0' as u32) as nat
    }
}

/// The digits of a number, behind a plus sign where there is one.
pub open spec fn unsigned_part(s: Seq<char>) -> Seq<char> {
    if s.len() > 0 && s[0] == '+' {
        s.skip(1)
    } else {
        s
    }
}

/// The byte-sized number that a text writes in decimal, with or without a plus sign.
pub open spec fn small_number(s: Seq<char>) -> Option<u8> {
    let t = unsigned_part(s);
    if t.len() > 0 && (forall|i: int| 0 <= i < t.len() ==> ascii_digit(#[trigger] t[i]))
        && digits_value(t) <= 255 {
        Some(digits_value(t) as u8)
    } else {
        None
    }
}

/// Digits in front only make a number greater.
proof fn lemma_digits_prefix(s: Seq<char>, i: int)
    requires
        0 <= i <= s.len(),
        forall|k: int| 0 <= k < s.len() ==> ascii_digit(#[trigger] s[k]),
    ensures
        digits_value(s.take(i)) <= digits_value(s),
    decreases s.len() - i,
{
    if i < s.len() {
        lemma_digits_prefix(s, i + 1);
        assert(s.take(i + 1).drop_last() =~= s.take(i));
        assert(ascii_digit(s[i]));
    } else {
        assert(s.take(i) =~= s);
    }
}

/// Parse a byte-sized decimal number.
fn parse_small(s: &[char]) -> (r: Option<u8>)
    ensures
        r == small_number(s@),
{
    let n: usize = s.len();
    let at: usize = if n > 0 && s[0] == '+' {
        1
    } else {
        0
    };
    let t = slice_subrange(s, at, n);
    assert(t@ =~= unsigned_part(s@));
    let m: usize = t.len();
    if m == 0 {
        return None;
    }
    let mut value: u16 = 0;
    let mut big = false;
    assert(t@.take(0) =~= Seq::<char>::empty());
    for i in 0..m
        invariant
            m == t@.len(),
            t@ == unsigned_part(s@),
            forall|k: int| 0 <= k < i ==> ascii_digit(#[trigger] t@[k]),
            value <= 255,
            !big ==> value == digits_value(t@.take(i as int)),
            big ==> exists|k: int| 0 <= k <= i && digits_value(#[trigger] t@.take(k)) > 255,
    {
        let c = t[i];
        if !('0' <= c && c <= '9') {
            assert(!ascii_digit(t@[i as int]));
            return None;
        }
        let d: u32 = c as u32 - '0' as u32;
        let next: u32 = value as u32 * 10 + d;
        proof {
            assert(t@.take(i + 1).drop_last() =~= t@.take(i as int));
            if big {
                let k = choose|k: int| 0 <= k <= i && digits_value(#[trigger] t@.take(k)) > 255;
                assert(0 <= k <= i + 1 && digits_value(t@.take(k)) > 255);
            } else {
                assert(digits_value(t@.take(i + 1)) == next);
            }
        }
        if next > 255 {
            big = true;
        } else if !big {
            value = next as u16;
        }
    }
    assert(t@.take(m as int) =~= t@);
    if big {
        proof {
            let k = choose|k: int| 0 <= k <= m && digits_value(#[trigger] t@.take(k)) > 255;
            lemma_digits_prefix(t@, k);
        }
        None
    } else {
        Some(value as u8)
    }
}

// ---------------------------------------------------------------------------
// Runs
// ---------------------------------------------------------------------------

/// The descriptor of an inline object element, where it is one that the model holds.
/// Each takes up one document index.
pub open spec fn descriptor(e: JsonV) -> Option<Seq<char>> {
    let o = Some(e);
    if let Some(id) = text_of(dig(dig(o, "inlineObjectElement"@), "inlineObjectId"@)) {
        Some("image/"@ + id)
    } else if let Some(id) = text_of(dig(dig(o, "footnoteReference"@), "footnoteId"@)) {
        Some("footnote/"@ + id)
    } else if has_member(e, "pageBreak"@) {
        Some("pagebreak"@)
    } else if has_member(e, "columnBreak"@) {
        Some("columnbreak"@)
    } else if has_member(e, "autoText"@) {
        Some("autotext"@)
    } else {
        None
    }
}

/// The style that a text style value describes; what is not there is off.
pub open spec fn style_of(ts: Option<JsonV>) -> TextStyle {
    TextStyle {
        bold: is_true(dig(ts, "bold"@)),
        italic: is_true(dig(ts, "italic"@)),
        strikethrough: is_true(dig(ts, "strikethrough"@)),
    }
}

/// A text without the line feed at its end.
pub open spec fn chomp(s: Seq<char>) -> Seq<char> {
    if s.len() > 0 && s.last() == '\n' {
        s.drop_last()
    } else {
        s
    }
}

/// The run of a paragraph element: an object, or text that is not empty without the
/// paragraph's line feed.
pub open spec fn element_run(e: JsonV) -> Option<RunV> {
    let text_run = dig(Some(e), "textRun"@);
    let ts = dig(text_run, "textStyle"@);
    if let Some(desc) = descriptor(e) {
        Some(object_run(desc))
    } else if let Some(content) = text_of(dig(text_run, "content"@)) {
        if chomp(content).len() == 0 {
            None
        } else {
            Some(
                RunV {
                    text: chomp(content),
                    style: style_of(ts),
                    link: text_of(dig(dig(ts, "link"@), "url"@)),
                    object: None,
                },
            )
        }
    } else {
        None
    }
}

/// The runs of the first `n` paragraph elements.
pub open spec fn element_runs(es: Seq<JsonV>, n: int) -> Seq<RunV>
    decreases n,
{
    if n <= 0 {
        Seq::empty()
    } else {
        match element_run(es[n - 1]) {
            Some(r) => element_runs(es, n - 1).push(r),
            None => element_runs(es, n - 1),
        }
    }
}

/// The runs of a paragraph.
pub open spec fn paragraph_runs(p: Option<JsonV>) -> Seq<RunV> {
    let es = items(dig(p, "elements"@));
    normalized(element_runs(es, es.len() as int))
}

/// The text `prefix` and then `id`.
fn prefixed(prefix: &str, id: &str) -> (r: String)
    ensures
        r@ == prefix@ + id@,
{
    let mut s = prefix.to_owned();
    s.append(id);
    s
}

/// The descriptor of an inline object element (an image, page break, footnote, column
/// break or page-number field); `None` for anything else.
pub fn inline_object_descriptor(e: &Json) -> (r: Option<String>)
    ensures
        match r {
            Some(d) => descriptor(e@) == Some(d@),
            None => descriptor(e@) is None,
        },
{
    if let Some(id) = str_of(dig_into(e.get("inlineObjectElement"), "inlineObjectId")) {
        return Some(prefixed("image/", id));
    }
    if let Some(id) = str_of(dig_into(e.get("footnoteReference"), "footnoteId")) {
        return Some(prefixed("footnote/", id));
    }
    if e.get("pageBreak").is_some() {
        return Some("pagebreak".to_owned());
    }
    if e.get("columnBreak").is_some() {
        return Some("columnbreak".to_owned());
    }
    if e.get("autoText").is_some() {
        return Some("autotext".to_owned());
    }
    None
}

/// Read a text style. Absent fields are off.
pub fn text_style(ts: Option<&Json>) -> (r: TextStyle)
    ensures
        r == style_of(opt_json(ts)),
{
    TextStyle {
        bold: true_of(dig_into(ts, "bold")),
        italic: true_of(dig_into(ts, "italic")),
        strikethrough: true_of(dig_into(ts, "strikethrough")),
    }
}

/// The run of a paragraph element.
fn read_element(e: &Json) -> (r: Option<Run>)
    ensures
        match r {
            Some(run) => element_run(e@) == Some(run@),
            None => element_run(e@) is None,
        },
{
    if let Some(desc) = inline_object_descriptor(e) {
        return Some(Run::object(desc.as_str()));
    }
    let text_run = e.get("textRun");
    let content = match str_of(dig_into(text_run, "content")) {
        Some(c) => c,
        None => return None,
    };
    let cs = to_chars(content);
    let n: usize = cs.len();
    let m: usize = if n > 0 && cs[n - 1] == '\n' {
        n - 1
    } else {
        n
    };
    if m == 0 {
        return None;
    }
    let ts = dig_into(text_run, "textStyle");
    let link = match str_of(dig_into(dig_into(ts, "link"), "url")) {
        Some(u) => Some(u.to_owned()),
        None => None,
    };
    let body = slice_subrange(cs.as_slice(), 0, m);
    assert(body@ =~= chomp(content@));
    let run = Run { text: to_text(body), style: text_style(ts), link, object: None };
    assert(element_run(e@) == Some(run@));
    Some(run)
}

/// Extract the styled runs of a paragraph: text with marks and links, and inline
/// objects.
pub fn read_runs(p: Option<&Json>) -> (r: Vec<Run>)
    ensures
        run_views(r@) == paragraph_runs(opt_json(p)),
{
    let mut runs: Vec<Run> = Vec::new();
    let elements = array_of(dig_into(p, "elements"));
    let ghost es = items(dig(opt_json(p), "elements"@));
    assert(run_views(runs@) =~= Seq::<RunV>::empty());
    if let Some(v) = elements {
        let n: usize = v.len();
        for i in 0..n
            invariant
                n == v@.len(),
                es == json_views(v@),
                run_views(runs@) == element_runs(es, i as int),
        {
            let ghost before = run_views(runs@);
            assert(es[i as int] == v@[i as int]@);
            if let Some(run) = read_element(&v[i]) {
                runs.push(run);
                assert(run_views(runs@) =~= before.push(run@));
            }
        }
    }
    normalize_runs(runs)
}

// ---------------------------------------------------------------------------
// Paragraphs and tables
// ---------------------------------------------------------------------------

/// The paragraph is a horizontal rule: one of its elements is.
pub open spec fn rule_paragraph(p: JsonV) -> bool {
    let es = items(get_field(p, "elements"@));
    exists|i: int| 0 <= i < es.len() && has_member(#[trigger] es[i], "horizontalRule"@)
}

/// The kind of a list item, by the glyph of its list at its nesting level: a glyph type
/// is a number, a glyph symbol a bullet, and neither a checkbox.
pub open spec fn list_kind_at(doc: JsonV, bullet: JsonV) -> BlockKind {
    let id = match text_of(get_field(bullet, "listId"@)) {
        Some(s) => s,
        None => Seq::empty(),
    };
    let level = match number_of(get_field(bullet, "nestingLevel"@)) {
        Some(n) => n,
        None => 0,
    };
    let nesting = item_at(
        dig(dig(dig(get_field(doc, "lists"@), id), "listProperties"@), "nestingLevels"@),
        level as int,
    );
    let glyph = text_of(dig(nesting, "glyphType"@));
    if glyph is Some && glyph != Some("GLYPH_TYPE_UNSPECIFIED"@) {
        BlockKind::Number
    } else if text_of(dig(nesting, "glyphSymbol"@)) is Some {
        BlockKind::Bullet
    } else {
        BlockKind::Checkbox
    }
}

/// The kind that a named style stands for.
pub open spec fn named_kind(named: Seq<char>) -> BlockKind {
    let prefix = "HEADING_"@;
    if occurs_at(named, prefix, 0) {
        match small_number(named.skip(prefix.len() as int)) {
            Some(n) => BlockKind::Heading(n),
            None => BlockKind::Normal,
        }
    } else {
        BlockKind::Normal
    }
}

/// The block of a paragraph. A list item's level is a byte.
pub open spec fn paragraph_block(p: JsonV, doc: JsonV) -> BlockV {
    let runs = paragraph_runs(Some(p));
    match get_field(p, "bullet"@) {
        Some(bullet) => BlockV {
            kind: list_kind_at(doc, bullet),
            depth: match number_of(get_field(bullet, "nestingLevel"@)) {
                Some(n) => (n % 256) as u8,
                None => 0,
            },
            runs,
        },
        None => BlockV {
            kind: match text_of(dig(get_field(p, "paragraphStyle"@), "namedStyleType"@)) {
                Some(named) => named_kind(named),
                None => BlockKind::Normal,
            },
            depth: 0,
            runs,
        },
    }
}

/// The paragraph of a cell: the first of its content.
pub open spec fn cell_content(cell: JsonV) -> Option<JsonV> {
    item_at(get_field(cell, "content"@), 0)
}

/// The cells of a row.
pub open spec fn row_items(row: JsonV) -> Seq<JsonV> {
    items(get_field(row, "tableCells"@))
}

/// What the cells of a row hold.
pub open spec fn row_runs(row: JsonV) -> Seq<Seq<RunV>> {
    Seq::new(
        row_items(row).len(),
        |i: int| paragraph_runs(dig(cell_content(row_items(row)[i]), "paragraph"@)),
    )
}

/// The rows of a table.
pub open spec fn table_items(table: Option<JsonV>) -> Seq<JsonV> {
    items(dig(table, "tableRows"@))
}

/// What the cells of a table hold.
pub open spec fn table_runs(table: Option<JsonV>) -> Seq<Seq<Seq<RunV>>> {
    Seq::new(table_items(table).len(), |i: int| row_runs(table_items(table)[i]))
}

/// The node of a structural element, where it is one that the model holds.
pub open spec fn element_node(el: JsonV, doc: JsonV) -> Option<NodeV> {
    if let Some(p) = get_field(el, "paragraph"@) {
        if rule_paragraph(p) {
            Some(NodeV::Rule)
        } else {
            Some(NodeV::Para(paragraph_block(p, doc)))
        }
    } else if let Some(t) = get_field(el, "table"@) {
        Some(NodeV::Table(table_runs(Some(t))))
    } else if has_member(el, "tableOfContents"@) {
        Some(NodeV::Toc)
    } else {
        None
    }
}

/// The nodes of the first `n` structural elements.
pub open spec fn element_nodes(els: Seq<JsonV>, doc: JsonV, n: int) -> Seq<NodeV>
    decreases n,
{
    if n <= 0 {
        Seq::empty()
    } else {
        match element_node(els[n - 1], doc) {
            Some(node) => element_nodes(els, doc, n - 1).push(node),
            None => element_nodes(els, doc, n - 1),
        }
    }
}

/// The structural elements of a document.
pub open spec fn body_content(doc: JsonV) -> Seq<JsonV> {
    items(dig(get_field(doc, "body"@), "content"@))
}

/// The model of a document.
pub open spec fn document_model(doc: JsonV) -> Seq<NodeV> {
    let els = body_content(doc);
    element_nodes(els, doc, els.len() as int)
}

/// Whether a paragraph is a horizontal rule.
pub fn is_rule_paragraph(p: &Json) -> (r: bool)
    ensures
        r == rule_paragraph(p@),
{
    let ghost es = items(get_field(p@, "elements"@));
    match array_of(p.get("elements")) {
        Some(v) => {
            let n: usize = v.len();
            for i in 0..n
                invariant
                    n == v@.len(),
                    es == json_views(v@),
                    es == items(get_field(p@, "elements"@)),
                    forall|k: int| 0 <= k < i ==> !has_member(#[trigger] es[k], "horizontalRule"@),
            {
                assert(es[i as int] == v@[i as int]@);
                if v[i].get("horizontalRule").is_some() {
                    assert(has_member(es[i as int], "horizontalRule"@));
                    return true;
                }
            }
            false
        },
        None => false,
    }
}

/// Classify a list item by looking up its list's glyph at its nesting level.
pub fn list_kind(doc: &Json, bullet: &Json) -> (r: BlockKind)
    ensures
        r == list_kind_at(doc@, bullet@),
{
    let id = match str_of(bullet.get("listId")) {
        Some(s) => s,
        None => "",
    };
    proof {
        reveal_strlit("");
        assert(""@ =~= Seq::<char>::empty());
    }
    let level: u64 = match u64_of(bullet.get("nestingLevel")) {
        Some(n) => n,
        None => 0,
    };
    let levels = dig_into(
        dig_into(dig_into(doc.get("lists"), id), "listProperties"),
        "nestingLevels",
    );
    let nesting = item_of(levels, level);
    if let Some(glyph) = str_of(dig_into(nesting, "glyphType")) {
        if !same_text(glyph, "GLYPH_TYPE_UNSPECIFIED") {
            return BlockKind::Number;
        }
    }
    if str_of(dig_into(nesting, "glyphSymbol")).is_some() {
        BlockKind::Bullet
    } else {
        BlockKind::Checkbox
    }
}

/// The kind that a named style stands for.
fn kind_of_name(named: &str) -> (r: BlockKind)
    ensures
        r == named_kind(named@),
{
    let cs = to_chars(named);
    let n: usize = cs.len();
    proof {
        reveal_strlit("HEADING_");
    }
    if str_at(cs.as_slice(), "HEADING_", 0) {
        let rest = slice_subrange(cs.as_slice(), 8, n);
        assert(rest@ =~= named@.skip(8));
        match parse_small(rest) {
            Some(level) => BlockKind::Heading(level),
            None => BlockKind::Normal,
        }
    } else {
        BlockKind::Normal
    }
}

/// Convert a paragraph to a block: its kind, level and runs.
pub fn para_block(p: &Json, doc: &Json) -> (r: Block)
    ensures
        r@ == paragraph_block(p@, doc@),
{
    let runs = read_runs(Some(p));
    match p.get("bullet") {
        Some(bullet) => {
            let depth: u8 = match u64_of(bullet.get("nestingLevel")) {
                Some(n) => (n % 256) as u8,
                None => 0,
            };
            Block { kind: list_kind(doc, bullet), depth, runs }
        },
        None => {
            let kind = match str_of(dig_into(p.get("paragraphStyle"), "namedStyleType")) {
                Some(named) => kind_of_name(named),
                None => BlockKind::Normal,
            };
            Block { kind, depth: 0, runs }
        },
    }
}

/// The cells of a row.
fn read_row(row: &Json) -> (r: Vec<Cell>)
    ensures
        row_view(r@) == row_runs(row@),
{
    let mut cells: Vec<Cell> = Vec::new();
    let ghost cs = row_items(row@);
    if let Some(v) = array_of(row.get("tableCells")) {
        let n: usize = v.len();
        for i in 0..n
            invariant
                n == v@.len(),
                cs == json_views(v@),
                cs == row_items(row@),
                cells@.len() == i,
                forall|k: int|
                    0 <= k < i ==> run_views(#[trigger] cells@[k]@) == row_runs(row@)[k],
        {
            assert(cs[i as int] == v@[i as int]@);
            cells.push(read_runs(dig_into(item_of(v[i].get("content"), 0), "paragraph")));
        }
    }
    assert(row_view(cells@) =~= row_runs(row@));
    cells
}

/// Read a table. A cell holds its first paragraph's runs.
pub fn read_table(table: Option<&Json>) -> (r: Table)
    ensures
        r@ == table_runs(opt_json(table)),
{
    let mut rows: Vec<Vec<Cell>> = Vec::new();
    let ghost rs = table_items(opt_json(table));
    if let Some(v) = array_of(dig_into(table, "tableRows")) {
        let n: usize = v.len();
        for i in 0..n
            invariant
                n == v@.len(),
                rs == json_views(v@),
                rs == table_items(opt_json(table)),
                rows@.len() == i,
                forall|k: int|
                    0 <= k < i ==> row_view(#[trigger] rows@[k]@) == table_runs(
                        opt_json(table),
                    )[k],
        {
            assert(rs[i as int] == v@[i as int]@);
            rows.push(read_row(&v[i]));
        }
    }
    assert(rows_view(rows@) =~= table_runs(opt_json(table)));
    Table { rows }
}

/// The node of a structural element.
fn read_node(el: &Json, doc: &Json) -> (r: Option<Node>)
    ensures
        match r {
            Some(node) => element_node(el@, doc@) == Some(node@),
            None => element_node(el@, doc@) is None,
        },
{
    if let Some(p) = el.get("paragraph") {
        if is_rule_paragraph(p) {
            return Some(Node::Rule);
        }
        return Some(Node::Para(para_block(p, doc)));
    }
    let table = el.get("table");
    if table.is_some() {
        return Some(Node::Table(read_table(table)));
    }
    if el.get("tableOfContents").is_some() {
        return Some(Node::Toc);
    }
    None
}

/// Convert the JSON of a document to the model. A paragraph with a `bullet` is a list
/// item; headings come from the named style; everything else is normal text.
pub fn document_to_model(doc: &Json) -> (r: DocModel)
    ensures
        node_views(r@) == document_model(doc@),
{
    let mut nodes: Vec<Node> = Vec::new();
    let ghost els = body_content(doc@);
    assert(node_views(nodes@) =~= Seq::<NodeV>::empty());
    if let Some(v) = array_of(dig_into(doc.get("body"), "content")) {
        let n: usize = v.len();
        for i in 0..n
            invariant
                n == v@.len(),
                els == json_views(v@),
                node_views(nodes@) == element_nodes(els, doc@, i as int),
        {
            let ghost before = node_views(nodes@);
            assert(els[i as int] == v@[i as int]@);
            if let Some(node) = read_node(&v[i], doc) {
                nodes.push(node);
                assert(node_views(nodes@) =~= before.push(node@));
            }
        }
    }
    nodes
}

// ---------------------------------------------------------------------------
// Positioned nodes
// ---------------------------------------------------------------------------

/// The index in a member, or `default` where there is none.
pub open spec fn index_in(el: JsonV, name: Seq<char>, default: usize) -> usize {
    match number_of(get_field(el, name)) {
        Some(n) => n as usize,
        None => default,
    }
}

/// Where a structural element starts.
pub open spec fn start_of(el: JsonV) -> usize {
    index_in(el, "startIndex"@, 1)
}

/// Where a structural element ends.
pub open spec fn end_of(el: JsonV) -> usize {
    index_in(el, "endIndex"@, start_of(el))
}

/// A table cell with its position: where its first paragraph starts.
pub open spec fn placed_cell(cell: JsonV) -> CellV {
    let content = cell_content(cell);
    CellV {
        start: match number_of(dig(content, "startIndex"@)) {
            Some(n) => n as usize as int,
            None => 0,
        },
        runs: paragraph_runs(dig(content, "paragraph"@)),
    }
}

/// The cells of a table with their positions.
pub open spec fn placed_table(table: JsonV) -> Seq<Seq<CellV>> {
    let rows = table_items(Some(table));
    Seq::new(
        rows.len(),
        |i: int|
            Seq::new(row_items(rows[i]).len(), |j: int| placed_cell(row_items(rows[i])[j])),
    )
}

/// Nodes read so far, and the paragraphs behind the last barrier with where they start.
#[verifier::ext_equal]
pub struct Reading {
    pub nodes: Seq<CurNodeV>,
    pub blocks: Seq<BlockV>,
    pub start: Option<int>,
}

/// The paragraphs behind the last barrier as a node; where there are none, it starts at
/// `default`.
pub open spec fn open_segment(r: Reading, default: int) -> CurNodeV {
    CurNodeV::Paras(
        SegmentV {
            start: match r.start {
                Some(s) => s,
                None => default,
            },
            blocks: r.blocks,
        },
    )
}

/// The reading after a barrier that starts at `default`.
pub open spec fn read_barrier(r: Reading, default: int, barrier: CurNodeV) -> Reading {
    Reading {
        nodes: r.nodes.push(open_segment(r, default)).push(barrier),
        blocks: Seq::empty(),
        start: None,
    }
}

/// The reading after one more structural element.
pub open spec fn read_more(r: Reading, el: JsonV, doc: JsonV) -> Reading {
    let start = start_of(el) as int;
    let end = end_of(el) as int;
    if let Some(p) = get_field(el, "paragraph"@) {
        if rule_paragraph(p) {
            read_barrier(r, start, CurNodeV::Rule { start, end })
        } else {
            Reading {
                nodes: r.nodes,
                blocks: r.blocks.push(paragraph_block(p, doc)),
                start: if r.start is Some {
                    r.start
                } else {
                    Some(start)
                },
            }
        }
    } else if let Some(t) = get_field(el, "table"@) {
        read_barrier(r, start, CurNodeV::Table { start, end, cells: placed_table(t) })
    } else if has_member(el, "tableOfContents"@) {
        read_barrier(r, start, CurNodeV::Toc { start, end })
    } else {
        r
    }
}

/// The reading after the first `n` structural elements.
pub open spec fn reading(els: Seq<JsonV>, doc: JsonV, n: int) -> Reading
    decreases n,
{
    if n <= 0 {
        Reading { nodes: Seq::empty(), blocks: Seq::empty(), start: None }
    } else {
        read_more(reading(els, doc, n - 1), els[n - 1], doc)
    }
}

/// The positioned nodes of a document.
pub open spec fn document_nodes(doc: JsonV) -> Seq<CurNodeV> {
    let els = body_content(doc);
    let r = reading(els, doc, els.len() as int);
    r.nodes.push(open_segment(r, 1))
}

/// The index in a member, or `default` where there is none.
fn read_index(el: &Json, name: &str, default: usize) -> (r: usize)
    ensures
        r == index_in(el@, name@, default),
{
    match u64_of(el.get(name)) {
        Some(n) => n as usize,
        None => default,
    }
}

/// The cells of a row with their positions.
fn read_placed_row(row: &Json) -> (r: Vec<CellEdit>)
    ensures
        cell_views(r@) == Seq::new(
            row_items(row@).len(),
            |j: int| placed_cell(row_items(row@)[j]),
        ),
{
    let mut cells: Vec<CellEdit> = Vec::new();
    let ghost cs = row_items(row@);
    if let Some(v) = array_of(row.get("tableCells")) {
        let n: usize = v.len();
        for i in 0..n
            invariant
                n == v@.len(),
                cs == json_views(v@),
                cells@.len() == i,
                forall|k: int| 0 <= k < i ==> (#[trigger] cells@[k])@ == placed_cell(cs[k]),
        {
            assert(cs[i as int] == v@[i as int]@);
            let content = item_of(v[i].get("content"), 0);
            let start_index: usize = match u64_of(dig_into(content, "startIndex")) {
                Some(n) => n as usize,
                None => 0,
            };
            cells.push(
                CellEdit { start_index, runs: read_runs(dig_into(content, "paragraph")) },
            );
        }
    }
    assert(cell_views(cells@) =~= Seq::new(cs.len(), |j: int| placed_cell(cs[j])));
    cells
}

/// The cells of a table with their positions.
fn read_placed_table(table: &Json) -> (r: Vec<Vec<CellEdit>>)
    ensures
        grid_views(r@) == placed_table(table@),
{
    let mut rows: Vec<Vec<CellEdit>> = Vec::new();
    let ghost rs = table_items(Some(table@));
    if let Some(v) = array_of(table.get("tableRows")) {
        let n: usize = v.len();
        for i in 0..n
            invariant
                n == v@.len(),
                rs == json_views(v@),
                rs == table_items(Some(table@)),
                rows@.len() == i,
                forall|k: int|
                    0 <= k < i ==> cell_views(#[trigger] rows@[k]@) == placed_table(table@)[k],
        {
            assert(rs[i as int] == v@[i as int]@);
            rows.push(read_placed_row(&v[i]));
        }
    }
    assert(grid_views(rows@) =~= placed_table(table@));
    rows
}

/// Close the paragraphs behind the last barrier and append the barrier.
fn push_barrier(
    nodes: &mut Vec<CurNode>,
    blocks: Vec<Block>,
    start: Option<usize>,
    default: usize,
    barrier: CurNode,
)
    ensures
        cur_views(final(nodes)@) == cur_views(old(nodes)@).push(
            CurNodeV::Paras(
                SegmentV {
                    start: match start {
                        Some(s) => s as int,
                        None => default as int,
                    },
                    blocks: block_views(blocks@),
                },
            ),
        ).push(barrier@),
{
    let ghost before = cur_views(nodes@);
    let start_index: usize = match start {
        Some(s) => s,
        None => default,
    };
    let seg = ParaSegment { start_index, blocks };
    nodes.push(CurNode::Paras(seg));
    nodes.push(barrier);
    assert(cur_views(nodes@) =~= before.push(CurNodeV::Paras(seg@)).push(barrier@));
}

/// Split a document into positioned nodes: paragraph segments with where they start, and
/// barriers, tables with where each cell's paragraph starts. The last node is always a
/// segment.
pub fn current_nodes(doc: &Json) -> (r: Vec<CurNode>)
    ensures
        cur_views(r@) == document_nodes(doc@),
{
    let mut nodes: Vec<CurNode> = Vec::new();
    let mut blocks: Vec<Block> = Vec::new();
    let mut start: Option<usize> = None;
    let ghost els = body_content(doc@);
    assert(cur_views(nodes@) =~= Seq::<CurNodeV>::empty());
    assert(block_views(blocks@) =~= Seq::<BlockV>::empty());
    if let Some(v) = array_of(dig_into(doc.get("body"), "content")) {
        let n: usize = v.len();
        for i in 0..n
            invariant
                n == v@.len(),
                els == json_views(v@),
                reading(els, doc@, i as int) == (Reading {
                    nodes: cur_views(nodes@),
                    blocks: block_views(blocks@),
                    start: opt_index(start),
                }),
        {
            let el = &v[i];
            let ghost was = reading(els, doc@, i as int);
            assert(els[i as int] == el@);
            assert(reading(els, doc@, i + 1) == read_more(was, el@, doc@));
            let el_start: usize = read_index(el, "startIndex", 1);
            let el_end: usize = read_index(el, "endIndex", el_start);
            if let Some(p) = el.get("paragraph") {
                if is_rule_paragraph(p) {
                    push_barrier(
                        &mut nodes,
                        blocks,
                        start,
                        el_start,
                        CurNode::Rule { start_index: el_start, end_index: el_end },
                    );
                    blocks = Vec::new();
                    start = None;
                    assert(block_views(blocks@) =~= Seq::<BlockV>::empty());
                } else {
                    if start.is_none() {
                        start = Some(el_start);
                    }
                    let b = para_block(p, doc);
                    blocks.push(b);
                    assert(block_views(blocks@) =~= was.blocks.push(b@));
                }
            } else if let Some(t) = el.get("table") {
                let cells = read_placed_table(t);
                push_barrier(
                    &mut nodes,
                    blocks,
                    start,
                    el_start,
                    CurNode::Table { start_index: el_start, end_index: el_end, cells },
                );
                blocks = Vec::new();
                start = None;
                assert(block_views(blocks@) =~= Seq::<BlockV>::empty());
            } else if el.get("tableOfContents").is_some() {
                push_barrier(
                    &mut nodes,
                    blocks,
                    start,
                    el_start,
                    CurNode::Toc { start_index: el_start, end_index: el_end },
                );
                blocks = Vec::new();
                start = None;
                assert(block_views(blocks@) =~= Seq::<BlockV>::empty());
            }
        }
    }
    let ghost before = cur_views(nodes@);
    let start_index: usize = match start {
        Some(s) => s,
        None => 1,
    };
    let seg = ParaSegment { start_index, blocks };
    nodes.push(CurNode::Paras(seg));
    assert(cur_views(nodes@) =~= before.push(CurNodeV::Paras(seg@)));
    nodes
}

/// An optional index as an integer.
pub open spec fn opt_index(o: Option<usize>) -> Option<int> {
    match o {
        Some(i) => Some(i as int),
        None => None,
    }
}

/// Sync a document to a model by its own indices: the edits of paragraphs and table
/// cells where they stand.
pub fn sync_doc(doc: &Json, desired: &DocModel) -> (r: Vec<Request>)
    requires
        cells_covered(document_nodes(doc@), node_views(desired@)),
        units_fit(all_units(document_nodes(doc@), node_views(desired@))),
    ensures
        request_views(r@) == node_requests(document_nodes(doc@), node_views(desired@)),
        settled(all_units(document_nodes(doc@), node_views(desired@))) ==> r@.len() == 0,
        regions_reached(all_units(document_nodes(doc@), node_views(desired@))),
        document_reached(document_nodes(doc@), node_views(desired@)),
{
    let nodes = current_nodes(doc);
    sync_nodes(nodes.as_slice(), desired)
}

} // verus!
