//! Where the parts of a document stand: the positioned nodes hold the model, at the places
//! that the document gives.
use crate::api::{
    body_content, cell_content, document_model, document_nodes, element_node, element_nodes, end_of,
    open_segment, paragraph_block, paragraph_runs, placed_table, read_barrier, reading, row_items,
    rule_paragraph, start_of, table_items, table_runs, Reading,
};
use crate::blocks::{lemma_para_start, para_start};
use crate::gate_laws::spans;
use crate::json::{dig, get_field, has_member, number_of, JsonV};
use crate::model::{BlockV, NodeV, RunV};
use crate::nodes::{CellV, CurNodeV};
use crate::sync::{blocks_plain, lemma_plain_len};
use crate::text::utf16_len;
use crate::text_laws::{lemma_utf16_add, lemma_utf16_length, utf16};
use vstd::prelude::*;

verus! {

// ---------------------------------------------------------------------------
// What the nodes hold
// ---------------------------------------------------------------------------

/// The paragraphs as nodes of a model.
pub open spec fn paras(blocks: Seq<BlockV>) -> Seq<NodeV> {
    Seq::new(blocks.len(), |i: int| NodeV::Para(blocks[i]))
}

/// The runs of the cells, without their places.
pub open spec fn without_places(cells: Seq<Seq<CellV>>) -> Seq<Seq<Seq<RunV>>> {
    Seq::new(cells.len(), |i: int| Seq::new(cells[i].len(), |j: int| cells[i][j].runs))
}

/// What a positioned node holds.
pub open spec fn held_by(n: CurNodeV) -> Seq<NodeV> {
    match n {
        CurNodeV::Paras(seg) => paras(seg.blocks),
        CurNodeV::Table { cells, .. } => seq![NodeV::Table(without_places(cells))],
        CurNodeV::Rule { .. } => seq![NodeV::Rule],
        CurNodeV::Toc { .. } => seq![NodeV::Toc],
    }
}

/// What positioned nodes hold, one after the other.
pub open spec fn held(ns: Seq<CurNodeV>) -> Seq<NodeV>
    decreases ns.len(),
{
    if ns.len() == 0 {
        Seq::empty()
    } else {
        held(ns.drop_last()) + held_by(ns.last())
    }
}

proof fn lemma_barrier_held(r: Reading, at: int, barrier: CurNodeV)
    ensures
        held(read_barrier(r, at, barrier).nodes) == held(r.nodes) + paras(r.blocks) + held_by(
            barrier,
        ),
{
    let mid = r.nodes.push(open_segment(r, at));
    let all = mid.push(barrier);
    assert(all.drop_last() =~= mid);
    assert(mid.drop_last() =~= r.nodes);
    assert(held(mid) == held(r.nodes) + held_by(mid.last()));
    assert(held(all) == held(mid) + held_by(all.last()));
}

proof fn lemma_table_held(t: JsonV)
    ensures
        without_places(placed_table(t)) == table_runs(Some(t)),
{
    let a = without_places(placed_table(t));
    let b = table_runs(Some(t));
    assert forall|i: int| 0 <= i < a.len() implies a[i] == b[i] by {
        assert(a[i] =~= b[i]);
    }
    assert(a =~= b);
}

proof fn lemma_reading_held(els: Seq<JsonV>, doc: JsonV, n: int)
    requires
        0 <= n <= els.len(),
    ensures
        ({
            let r = reading(els, doc, n);
            held(r.nodes) + paras(r.blocks) == element_nodes(els, doc, n)
        }),
    decreases n,
{
    if n > 0 {
        lemma_reading_held(els, doc, n - 1);
        let before = reading(els, doc, n - 1);
        let after = reading(els, doc, n);
        let el = els[n - 1];
        let was = held(before.nodes) + paras(before.blocks);
        match get_field(el, "paragraph"@) {
            Some(p) => {
                if rule_paragraph(p) {
                    lemma_barrier_held(
                        before,
                        start_of(el) as int,
                        CurNodeV::Rule {
                            start: start_of(el) as int,
                            end: end_of(el) as int,
                        },
                    );
                    assert(held(after.nodes) + paras(after.blocks) =~= was.push(NodeV::Rule));
                } else {
                    assert(held(after.nodes) + paras(after.blocks) =~= was.push(
                        NodeV::Para(paragraph_block(p, doc)),
                    ));
                }
            },
            None => {
                match get_field(el, "table"@) {
                    Some(t) => {
                        lemma_table_held(t);
                        lemma_barrier_held(
                            before,
                            start_of(el) as int,
                            CurNodeV::Table {
                                start: start_of(el) as int,
                                end: end_of(el) as int,
                                cells: placed_table(t),
                            },
                        );
                        assert(held(after.nodes) + paras(after.blocks) =~= was.push(
                            NodeV::Table(table_runs(Some(t))),
                        ));
                    },
                    None => {
                        if has_member(el, "tableOfContents"@) {
                            lemma_barrier_held(
                                before,
                                start_of(el) as int,
                                CurNodeV::Toc {
                                    start: start_of(el) as int,
                                    end: end_of(el) as int,
                                },
                            );
                            assert(held(after.nodes) + paras(after.blocks) =~= was.push(
                                NodeV::Toc,
                            ));
                        }
                    },
                }
            },
        }
    } else {
        let r = reading(els, doc, 0);
        assert(held(r.nodes) + paras(r.blocks) =~= Seq::<NodeV>::empty());
    }
}

/// The positioned nodes of a document hold its model.
pub proof fn law_nodes_hold_model(doc: JsonV)
    ensures
        held(document_nodes(doc)) == document_model(doc),
{
    let els = body_content(doc);
    let r = reading(els, doc, els.len() as int);
    lemma_reading_held(els, doc, els.len() as int);
    assert(document_nodes(doc).drop_last() =~= r.nodes);
}

// ---------------------------------------------------------------------------
// Where they stand
// ---------------------------------------------------------------------------

/// The nodes that are read stay as they are when more is read.
proof fn lemma_nodes_stay(els: Seq<JsonV>, doc: JsonV, m: int, n: int, q: int)
    requires
        0 <= m <= n <= els.len(),
        0 <= q < reading(els, doc, m).nodes.len(),
    ensures
        q < reading(els, doc, n).nodes.len(),
        reading(els, doc, n).nodes[q] == reading(els, doc, m).nodes[q],
    decreases n,
{
    if m < n {
        lemma_nodes_stay(els, doc, m, n - 1, q);
    }
}

proof fn lemma_barrier_there(doc: JsonV, i: int, barrier: CurNodeV)
    requires
        0 <= i < body_content(doc).len(),
        reading(body_content(doc), doc, i + 1).nodes.len() > 0,
        reading(body_content(doc), doc, i + 1).nodes.last() == barrier,
    ensures
        document_nodes(doc).contains(barrier),
{
    let els = body_content(doc);
    let r = reading(els, doc, i + 1);
    let q = r.nodes.len() - 1;
    lemma_nodes_stay(els, doc, i + 1, els.len() as int, q);
    assert(document_nodes(doc)[q] == barrier);
}

/// A table, a rule and a table of contents stand at the indices that the document gives.
pub proof fn law_barrier_places(doc: JsonV, i: int, start: int, end: int)
    requires
        0 <= i < body_content(doc).len(),
        spans(body_content(doc)[i], start, end),
        start <= usize::MAX,
        end <= usize::MAX,
    ensures
        ({
            let el = body_content(doc)[i];
            match element_node(el, doc) {
                Some(NodeV::Rule) => document_nodes(doc).contains(CurNodeV::Rule { start, end }),
                Some(NodeV::Toc) => document_nodes(doc).contains(CurNodeV::Toc { start, end }),
                Some(NodeV::Table(_)) => document_nodes(doc).contains(
                    CurNodeV::Table { start, end, cells: placed_table(get_field(el, "table"@)->0) },
                ),
                _ => true,
            }
        }),
{
    let els = body_content(doc);
    let el = els[i];
    let r = reading(els, doc, i + 1);
    match element_node(el, doc) {
        Some(NodeV::Para(_)) => {},
        Some(_) => {
            lemma_barrier_there(doc, i, r.nodes.last());
        },
        None => {},
    }
}

/// A structural element without a start stands at the first index, and one without an end
/// takes up nothing.
pub proof fn law_places_left_out(el: JsonV)
    ensures
        get_field(el, "startIndex"@) is None ==> start_of(el) == 1,
        get_field(el, "endIndex"@) is None ==> end_of(el) == start_of(el),
{
}

/// A cell stands where its first paragraph starts.
pub proof fn law_cell_places(table: JsonV, i: int, j: int)
    requires
        0 <= i < table_items(Some(table)).len(),
        0 <= j < row_items(table_items(Some(table))[i]).len(),
    ensures
        ({
            let first = cell_content(row_items(table_items(Some(table))[i])[j]);
            let cell = placed_table(table)[i][j];
            &&& number_of(dig(first, "startIndex"@)) matches Some(n) ==> (n <= usize::MAX
                ==> cell.start == n)
            &&& cell.runs == paragraph_runs(dig(first, "paragraph"@))
        }),
{
}

/// The document has this text: every paragraph that is no rule has its text, with the line
/// feed at its end, between its indices.
pub open spec fn shows_text(doc: JsonV, text: Seq<u16>, at: Seq<int>) -> bool {
    let els = body_content(doc);
    &&& at.len() == els.len() + 1
    &&& forall|i: int|
        0 <= i < els.len() && has_member(#[trigger] els[i], "paragraph"@) && !rule_paragraph(
            get_field(els[i], "paragraph"@)->0,
        ) ==> 1 <= at[i] <= at[i + 1] <= text.len() + 1 && at[i] <= usize::MAX && spans(
            els[i],
            at[i],
            at[i + 1],
        ) && text.subrange(at[i] - 1, at[i + 1] - 1) == utf16(
            paragraph_block(get_field(els[i], "paragraph"@)->0, doc).text().push('\n'),
        )
}

/// Every structural element behind the first is one that the model holds.
pub open spec fn all_held(doc: JsonV) -> bool {
    forall|i: int|
        0 < i < body_content(doc).len() ==> element_node(#[trigger] body_content(doc)[i], doc)
            is Some
}

/// The paragraphs of the node stand in the text, from where the node starts.
pub open spec fn stands_in(text: Seq<u16>, n: CurNodeV) -> bool {
    n matches CurNodeV::Paras(seg) ==> (seg.blocks.len() > 0 ==> {
        let from = seg.start - 1;
        let to = from + utf16_len(blocks_plain(seg.blocks));
        0 <= from && to <= text.len() && text.subrange(from, to) == utf16(
            blocks_plain(seg.blocks),
        )
    })
}

proof fn lemma_one_block(b: BlockV)
    ensures
        blocks_plain(seq![b]) == b.text().push('\n'),
{
    reveal_with_fuel(blocks_plain, 2);
    assert(seq![b].drop_last() =~= Seq::<BlockV>::empty());
    assert(blocks_plain(seq![b]) =~= b.text().push('\n'));
}

proof fn lemma_reading_stands(doc: JsonV, text: Seq<u16>, at: Seq<int>, n: int)
    requires
        shows_text(doc, text, at),
        all_held(doc),
        0 <= n <= body_content(doc).len(),
    ensures
        ({
            let r = reading(body_content(doc), doc, n);
            &&& forall|q: int| 0 <= q < r.nodes.len() ==> stands_in(text, #[trigger] r.nodes[q])
            &&& r.blocks.len() == 0 <==> r.start is None
            &&& r.start matches Some(s) ==> 1 <= s <= at[n] <= text.len() + 1 && text.subrange(
                s - 1,
                at[n] - 1,
            ) == utf16(blocks_plain(r.blocks))
        }),
    decreases n,
{
    let els = body_content(doc);
    if n > 0 {
        lemma_reading_stands(doc, text, at, n - 1);
        let before = reading(els, doc, n - 1);
        let after = reading(els, doc, n);
        let el = els[n - 1];
        lemma_utf16_length(blocks_plain(before.blocks));
        assert(stands_in(text, open_segment(before, start_of(el) as int)));
        let plain = match get_field(el, "paragraph"@) {
            Some(p) => !rule_paragraph(p),
            None => false,
        };
        if plain {
            let p = get_field(el, "paragraph"@)->0;
            let b = paragraph_block(p, doc);
            assert(els[n - 1] == el);
            assert(spans(el, at[n - 1], at[n]));
            assert(after.blocks.drop_last() =~= before.blocks);
            assert(blocks_plain(after.blocks) =~= blocks_plain(before.blocks) + b.text().push(
                '\n',
            ));
            lemma_utf16_add(blocks_plain(before.blocks), b.text().push('\n'));
            if before.blocks.len() > 0 {
                let s = before.start->0;
                assert(text.subrange(s - 1, at[n] - 1) =~= text.subrange(s - 1, at[n - 1] - 1)
                    + text.subrange(at[n - 1] - 1, at[n] - 1));
            } else {
                assert(before.blocks =~= Seq::<BlockV>::empty());
                assert(after.blocks =~= seq![b]);
                lemma_one_block(b);
                assert(after.start == Some(at[n - 1]));
            }
        } else if n > 1 {
            assert(element_node(els[n - 1], doc) is Some);
        } else {
            assert(before.nodes.len() == 0);
        }
        assert forall|q: int| 0 <= q < after.nodes.len() implies stands_in(
            text,
            #[trigger] after.nodes[q],
        ) by {
            if q < before.nodes.len() {
                assert(after.nodes[q] == before.nodes[q]);
            }
        }
    }
}

/// Where every paragraph stands between its indices in the text of the document, the
/// paragraphs of every positioned node stand together in it, from where the node starts.
pub proof fn law_nodes_stand(doc: JsonV, text: Seq<u16>, at: Seq<int>, q: int)
    requires
        shows_text(doc, text, at),
        all_held(doc),
        0 <= q < document_nodes(doc).len(),
    ensures
        stands_in(text, document_nodes(doc)[q]),
{
    let els = body_content(doc);
    let r = reading(els, doc, els.len() as int);
    lemma_reading_stands(doc, text, at, els.len() as int);
    lemma_utf16_length(blocks_plain(r.blocks));
    if q < r.nodes.len() {
        assert(document_nodes(doc)[q] == r.nodes[q]);
    }
}

/// The range of a paragraph among others is where its text and its line feed stand.
pub proof fn law_ranges(bs: Seq<BlockV>, i: int)
    requires
        0 <= i < bs.len(),
    ensures
        1 <= para_start(bs, i) <= para_start(bs, i + 1) <= utf16(blocks_plain(bs)).len() + 1,
        utf16(blocks_plain(bs)).subrange(para_start(bs, i) - 1, para_start(bs, i + 1) - 1)
            == utf16(bs[i].text().push('\n')),
    decreases bs.len(),
{
    let init = bs.drop_last();
    let last = bs.last().text().push('\n');
    assert(blocks_plain(bs) =~= blocks_plain(init) + last);
    lemma_utf16_add(blocks_plain(init), last);
    lemma_utf16_length(blocks_plain(init));
    lemma_utf16_length(blocks_plain(bs));
    lemma_plain_len(bs);
    lemma_plain_len(init);
    lemma_start_prefix(bs, i);
    lemma_para_start(bs, 0, i);
    lemma_para_start(bs, i, i + 1);
    lemma_para_start(bs, i + 1, bs.len() as int);
    let (all, front) = (utf16(blocks_plain(bs)), utf16(blocks_plain(init)));
    if i == bs.len() - 1 {
        lemma_start_prefix(bs, i + 1);
        assert(all.subrange(para_start(bs, i) - 1, para_start(bs, i + 1) - 1) =~= utf16(last));
    } else {
        law_ranges(init, i);
        lemma_start_prefix(bs, i + 1);
        let (a, b) = (para_start(bs, i) - 1, para_start(bs, i + 1) - 1);
        assert(all.subrange(a, b) =~= front.subrange(a, b));
    }
}

/// Where a paragraph starts depends on those before it alone.
proof fn lemma_start_prefix(bs: Seq<BlockV>, i: int)
    requires
        bs.len() > 0,
    ensures
        0 <= i < bs.len() ==> para_start(bs, i) == para_start(bs.drop_last(), i),
    decreases i,
{
    if 0 < i < bs.len() {
        lemma_start_prefix(bs, i - 1);
        assert(bs[i - 1] == bs.drop_last()[i - 1]);
    }
}

} // verus!
