//! A document is its own model: what is read from it needs no edit, and a document that
//! needs none holds the model.
use crate::api::{
    body_content, document_model, document_nodes, element_node, element_nodes, placed_table,
    reading, row_items, row_runs, table_items, table_runs,
};
use crate::json::{get_field, JsonV};
use crate::markdown::parsed;
use crate::model::{BlockV, NodeV, RunV};
use crate::nodes::{
    all_units, cell_unit, cells_covered, des_sequence, des_split, grid_units, pair_covered,
    pair_units, row_units, settled, units_of, CellV, CurNodeV, DesV,
};
use crate::order::{law_order, order_of};
use crate::render::rendered;
use crate::roundtrip::{law_round_trip, model_holds};
use crate::structure::{
    all_growable, all_resizes, barrier_nodes, barriers_of, cur_numbers, des_numbers, growable,
    kind_number, node_barrier, node_kind, ops_in_order, resize_keys, resize_ops, resize_requests,
    resizes, Barrier, Resize,
};
use crate::sync::{shorter, UnitV};
use vstd::prelude::*;

verus! {

/// The cells hold the same runs.
pub open spec fn grid_mirrors(cells: Seq<Seq<CellV>>, rows: Seq<Seq<Seq<RunV>>>) -> bool {
    &&& cells.len() == rows.len()
    &&& forall|r: int|
        0 <= r < cells.len() ==> (#[trigger] cells[r]).len() == rows[r].len() && forall|c: int|
            0 <= c < cells[r].len() ==> (#[trigger] cells[r][c]).runs == rows[r][c]
}

/// The node of a document holds what the part of a model does.
pub open spec fn mirrors(cur: CurNodeV, des: DesV) -> bool {
    match (cur, des) {
        (CurNodeV::Paras(seg), DesV::Paras(bs)) => seg.blocks == bs,
        (CurNodeV::Table { cells, .. }, DesV::Table(rows)) => grid_mirrors(cells, rows),
        (CurNodeV::Rule { .. }, DesV::Rule) => true,
        (CurNodeV::Toc { .. }, DesV::Toc) => true,
        _ => false,
    }
}

/// A table of the document and its model hold the same runs.
proof fn lemma_table_mirrors(table: JsonV)
    ensures
        grid_mirrors(placed_table(table), table_runs(Some(table))),
{
    let cells = placed_table(table);
    let rows = table_runs(Some(table));
    let js = table_items(Some(table));
    assert forall|r: int| 0 <= r < cells.len() implies (#[trigger] cells[r]).len() == rows[r].len()
        && forall|c: int|
        0 <= c < cells[r].len() ==> (#[trigger] cells[r][c]).runs == rows[r][c] by {
        assert(rows[r] == row_runs(js[r]));
        assert(cells[r].len() == row_items(js[r]).len());
    }
}

/// What was read of a document mirrors its model, element by element.
proof fn lemma_reading(els: Seq<JsonV>, doc: JsonV, n: int)
    requires
        0 <= n <= els.len(),
    ensures
        ({
            let r = reading(els, doc, n);
            let nodes = element_nodes(els, doc, n);
            let (done, run) = des_split(nodes);
            &&& r.nodes.len() == done.len()
            &&& forall|i: int| 0 <= i < done.len() ==> mirrors(#[trigger] r.nodes[i], done[i])
            &&& r.blocks == run
            &&& cur_numbers(barriers_of(r.nodes)) == des_numbers(barrier_nodes(nodes))
        }),
    decreases n,
{
    if n > 0 {
        lemma_reading(els, doc, n - 1);
        let el = els[n - 1];
        let was = reading(els, doc, n - 1);
        let now = reading(els, doc, n);
        let before = element_nodes(els, doc, n - 1);
        let (done, run) = des_split(before);
        if let Some(node) = element_node(el, doc) {
            let nodes = before.push(node);
            assert(nodes.drop_last() =~= before);
            assert(nodes.last() == node);
            assert(element_nodes(els, doc, n) == nodes);
            if node.barrier() {
                let seg = now.nodes[now.nodes.len() - 2];
                let bar = now.nodes[now.nodes.len() - 1];
                assert(now.nodes.len() == was.nodes.len() + 2);
                assert(now.nodes.drop_last().drop_last() =~= was.nodes);
                assert(now.nodes.drop_last().last() == seg);
                assert(node_barrier(seg) is None);
                assert(node_barrier(bar) is Some);
                assert(barriers_of(now.nodes.drop_last()) == barriers_of(was.nodes));
                assert(barriers_of(now.nodes) == barriers_of(was.nodes).push(
                    node_barrier(bar)->0,
                ));
                assert(barrier_nodes(nodes) == barrier_nodes(before).push(node));
                assert(cur_numbers(barriers_of(now.nodes)) =~= cur_numbers(
                    barriers_of(was.nodes),
                ).push(kind_number(node_barrier(bar)->0.kind)));
                assert(des_numbers(barrier_nodes(nodes)) =~= des_numbers(
                    barrier_nodes(before),
                ).push(kind_number(node_kind(node))));
                if let NodeV::Table(rows) = node {
                    lemma_table_mirrors(get_field(el, "table"@)->0);
                }
                let (done2, run2) = des_split(nodes);
                assert(done2.len() == done.len() + 2);
                assert(mirrors(seg, done2[done.len() as int]));
                assert(mirrors(bar, done2[done.len() + 1int]));
                assert forall|i: int| 0 <= i < done2.len() implies mirrors(
                    #[trigger] now.nodes[i],
                    done2[i],
                ) by {
                    if i < done.len() {
                        assert(mirrors(was.nodes[i], done[i]));
                        assert(now.nodes[i] == was.nodes[i]);
                        assert(done2[i] == done[i]);
                    }
                }
            } else {
                assert(now.nodes == was.nodes);
            }
        } else {
            assert(now == was);
        }
    }
}

/// The nodes of a document mirror its model, one by one.
proof fn lemma_document(doc: JsonV)
    ensures
        ({
            let cur = document_nodes(doc);
            let des = des_sequence(document_model(doc));
            &&& cur.len() == des.len()
            &&& forall|i: int| 0 <= i < cur.len() ==> mirrors(#[trigger] cur[i], des[i])
            &&& cur_numbers(barriers_of(cur)) == des_numbers(barrier_nodes(document_model(doc)))
        }),
{
    let els = body_content(doc);
    let n = els.len() as int;
    lemma_reading(els, doc, n);
    let r = reading(els, doc, n);
    let cur = document_nodes(doc);
    let (done, run) = des_split(document_model(doc));
    let des = des_sequence(document_model(doc));
    assert(cur.drop_last() =~= r.nodes);
    assert(node_barrier(cur.last()) is None);
    assert forall|i: int| 0 <= i < cur.len() implies mirrors(#[trigger] cur[i], des[i]) by {
        if i < done.len() {
            assert(mirrors(r.nodes[i], done[i]));
        }
    }
}

/// The cells of mirrored rows hold what they should.
proof fn lemma_row_settled(cells: Seq<CellV>, row: Seq<Seq<RunV>>, c: int)
    requires
        0 <= c <= cells.len(),
        cells.len() == row.len(),
        forall|k: int| 0 <= k < cells.len() ==> (#[trigger] cells[k]).runs == row[k],
    ensures
        settled(row_units(cells, row, c)),
    decreases c,
{
    if c > 0 {
        lemma_row_settled(cells, row, c - 1);
        let a = row_units(cells, row, c - 1);
        let b = row_units(cells, row, c);
        assert(cells[c - 1].runs == row[c - 1]);
        assert forall|i: int| 0 <= i < b.len() implies (#[trigger] b[i]).cur == b[i].des by {
            if i < a.len() {
                assert(a[i].cur == a[i].des);
            }
        }
    }
}

/// The cells of mirrored tables hold what they should.
proof fn lemma_grid_settled(cells: Seq<Seq<CellV>>, rows: Seq<Seq<Seq<RunV>>>, r: int)
    requires
        grid_mirrors(cells, rows),
        0 <= r <= cells.len(),
    ensures
        settled(grid_units(cells, rows, r)),
    decreases r,
{
    if r > 0 {
        lemma_grid_settled(cells, rows, r - 1);
        assert(cells[r - 1].len() == rows[r - 1].len());
        lemma_row_settled(cells[r - 1], rows[r - 1], cells[r - 1].len() as int);
        lemma_settled_add(
            grid_units(cells, rows, r - 1),
            row_units(cells[r - 1], rows[r - 1], cells[r - 1].len() as int),
        );
    }
}

proof fn lemma_settled_add(a: Seq<UnitV>, b: Seq<UnitV>)
    requires
        settled(a),
        settled(b),
    ensures
        settled(a + b),
{
    assert forall|i: int| 0 <= i < (a + b).len() implies (#[trigger] (a + b)[i]).cur == (a
        + b)[i].des by {
        if i < a.len() {
            assert(a[i].cur == a[i].des);
        } else {
            assert(b[i - a.len()].cur == b[i - a.len()].des);
        }
    }
}

/// Every table has its dimensions.
pub open spec fn all_sized(rs: Seq<Resize>) -> bool {
    forall|i: int|
        0 <= i < rs.len() ==> (#[trigger] rs[i]).cur_rows == rs[i].des_rows && rs[i].cur_cols
            == rs[i].des_cols
}

/// Mirrored nodes hold what they should.
proof fn lemma_units_settled(cur: Seq<CurNodeV>, des: Seq<DesV>, n: int)
    requires
        0 <= n <= cur.len(),
        cur.len() == des.len(),
        forall|i: int| 0 <= i < cur.len() ==> mirrors(#[trigger] cur[i], des[i]),
    ensures
        settled(units_of(cur, des, n)),
        all_sized(resizes(cur, des, n)),
    decreases n,
{
    if n > 0 {
        lemma_units_settled(cur, des, n - 1);
        assert(mirrors(cur[n - 1], des[n - 1]));
        if let (CurNodeV::Table { cells, .. }, DesV::Table(rows)) = (cur[n - 1], des[n - 1]) {
            lemma_grid_settled(cells, rows, cells.len() as int);
            if cells.len() > 0 {
                assert(cells[0].len() == rows[0].len());
            }
        }
        let was = resizes(cur, des, n - 1);
        let now = resizes(cur, des, n);
        assert forall|i: int| 0 <= i < now.len() implies (#[trigger] now[i]).cur_rows
            == now[i].des_rows && now[i].cur_cols == now[i].des_cols by {
            if i < was.len() {
                assert(was[i].cur_rows == was[i].des_rows && was[i].cur_cols == was[i].des_cols);
            }
        }
        lemma_settled_add(units_of(cur, des, n - 1), pair_units(cur[n - 1], des[n - 1]));
    }
}

/// Tables that have their dimensions need no request.
proof fn lemma_no_resize(rs: Seq<Resize>, order: Seq<int>, n: int)
    requires
        0 <= n <= order.len(),
        forall|i: int| 0 <= i < order.len() ==> 0 <= #[trigger] order[i] < rs.len(),
        all_sized(rs),
    ensures
        ops_in_order(rs, order, n).len() == 0,
    decreases n,
{
    if n > 0 {
        lemma_no_resize(rs, order, n - 1);
        let r = rs[order[n - 1]];
        assert(r.cur_rows == r.des_rows && r.cur_cols == r.des_cols);
        assert(resize_ops(r).len() == 0);
    }
}

/// A document holds the model that is read from it: no region of it needs an edit, its
/// barriers agree, and its tables have their dimensions.
pub proof fn law_own_model(doc: JsonV)
    ensures
        settled(all_units(document_nodes(doc), document_model(doc))),
        cells_covered(document_nodes(doc), document_model(doc)),
        cur_numbers(barriers_of(document_nodes(doc))) == des_numbers(
            barrier_nodes(document_model(doc)),
        ),
        all_growable(all_resizes(document_nodes(doc), document_model(doc))),
        resize_requests(document_nodes(doc), document_model(doc)).len() == 0,
{
    lemma_document(doc);
    let cur = document_nodes(doc);
    let model = document_model(doc);
    let des = des_sequence(model);
    let n = shorter(cur.len(), des.len());
    lemma_units_settled(cur, des, n);
    let rs = all_resizes(cur, model);
    law_order(resize_keys(rs));
    assert(order_of(resize_keys(rs)).len() == rs.len());
    lemma_no_resize(rs, order_of(resize_keys(rs)), rs.len() as int);
    assert forall|i: int| 0 <= i < rs.len() implies growable(#[trigger] rs[i]) by {
        assert(rs[i].cur_rows == rs[i].des_rows && rs[i].cur_cols == rs[i].des_cols);
    }
    assert forall|i: int| 0 <= i < n implies #[trigger] pair_covered(cur[i], des[i]) by {
        assert(mirrors(cur[i], des[i]));
        if let (CurNodeV::Table { cells, .. }, DesV::Table(rows)) = (cur[i], des[i]) {
            assert forall|r: int| 0 <= r < cells.len() implies (#[trigger] cells[r]).len()
                <= rows[r].len() by {
                assert(cells[r].len() == rows[r].len());
            }
        }
    }
}

/// Pulling a document and pushing back what was pulled changes nothing: the markdown of
/// the document parses to a model that the document holds.
pub proof fn law_pulled_quiet(doc: JsonV)
    requires
        model_holds(document_model(doc)),
    ensures
        ({
            let model = parsed(rendered(document_model(doc)));
            &&& settled(all_units(document_nodes(doc), model))
            &&& cur_numbers(barriers_of(document_nodes(doc))) == des_numbers(barrier_nodes(model))
            &&& resize_requests(document_nodes(doc), model).len() == 0
        }),
{
    law_round_trip(document_model(doc));
    law_own_model(doc);
}

// ---------------------------------------------------------------------------
// Pairing
// ---------------------------------------------------------------------------

/// The part that a barrier of a model is.
pub open spec fn barrier_part(n: NodeV) -> DesV {
    match n {
        NodeV::Table(rows) => DesV::Table(rows),
        NodeV::Toc => DesV::Toc,
        _ => DesV::Rule,
    }
}

/// The `k`-th barrier stands behind the `k`-th paragraph segment.
pub open spec fn turn(nodes: Seq<CurNodeV>, bs: Seq<Barrier>, k: int) -> bool {
    &&& nodes[2 * k] is Paras
    &&& node_barrier(nodes[2 * k + 1]) == Some(bs[k])
}

/// Paragraph segments and barriers take turns, and the barriers are these.
pub open spec fn laid_out(nodes: Seq<CurNodeV>, bs: Seq<Barrier>) -> bool {
    &&& nodes.len() == 2 * bs.len()
    &&& forall|k: int| 0 <= k < bs.len() ==> #[trigger] turn(nodes, bs, k)
}

/// Paragraph runs and barriers take turns, and the barriers are these.
pub open spec fn parts_laid_out(parts: Seq<DesV>, ns: Seq<NodeV>) -> bool {
    &&& parts.len() == 2 * ns.len()
    &&& forall|k: int|
        0 <= k < ns.len() ==> parts[2 * k] is Paras && parts[2 * k + 1] == barrier_part(
            #[trigger] ns[k],
        ) && ns[k].barrier()
}

proof fn lemma_laid_out(els: Seq<JsonV>, doc: JsonV, n: int)
    ensures
        laid_out(reading(els, doc, n).nodes, barriers_of(reading(els, doc, n).nodes)),
    decreases n,
{
    if n > 0 {
        lemma_laid_out(els, doc, n - 1);
        let was = reading(els, doc, n - 1).nodes;
        let now = reading(els, doc, n).nodes;
        if now != was {
            let before = barriers_of(was);
            assert(now.len() == was.len() + 2);
            assert(now.drop_last().drop_last() =~= was);
            assert(node_barrier(now.drop_last().last()) is None);
            assert(barriers_of(now.drop_last()) == before);
            assert(node_barrier(now.last()) is Some);
            let bar = node_barrier(now.last())->0;
            assert(barriers_of(now) == before.push(bar));
            let bs = barriers_of(now);
            assert(now[now.len() - 2] is Paras);
            assert forall|k: int| 0 <= k < bs.len() implies #[trigger] turn(now, bs, k) by {
                if k < before.len() {
                    assert(turn(was, before, k));
                    assert(now[2 * k] == was[2 * k] && now[2 * k + 1] == was[2 * k + 1]);
                } else {
                    assert(2 * k == now.len() - 2);
                }
            }
        }
    }
}

proof fn lemma_parts_laid_out(nodes: Seq<NodeV>)
    ensures
        parts_laid_out(des_split(nodes).0, barrier_nodes(nodes)),
    decreases nodes.len(),
{
    if nodes.len() > 0 {
        let init = nodes.drop_last();
        lemma_parts_laid_out(init);
        let was = des_split(init).0;
        let now = des_split(nodes).0;
        let before = barrier_nodes(init);
        if nodes.last().barrier() {
            let ns = barrier_nodes(nodes);
            assert forall|k: int| 0 <= k < ns.len() implies now[2 * k] is Paras && now[2 * k + 1]
                == barrier_part(#[trigger] ns[k]) && ns[k].barrier() by {
                if k < before.len() {
                    assert(was[2 * k + 1] == barrier_part(before[k]));
                    assert(now[2 * k] == was[2 * k] && now[2 * k + 1] == was[2 * k + 1]);
                }
            }
        }
    }
}

/// The node and the part are of one kind.
pub open spec fn one_kind(cur: CurNodeV, des: DesV) -> bool {
    match (cur, des) {
        (CurNodeV::Paras(_), DesV::Paras(_)) => true,
        (CurNodeV::Table { .. }, DesV::Table(_)) => true,
        (CurNodeV::Rule { .. }, DesV::Rule) => true,
        (CurNodeV::Toc { .. }, DesV::Toc) => true,
        _ => false,
    }
}

/// Once the document has the barriers of the model, every node of it pairs with a part of
/// the model of its own kind, and no part is left over.
pub proof fn law_pairs(doc: JsonV, model: Seq<NodeV>)
    requires
        cur_numbers(barriers_of(document_nodes(doc))) == des_numbers(barrier_nodes(model)),
    ensures
        document_nodes(doc).len() == des_sequence(model).len(),
        forall|i: int|
            0 <= i < document_nodes(doc).len() ==> one_kind(
                #[trigger] document_nodes(doc)[i],
                des_sequence(model)[i],
            ),
{
    let els = body_content(doc);
    let nodes = reading(els, doc, els.len() as int).nodes;
    let cur = document_nodes(doc);
    assert(cur.drop_last() =~= nodes);
    let bs = barriers_of(nodes);
    assert(barriers_of(cur) == bs);
    lemma_laid_out(els, doc, els.len() as int);
    let parts = des_split(model).0;
    let des = des_sequence(model);
    let ns = barrier_nodes(model);
    lemma_parts_laid_out(model);
    assert(cur_numbers(bs).len() == bs.len() && des_numbers(ns).len() == ns.len());
    assert forall|i: int| 0 <= i < cur.len() implies one_kind(#[trigger] cur[i], des[i]) by {
        if i < nodes.len() {
            let k = i / 2;
            assert(turn(nodes, bs, k));
            assert(parts[2 * k + 1] == barrier_part(ns[k]));
            assert(cur_numbers(bs)[k] == des_numbers(ns)[k]);
            assert(i == 2 * k || i == 2 * k + 1);
        }
    }
}

// ---------------------------------------------------------------------------
// Settled documents
// ---------------------------------------------------------------------------

/// Every table of the document has as many rows and cells as its counterpart.
pub open spec fn same_grid(cur: CurNodeV, des: DesV) -> bool {
    match (cur, des) {
        (CurNodeV::Table { cells, .. }, DesV::Table(rows)) => cells.len() == rows.len() && forall|
            r: int,
        |
            0 <= r < cells.len() ==> (#[trigger] cells[r]).len() == rows[r].len(),
        _ => true,
    }
}

proof fn lemma_settled_parts(a: Seq<UnitV>, b: Seq<UnitV>)
    requires
        settled(a + b),
    ensures
        settled(a),
        settled(b),
{
    assert forall|i: int| 0 <= i < a.len() implies (#[trigger] a[i]).cur == a[i].des by {
        assert((a + b)[i].cur == (a + b)[i].des);
    }
    assert forall|i: int| 0 <= i < b.len() implies (#[trigger] b[i]).cur == b[i].des by {
        assert((a + b)[a.len() + i].cur == (a + b)[a.len() + i].des);
    }
}

proof fn lemma_row_mirrors(cells: Seq<CellV>, row: Seq<Seq<RunV>>, c: int)
    requires
        0 <= c <= cells.len(),
        cells.len() == row.len(),
        settled(row_units(cells, row, c)),
    ensures
        forall|k: int| 0 <= k < c ==> (#[trigger] cells[k]).runs == row[k],
    decreases c,
{
    if c > 0 {
        let a = row_units(cells, row, c - 1);
        let u = cell_unit(cells[c - 1], row[c - 1]);
        assert(row_units(cells, row, c) =~= a + seq![u]);
        lemma_settled_parts(a, seq![u]);
        lemma_row_mirrors(cells, row, c - 1);
        assert(seq![u][0].cur == seq![u][0].des);
        assert(u.cur[0] == u.des[0]);
    }
}

proof fn lemma_grid_mirrors(cells: Seq<Seq<CellV>>, rows: Seq<Seq<Seq<RunV>>>, r: int)
    requires
        0 <= r <= cells.len(),
        cells.len() == rows.len(),
        forall|k: int| 0 <= k < cells.len() ==> (#[trigger] cells[k]).len() == rows[k].len(),
        settled(grid_units(cells, rows, r)),
    ensures
        forall|k: int, c: int|
            0 <= k < r && 0 <= c < cells[k].len() ==> (#[trigger] cells[k][c]).runs == rows[k][c],
    decreases r,
{
    if r > 0 {
        assert(cells[r - 1].len() == rows[r - 1].len());
        let last = row_units(cells[r - 1], rows[r - 1], cells[r - 1].len() as int);
        lemma_settled_parts(grid_units(cells, rows, r - 1), last);
        lemma_grid_mirrors(cells, rows, r - 1);
        lemma_row_mirrors(cells[r - 1], rows[r - 1], cells[r - 1].len() as int);
    }
}

/// Settled nodes mirror their parts.
proof fn lemma_settled_mirrors(cur: Seq<CurNodeV>, des: Seq<DesV>, n: int)
    requires
        0 <= n <= cur.len(),
        cur.len() == des.len(),
        forall|i: int| 0 <= i < cur.len() ==> one_kind(#[trigger] cur[i], des[i]),
        forall|i: int| 0 <= i < cur.len() ==> same_grid(#[trigger] cur[i], des[i]),
        settled(units_of(cur, des, n)),
    ensures
        forall|i: int| 0 <= i < n ==> mirrors(#[trigger] cur[i], des[i]),
    decreases n,
{
    if n > 0 {
        let own = pair_units(cur[n - 1], des[n - 1]);
        lemma_settled_parts(units_of(cur, des, n - 1), own);
        lemma_settled_mirrors(cur, des, n - 1);
        assert(one_kind(cur[n - 1], des[n - 1]));
        assert(same_grid(cur[n - 1], des[n - 1]));
        match (cur[n - 1], des[n - 1]) {
            (CurNodeV::Paras(seg), DesV::Paras(bs)) => {
                assert(own[0].cur == own[0].des);
            },
            (CurNodeV::Table { cells, .. }, DesV::Table(rows)) => {
                if cells.len() > 0 {
                    assert(cells[0].len() == rows[0].len());
                }
                lemma_grid_mirrors(cells, rows, cells.len() as int);
                assert forall|r: int| 0 <= r < cells.len() implies (#[trigger] cells[r]).len()
                    == rows[r].len() && forall|c: int|
                    0 <= c < cells[r].len() ==> (#[trigger] cells[r][c]).runs == rows[r][c] by {
                    assert(cells[r].len() == rows[r].len());
                }
            },
            _ => {},
        }
    }
}

/// A node mirrors one part only.
proof fn lemma_mirrors_once(cur: CurNodeV, a: DesV, b: DesV)
    requires
        mirrors(cur, a),
        mirrors(cur, b),
    ensures
        a == b,
{
    if let (CurNodeV::Table { cells, .. }, DesV::Table(x)) = (cur, a) {
        let y = b->Table_0;
        assert forall|r: int| 0 <= r < x.len() implies x[r] =~= y[r] by {
            assert(cells[r].len() == x[r].len() && cells[r].len() == y[r].len());
            assert forall|c: int| 0 <= c < x[r].len() implies x[r][c] == y[r][c] by {
                assert(cells[r][c].runs == x[r][c] && cells[r][c].runs == y[r][c]);
            }
        }
        assert(x =~= y);
    }
}

/// The parts of a model, put together again.
pub open spec fn joined(done: Seq<DesV>, run: Seq<BlockV>) -> Seq<NodeV>
    decreases done.len(),
{
    let before = if done.len() == 0 {
        Seq::<NodeV>::empty()
    } else {
        match done.last() {
            DesV::Paras(bs) => joined(done.drop_last(), bs),
            DesV::Table(rows) => joined(done.drop_last(), Seq::empty()).push(NodeV::Table(rows)),
            DesV::Rule => joined(done.drop_last(), Seq::empty()).push(NodeV::Rule),
            DesV::Toc => joined(done.drop_last(), Seq::empty()).push(NodeV::Toc),
        }
    };
    before + Seq::new(run.len(), |i: int| NodeV::Para(run[i]))
}

/// A model is its parts put together.
proof fn lemma_joined(nodes: Seq<NodeV>)
    ensures
        joined(des_split(nodes).0, des_split(nodes).1) == nodes,
    decreases nodes.len(),
{
    if nodes.len() == 0 {
        assert(joined(des_split(nodes).0, des_split(nodes).1) =~= nodes);
    } else {
        let init = nodes.drop_last();
        lemma_joined(init);
        let (done, run) = des_split(init);
        let none = Seq::<BlockV>::empty();
        assert(nodes =~= init.push(nodes.last()));
        if let NodeV::Para(b) = nodes.last() {
            assert(joined(done, run.push(b)) =~= joined(done, run).push(NodeV::Para(b)));
        } else {
            let paras = done.push(DesV::Paras(run));
            assert(paras.drop_last() =~= done);
            assert(joined(paras, none) =~= joined(done, run));
            let part = barrier_part(nodes.last());
            assert(paras.push(part).drop_last() =~= paras);
            assert(joined(paras.push(part), none) =~= joined(paras, none).push(nodes.last()));
        }
    }
}

/// A document that has the barriers of a model, the dimensions of its tables, and no
/// region that needs an edit holds exactly that model.
pub proof fn law_settled_holds(doc: JsonV, model: Seq<NodeV>)
    requires
        cur_numbers(barriers_of(document_nodes(doc))) == des_numbers(barrier_nodes(model)),
        forall|i: int|
            0 <= i < document_nodes(doc).len() ==> same_grid(
                #[trigger] document_nodes(doc)[i],
                des_sequence(model)[i],
            ),
        settled(all_units(document_nodes(doc), model)),
    ensures
        document_model(doc) == model,
{
    let cur = document_nodes(doc);
    let own = des_sequence(document_model(doc));
    let des = des_sequence(model);
    law_pairs(doc, model);
    lemma_document(doc);
    lemma_settled_mirrors(cur, des, cur.len() as int);
    assert forall|i: int| 0 <= i < own.len() implies own[i] == des[i] by {
        assert(mirrors(cur[i], own[i]));
        assert(mirrors(cur[i], des[i]));
        lemma_mirrors_once(cur[i], own[i], des[i]);
    }
    assert(own =~= des);
    lemma_joined(document_model(doc));
    lemma_joined(model);
    assert(own.drop_last() =~= des_split(document_model(doc)).0);
    assert(des.drop_last() =~= des_split(model).0);
    assert(own.last() == des.last());
}

} // verus!
