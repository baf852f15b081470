//! Sync over the positioned nodes of a document: paragraphs anywhere, and the cells of
//! tables whose dimensions are unchanged.
use crate::model::{
    block_views, columns_of, copy_blocks, copy_runs, node_views, row_view, run_views, Block,
    BlockKind, BlockV, DocModel, Node, NodeV, Run, RunV, Table,
};
use crate::order::{descending_order, key_views, lemma_order_covers, order_of};
use crate::region_laws::{document_reached, law_document_reached};
use crate::request::{request_views, Request, RequestV};
use crate::sync::{
    edits_reach, extend_requests, keeps_region, shorter, sync_unit, EditUnit, ParaSegment, SegmentV,
    UnitV,
};
use vstd::prelude::*;

verus! {

/// A table cell of the document: where its paragraph starts and what it holds.
#[derive(Debug)]
pub struct CellEdit {
    pub start_index: usize,
    pub runs: Vec<Run>,
}

/// What a [`CellEdit`] holds.
#[verifier::ext_equal]
pub struct CellV {
    pub start: int,
    pub runs: Seq<RunV>,
}

impl View for CellEdit {
    type V = CellV;

    open spec fn view(&self) -> CellV {
        CellV { start: self.start_index as int, runs: run_views(self.runs@) }
    }
}

impl Clone for CellEdit {
    fn clone(&self) -> (r: CellEdit)
        ensures
            r@ == self@,
    {
        CellEdit { start_index: self.start_index, runs: copy_runs(self.runs.as_slice()) }
    }
}

/// What the cells of a row hold.
pub open spec fn cell_views(cells: Seq<CellEdit>) -> Seq<CellV> {
    Seq::new(cells.len(), |i: int| cells[i]@)
}

/// What the rows hold.
pub open spec fn grid_views(rows: Seq<Vec<CellEdit>>) -> Seq<Seq<CellV>> {
    Seq::new(rows.len(), |i: int| cell_views(rows[i]@))
}

/// A top-level node of the document, with its indices.
#[derive(Debug)]
pub enum CurNode {
    Paras(ParaSegment),
    Table { start_index: usize, end_index: usize, cells: Vec<Vec<CellEdit>> },
    Rule { start_index: usize, end_index: usize },
    Toc { start_index: usize, end_index: usize },
}

/// What a [`CurNode`] holds.
#[verifier::ext_equal]
pub enum CurNodeV {
    Paras(SegmentV),
    Table { start: int, end: int, cells: Seq<Seq<CellV>> },
    Rule { start: int, end: int },
    Toc { start: int, end: int },
}

impl View for CurNode {
    type V = CurNodeV;

    open spec fn view(&self) -> CurNodeV {
        match self {
            CurNode::Paras(seg) => CurNodeV::Paras(seg@),
            CurNode::Table { start_index, end_index, cells } => CurNodeV::Table {
                start: *start_index as int,
                end: *end_index as int,
                cells: grid_views(cells@),
            },
            CurNode::Rule { start_index, end_index } => CurNodeV::Rule {
                start: *start_index as int,
                end: *end_index as int,
            },
            CurNode::Toc { start_index, end_index } => CurNodeV::Toc {
                start: *start_index as int,
                end: *end_index as int,
            },
        }
    }
}

/// What each node holds.
pub open spec fn cur_views(s: Seq<CurNode>) -> Seq<CurNodeV> {
    Seq::new(s.len(), |i: int| s[i]@)
}

/// A part of a desired model, in the shape that the nodes of a document have: barriers
/// and the paragraph runs between them.
pub enum DesNode {
    Paras(Vec<Block>),
    Table(Table),
    Rule,
    Toc,
}

/// What a [`DesNode`] holds.
#[verifier::ext_equal]
pub enum DesV {
    Paras(Seq<BlockV>),
    Table(Seq<Seq<Seq<RunV>>>),
    Rule,
    Toc,
}

impl View for DesNode {
    type V = DesV;

    open spec fn view(&self) -> DesV {
        match self {
            DesNode::Paras(bs) => DesV::Paras(block_views(bs@)),
            DesNode::Table(t) => DesV::Table(t@),
            DesNode::Rule => DesV::Rule,
            DesNode::Toc => DesV::Toc,
        }
    }
}

/// What each part holds.
pub open spec fn des_views(s: Seq<DesNode>) -> Seq<DesV> {
    Seq::new(s.len(), |i: int| s[i]@)
}

/// The barriers of a model with the paragraph runs around them, and the blocks of the
/// last run.
pub open spec fn des_split(nodes: Seq<NodeV>) -> (Seq<DesV>, Seq<BlockV>)
    decreases nodes.len(),
{
    if nodes.len() == 0 {
        (Seq::empty(), Seq::empty())
    } else {
        let (done, run) = des_split(nodes.drop_last());
        match nodes.last() {
            NodeV::Para(b) => (done, run.push(b)),
            NodeV::Table(t) => (done.push(DesV::Paras(run)).push(DesV::Table(t)), Seq::empty()),
            NodeV::Rule => (done.push(DesV::Paras(run)).push(DesV::Rule), Seq::empty()),
            NodeV::Toc => (done.push(DesV::Paras(run)).push(DesV::Toc), Seq::empty()),
        }
    }
}

/// A desired model in the shape that the nodes of a document have.
pub open spec fn des_sequence(nodes: Seq<NodeV>) -> Seq<DesV> {
    let (done, run) = des_split(nodes);
    done.push(DesV::Paras(run))
}

/// Group a desired model into the shape that the nodes of a document have, so that the
/// two pair by position.
pub fn desired_sequence(model: &DocModel) -> (r: Vec<DesNode>)
    ensures
        des_views(r@) == des_sequence(node_views(model@)),
{
    let ghost all = node_views(model@);
    let n: usize = model.len();
    let mut seq: Vec<DesNode> = Vec::new();
    let mut cur: Vec<Block> = Vec::new();
    assert(all.take(0) =~= Seq::<NodeV>::empty());
    assert(block_views(cur@) =~= Seq::<BlockV>::empty());
    assert(des_views(seq@) =~= Seq::<DesV>::empty());
    for i in 0..n
        invariant
            n == model@.len(),
            all == node_views(model@),
            des_split(all.take(i as int)) == (des_views(seq@), block_views(cur@)),
    {
        let ghost done = des_views(seq@);
        let ghost run = block_views(cur@);
        assert(all.take(i + 1).drop_last() =~= all.take(i as int));
        assert(all.take(i + 1).last() == model@[i as int]@);
        match &model[i] {
            Node::Para(b) => {
                cur.push(b.clone());
                assert(block_views(cur@) =~= run.push(b@));
            },
            Node::Table(t) => {
                seq.push(DesNode::Paras(cur));
                seq.push(DesNode::Table(t.clone()));
                cur = Vec::new();
                assert(block_views(cur@) =~= Seq::<BlockV>::empty());
                assert(des_views(seq@) =~= done.push(DesV::Paras(run)).push(DesV::Table(t@)));
            },
            Node::Rule => {
                seq.push(DesNode::Paras(cur));
                seq.push(DesNode::Rule);
                cur = Vec::new();
                assert(block_views(cur@) =~= Seq::<BlockV>::empty());
                assert(des_views(seq@) =~= done.push(DesV::Paras(run)).push(DesV::Rule));
            },
            Node::Toc => {
                seq.push(DesNode::Paras(cur));
                seq.push(DesNode::Toc);
                cur = Vec::new();
                assert(block_views(cur@) =~= Seq::<BlockV>::empty());
                assert(des_views(seq@) =~= done.push(DesV::Paras(run)).push(DesV::Toc));
            },
        }
    }
    let ghost done = des_views(seq@);
    let ghost run = block_views(cur@);
    assert(all.take(n as int) =~= all);
    seq.push(DesNode::Paras(cur));
    assert(des_views(seq@) =~= done.push(DesV::Paras(run)));
    seq
}

/// The block that a table cell's paragraph is.
pub open spec fn cell_para(runs: Seq<RunV>) -> BlockV {
    BlockV { kind: BlockKind::Normal, depth: 0, runs }
}

/// The block of a cell with these runs.
fn cell_block(runs: &[Run]) -> (r: Block)
    ensures
        r@ == cell_para(run_views(runs@)),
{
    Block { kind: BlockKind::Normal, depth: 0, runs: copy_runs(runs) }
}

/// The region of a cell that should hold these runs.
pub open spec fn cell_unit(cell: CellV, runs: Seq<RunV>) -> UnitV {
    UnitV {
        start: cell.start,
        cur: seq![cell_para(cell.runs)],
        des: seq![cell_para(runs)],
        final_newline: true,
    }
}

/// The number of columns: that of the first row.
pub open spec fn grid_columns(cells: Seq<Seq<CellV>>) -> nat {
    if cells.len() == 0 {
        0
    } else {
        cells[0].len()
    }
}

/// The table has as many rows and columns as the desired one.
pub open spec fn same_dims(cells: Seq<Seq<CellV>>, rows: Seq<Seq<Seq<RunV>>>) -> bool {
    cells.len() == rows.len() && grid_columns(cells) == columns_of(rows)
}

/// The regions of the cells of a row up to the `c`-th.
pub open spec fn row_units(cells: Seq<CellV>, row: Seq<Seq<RunV>>, c: int) -> Seq<UnitV>
    decreases c,
{
    if c <= 0 {
        Seq::empty()
    } else {
        row_units(cells, row, c - 1).push(cell_unit(cells[c - 1], row[c - 1]))
    }
}

/// The regions of the cells of a table up to the `r`-th row.
pub open spec fn grid_units(
    cells: Seq<Seq<CellV>>,
    rows: Seq<Seq<Seq<RunV>>>,
    r: int,
) -> Seq<UnitV>
    decreases r,
{
    if r <= 0 {
        Seq::empty()
    } else {
        grid_units(cells, rows, r - 1) + row_units(
            cells[r - 1],
            rows[r - 1],
            cells[r - 1].len() as int,
        )
    }
}

/// The regions of a node that should hold `des`: its paragraphs, or its cells where the
/// dimensions agree. A node of another kind than `des` has none.
pub open spec fn pair_units(cur: CurNodeV, des: DesV) -> Seq<UnitV> {
    match (cur, des) {
        (CurNodeV::Paras(seg), DesV::Paras(bs)) => seq![
            UnitV { start: seg.start, cur: seg.blocks, des: bs, final_newline: true },
        ],
        (CurNodeV::Table { cells, .. }, DesV::Table(rows)) => if same_dims(cells, rows) {
            grid_units(cells, rows, cells.len() as int)
        } else {
            Seq::empty()
        },
        _ => Seq::empty(),
    }
}

/// The regions of the first `n` nodes, in document order.
pub open spec fn units_of(cur: Seq<CurNodeV>, des: Seq<DesV>, n: int) -> Seq<UnitV>
    decreases n,
{
    if n <= 0 {
        Seq::empty()
    } else {
        units_of(cur, des, n - 1) + pair_units(cur[n - 1], des[n - 1])
    }
}

/// All regions of a document that should hold the model.
pub open spec fn all_units(cur: Seq<CurNodeV>, model: Seq<NodeV>) -> Seq<UnitV> {
    let des = des_sequence(model);
    units_of(cur, des, shorter(cur.len(), des.len()))
}

/// Where the regions start.
pub open spec fn unit_starts(units: Seq<UnitV>) -> Seq<int> {
    Seq::new(units.len(), |i: int| units[i].start)
}

/// The requests of the regions in this order, up to the `n`-th.
pub open spec fn requests_in_order(units: Seq<UnitV>, order: Seq<int>, n: int) -> Seq<RequestV>
    decreases n,
{
    if n <= 0 {
        Seq::empty()
    } else {
        requests_in_order(units, order, n - 1) + units[order[n - 1]].requests()
    }
}

/// The requests that bring a document to a model: those of its regions, the region with
/// the highest start first.
pub open spec fn node_requests(cur: Seq<CurNodeV>, model: Seq<NodeV>) -> Seq<RequestV> {
    let units = all_units(cur, model);
    requests_in_order(units, order_of(unit_starts(units)), units.len() as int)
}

/// Every row of the document's table has a counterpart that is no shorter.
pub open spec fn rows_covered(cells: Seq<Seq<CellV>>, rows: Seq<Seq<Seq<RunV>>>) -> bool {
    forall|r: int| 0 <= r < cells.len() ==> (#[trigger] cells[r]).len() <= rows[r].len()
}

/// Tables that are edited cell by cell have a counterpart for each cell.
pub open spec fn pair_covered(cur: CurNodeV, des: DesV) -> bool {
    match (cur, des) {
        (CurNodeV::Table { cells, .. }, DesV::Table(rows)) => same_dims(cells, rows)
            ==> rows_covered(cells, rows),
        _ => true,
    }
}

/// All tables that are edited cell by cell have a counterpart for each cell.
pub open spec fn cells_covered(cur: Seq<CurNodeV>, model: Seq<NodeV>) -> bool {
    let des = des_sequence(model);
    forall|i: int|
        0 <= i < shorter(cur.len(), des.len()) ==> #[trigger] pair_covered(cur[i], des[i])
}

/// The indices of all regions fit in a `usize`.
pub open spec fn units_fit(units: Seq<UnitV>) -> bool {
    forall|i: int| 0 <= i < units.len() ==> (#[trigger] units[i]).fits()
}

/// What each region holds.
pub open spec fn unit_views(s: Seq<EditUnit>) -> Seq<UnitV> {
    Seq::new(s.len(), |i: int| s[i]@)
}

/// Append the regions of the cells of a table.
fn push_cells(out: &mut Vec<EditUnit>, cells: &Vec<Vec<CellEdit>>, table: &Table)
    requires
        cells@.len() == table@.len(),
        rows_covered(grid_views(cells@), table@),
    ensures
        unit_views(final(out)@) == unit_views(old(out)@) + grid_units(
            grid_views(cells@),
            table@,
            cells@.len() as int,
        ),
{
    let ghost grid = grid_views(cells@);
    let ghost rows = table@;
    let ghost start = unit_views(out@);
    let n: usize = cells.len();
    assert(start + grid_units(grid, rows, 0) =~= start);
    for r in 0..n
        invariant
            n == cells@.len(),
            n == table.rows@.len(),
            grid == grid_views(cells@),
            rows == table@,
            rows_covered(grid, rows),
            unit_views(out@) == start + grid_units(grid, rows, r as int),
    {
        let ghost before = unit_views(out@);
        let row = &cells[r];
        let m: usize = row.len();
        assert(grid[r as int] == cell_views(row@));
        assert(rows[r as int] == row_view(table.rows@[r as int]@));
        assert(grid[r as int].len() <= rows[r as int].len());
        assert(before + row_units(grid[r as int], rows[r as int], 0) =~= before);
        for c in 0..m
            invariant
                r < n,
                n == cells@.len(),
                n == table.rows@.len(),
                row == cells@[r as int],
                m == row@.len(),
                grid[r as int] == cell_views(row@),
                rows[r as int] == row_view(table.rows@[r as int]@),
                m <= table.rows@[r as int]@.len(),
                unit_views(out@) == before + row_units(grid[r as int], rows[r as int], c as int),
        {
            let ghost mid = unit_views(out@);
            let mut cur: Vec<Block> = Vec::new();
            cur.push(cell_block(row[c].runs.as_slice()));
            let mut des: Vec<Block> = Vec::new();
            des.push(cell_block(table.rows[r][c].as_slice()));
            let unit = EditUnit { start_index: row[c].start_index, cur, des, final_newline: true };
            assert(block_views(cur@) =~= seq![cell_para(run_views(row@[c as int].runs@))]);
            assert(block_views(des@) =~= seq![
                cell_para(run_views(table.rows@[r as int]@[c as int]@)),
            ]);
            assert(unit@ == cell_unit(grid[r as int][c as int], rows[r as int][c as int]));
            out.push(unit);
            assert(unit_views(out@) =~= mid.push(unit@));
            assert(unit_views(out@) =~= before + row_units(
                grid[r as int],
                rows[r as int],
                c + 1,
            ));
        }
        assert(unit_views(out@) =~= start + grid_units(grid, rows, r + 1));
    }
}

/// The regions of a document that should hold the parts `des`.
pub fn collect_units(current: &[CurNode], des: &Vec<DesNode>) -> (r: Vec<EditUnit>)
    requires
        forall|i: int|
            0 <= i < shorter(current@.len(), des@.len()) ==> #[trigger] pair_covered(
                cur_views(current@)[i],
                des_views(des@)[i],
            ),
    ensures
        unit_views(r@) == units_of(
            cur_views(current@),
            des_views(des@),
            shorter(current@.len(), des@.len()),
        ),
{
    let ghost cv = cur_views(current@);
    let ghost dv = des_views(des@);
    let n: usize = if current.len() < des.len() {
        current.len()
    } else {
        des.len()
    };
    let mut out: Vec<EditUnit> = Vec::new();
    assert(unit_views(out@) =~= Seq::<UnitV>::empty());
    for i in 0..n
        invariant
            n == shorter(current@.len(), des@.len()),
            cv == cur_views(current@),
            dv == des_views(des@),
            forall|i: int| 0 <= i < n ==> #[trigger] pair_covered(cv[i], dv[i]),
            unit_views(out@) == units_of(cv, dv, i as int),
    {
        let ghost before = unit_views(out@);
        assert(pair_covered(cv[i as int], dv[i as int]));
        assert(cv[i as int] == current@[i as int]@);
        assert(dv[i as int] == des@[i as int]@);
        match (&current[i], &des[i]) {
            (CurNode::Paras(seg), DesNode::Paras(bs)) => {
                let unit = EditUnit {
                    start_index: seg.start_index,
                    cur: copy_blocks(seg.blocks.as_slice()),
                    des: copy_blocks(bs.as_slice()),
                    final_newline: true,
                };
                out.push(unit);
                assert(unit_views(out@) =~= before + seq![unit@]);
            },
            (CurNode::Table { cells, .. }, DesNode::Table(t)) => {
                let cols: usize = if cells.len() == 0 {
                    0
                } else {
                    cells[0].len()
                };
                assert(cols == grid_columns(grid_views(cells@)));
                assert(t@.len() == t.rows@.len());
                if cells.len() == t.rows.len() && cols == t.columns() {
                    push_cells(&mut out, cells, t);
                } else {
                    assert(before + Seq::<UnitV>::empty() =~= before);
                }
            },
            _ => {
                assert(pair_units(cv[i as int], dv[i as int]) =~= Seq::<UnitV>::empty());
                assert(before + Seq::<UnitV>::empty() =~= before);
            },
        }
    }
    out
}

/// Whether the regions of the document hold what they should.
pub open spec fn settled(units: Seq<UnitV>) -> bool {
    forall|i: int| 0 <= i < units.len() ==> (#[trigger] units[i]).cur == units[i].des
}

/// In every region, the text edits give the desired text and the final line feed stays.
pub open spec fn regions_reached(units: Seq<UnitV>) -> bool {
    forall|i: int|
        0 <= i < units.len() ==> edits_reach(#[trigger] units[i]) && keeps_region(units[i])
}

/// Sync over the positioned nodes of a document: paragraphs anywhere, and the cells of
/// tables whose dimensions are unchanged. Nodes pair with the parts of the desired model
/// by position; a pair of different kinds is skipped. The region with the highest start
/// comes first, so that lower indices stay valid.
pub fn sync_nodes(current: &[CurNode], desired: &DocModel) -> (r: Vec<Request>)
    requires
        cells_covered(cur_views(current@), node_views(desired@)),
        units_fit(all_units(cur_views(current@), node_views(desired@))),
    ensures
        request_views(r@) == node_requests(cur_views(current@), node_views(desired@)),
        // A document that holds the model needs no request.
        settled(all_units(cur_views(current@), node_views(desired@))) ==> r@.len() == 0,
        // Every region comes to its text, and no deletion reaches its final line feed.
        regions_reached(all_units(cur_views(current@), node_views(desired@))),
        // Applied to a document in which the regions stand, the requests bring each of them
        // to its text and leave the rest.
        document_reached(cur_views(current@), node_views(desired@)),
{
    let des = desired_sequence(desired);
    let ghost dv = des_views(des@);
    assert(cur_views(current@).len() == current@.len() && dv.len() == des@.len());
    let units = collect_units(current, &des);
    let ghost us = unit_views(units@);
    assert(us == all_units(cur_views(current@), node_views(desired@)));
    let n: usize = units.len();
    let mut starts: Vec<usize> = Vec::new();
    for i in 0..n
        invariant
            n == units@.len(),
            starts@.len() == i,
            forall|k: int| 0 <= k < i ==> (#[trigger] starts@[k]) == units@[k].start_index,
    {
        starts.push(units[i].start_index);
    }
    assert(key_views(starts@) =~= unit_starts(us));
    let order = descending_order(&starts);
    let ghost ov = key_views(order@);
    let mut out: Vec<Request> = Vec::new();
    assert(request_views(out@) =~= Seq::<RequestV>::empty());
    for i in 0..n
        invariant
            n == units@.len(),
            us == unit_views(units@),
            units_fit(us),
            order@.len() == n,
            ov == key_views(order@),
            forall|k: int| 0 <= k < n ==> (#[trigger] order@[k]) < n,
            request_views(out@) == requests_in_order(us, ov, i as int),
            settled(us) ==> out@.len() == 0,
            forall|m: int|
                0 <= m < i ==> edits_reach(us[#[trigger] ov[m]]) && keeps_region(us[ov[m]]),
    {
        let k: usize = order[i];
        assert(us[k as int] == units@[k as int]@);
        assert(us[k as int].fits());
        let reqs = sync_unit(&units[k]);
        assert(settled(us) ==> us[k as int].cur == us[k as int].des);
        extend_requests(&mut out, reqs);
        assert(request_views(out@).len() == out@.len());
        assert(request_views(reqs@).len() == reqs@.len());
    }
    proof {
        assert forall|k: int| 0 <= k < us.len() implies edits_reach(#[trigger] us[k])
            && keeps_region(us[k]) by {
            lemma_order_covers(unit_starts(us), k);
            let m = choose|m: int|
                0 <= m < us.len() && #[trigger] order_of(unit_starts(us))[m] == k;
            assert(ov[m] == k);
        }
        law_document_reached(cur_views(current@), node_views(desired@));
    }
    out
}

} // verus!
