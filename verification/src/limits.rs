//! Tests of the machine limits that a sync rests on.
use crate::blocks::{lemma_para_start, para_start};
use crate::model::{block_views, node_views, Block, DocModel, NodeV, Table};
use crate::nodes::{
    all_units, cells_covered, collect_units, cur_views, des_views, desired_sequence, grid_columns,
    grid_views, pair_covered, rows_covered, unit_views, units_fit, CellEdit, CurNode, CurNodeV,
    DesNode,
};
use crate::structure::{all_growable, all_resizes, growable, matched_tables};
use crate::style_pass::{lemma_total_depth, total_depth};
use crate::sync::{shorter, EditUnit};
use crate::text::{len_utf16, to_chars, units, utf16_len};
use vstd::prelude::*;

verus! {

/// The length of a text in UTF-16 units.
fn wide_len(s: &str) -> (r: u128)
    ensures
        r == utf16_len(s@),
        r <= 2 * usize::MAX,
{
    let cs = to_chars(s);
    let n: usize = cs.len();
    let mut acc: u128 = 0;
    assert(cs@.take(0) =~= Seq::<char>::empty());
    for i in 0..n
        invariant
            n == cs@.len(),
            acc == utf16_len(cs@.take(i as int)),
            acc <= 2 * i,
    {
        assert(cs@.take(i + 1).drop_last() =~= cs@.take(i as int));
        let w: usize = len_utf16(cs[i]);
        acc = acc + w as u128;
    }
    assert(cs@.take(n as int) =~= cs@);
    acc
}

/// Where a paragraph behind the blocks would start, where that is an index.
fn end_of_blocks(blocks: &[Block]) -> (r: Option<usize>)
    ensures
        match r {
            Some(e) => e == para_start(block_views(blocks@), blocks@.len() as int),
            None => para_start(block_views(blocks@), blocks@.len() as int) > usize::MAX,
        },
{
    let ghost bs = block_views(blocks@);
    let n: usize = blocks.len();
    let mut at: usize = 1;
    for i in 0..n
        invariant
            n == blocks@.len(),
            bs == block_views(blocks@),
            at == para_start(bs, i as int),
    {
        assert(bs[i as int] == blocks@[i as int]@);
        let text = blocks[i].text();
        let len: u128 = wide_len(text.as_str());
        let next: u128 = at as u128 + len + 1;
        if next > usize::MAX as u128 {
            proof {
                lemma_para_start(bs, i + 1, n as int);
            }
            return None;
        }
        at = next as usize;
    }
    Some(at)
}

/// The nesting levels of the blocks, added up.
fn depth_of_blocks(blocks: &[Block]) -> (r: u128)
    ensures
        r == total_depth(block_views(blocks@), 0, blocks@.len() as int),
        r <= 255 * usize::MAX,
{
    let ghost bs = block_views(blocks@);
    let n: usize = blocks.len();
    let mut sum: u128 = 0;
    for i in 0..n
        invariant
            n == blocks@.len(),
            bs == block_views(blocks@),
            sum == total_depth(bs, 0, i as int),
            sum <= 255 * i,
    {
        assert(bs[i as int] == blocks@[i as int]@);
        sum = sum + blocks[i].depth as u128;
    }
    sum
}

/// Whether the indices of a region fit.
pub fn unit_fits(u: &EditUnit) -> (r: bool)
    ensures
        r == u@.fits(),
{
    if u.start_index < 1 {
        return false;
    }
    match (end_of_blocks(u.cur.as_slice()), end_of_blocks(u.des.as_slice())) {
        (Some(a), Some(b)) => {
            let d: u128 = depth_of_blocks(u.des.as_slice());
            u.start_index as u128 + a as u128 <= usize::MAX as u128 && u.start_index as u128
                + b as u128 + d <= usize::MAX as u128
        },
        (None, _) => false,
        (_, None) => {
            proof {
                lemma_total_depth(u@.des, 0, 0, 0, u@.des.len() as int);
            }
            false
        },
    }
}

/// Whether every row of the document's table has a counterpart that is no shorter.
fn has_rows(cells: &Vec<Vec<CellEdit>>, table: &Table) -> (r: bool)
    requires
        cells@.len() == table.rows@.len(),
    ensures
        r == rows_covered(grid_views(cells@), table@),
{
    let ghost grid = grid_views(cells@);
    let n: usize = cells.len();
    for i in 0..n
        invariant
            n == cells@.len(),
            n == table.rows@.len(),
            grid == grid_views(cells@),
            forall|k: int| 0 <= k < i ==> (#[trigger] grid[k]).len() <= table@[k].len(),
    {
        assert(grid[i as int].len() == cells@[i as int]@.len());
        assert(table@[i as int].len() == table.rows@[i as int]@.len());
        if cells[i].len() > table.rows[i].len() {
            return false;
        }
    }
    true
}

/// Whether the pairs of nodes and parts have a counterpart for each cell.
fn has_cells(current: &[CurNode], des: &Vec<DesNode>) -> (r: bool)
    ensures
        r == (forall|i: int|
            0 <= i < shorter(current@.len(), des@.len()) ==> #[trigger] pair_covered(
                cur_views(current@)[i],
                des_views(des@)[i],
            )),
{
    let ghost cv = cur_views(current@);
    let ghost dv = des_views(des@);
    let n: usize = if current.len() < des.len() {
        current.len()
    } else {
        des.len()
    };
    for i in 0..n
        invariant
            n == shorter(current@.len(), des@.len()),
            cv == cur_views(current@),
            dv == des_views(des@),
            forall|k: int| 0 <= k < i ==> #[trigger] pair_covered(cv[k], dv[k]),
    {
        assert(cv[i as int] == current@[i as int]@);
        assert(dv[i as int] == des@[i as int]@);
        match (&current[i], &des[i]) {
            (CurNode::Table { cells, .. }, DesNode::Table(t)) => {
                let cols: usize = if cells.len() == 0 {
                    0
                } else {
                    cells[0].len()
                };
                assert(cols == grid_columns(grid_views(cells@)));
                assert(t@.len() == t.rows@.len());
                if cells.len() == t.rows.len() && cols == t.columns() && !has_rows(cells, t) {
                    assert(!pair_covered(cv[i as int], dv[i as int]));
                    return false;
                }
            },
            _ => {},
        }
    }
    true
}

/// What [`crate::nodes::sync_nodes`] asks for holds.
pub open spec fn syncable(cur: Seq<CurNodeV>, model: Seq<NodeV>) -> bool {
    cells_covered(cur, model) && units_fit(all_units(cur, model))
}

/// Whether [`crate::nodes::sync_nodes`] can be called: the document's tables have a
/// counterpart for each cell that is edited, and all indices fit.
pub fn can_sync(current: &[CurNode], desired: &DocModel) -> (r: bool)
    ensures
        r == syncable(cur_views(current@), node_views(desired@)),
{
    let des = desired_sequence(desired);
    let ghost us = all_units(cur_views(current@), node_views(desired@));
    assert(cur_views(current@).len() == current@.len() && des_views(des@).len() == des@.len());
    if !has_cells(current, &des) {
        assert(!cells_covered(cur_views(current@), node_views(desired@)));
        return false;
    }
    let units = collect_units(current, &des);
    assert(unit_views(units@) == us);
    let n: usize = units.len();
    for i in 0..n
        invariant
            n == units@.len(),
            us == unit_views(units@),
            us == all_units(cur_views(current@), node_views(desired@)),
            forall|k: int| 0 <= k < i ==> (#[trigger] us[k]).fits(),
    {
        assert(us[i as int] == units@[i as int]@);
        if !unit_fits(&units[i]) {
            assert(!us[i as int].fits());
            return false;
        }
    }
    true
}

/// Whether [`crate::structure::table_resize_requests`] can be called: every table that has
/// to grow has a row or column to grow from.
pub fn can_resize(current: &[CurNode], desired: &DocModel) -> (r: bool)
    ensures
        r == all_growable(all_resizes(cur_views(current@), node_views(desired@))),
{
    let tables = matched_tables(current, desired);
    let n: usize = tables.len();
    for i in 0..n
        invariant
            n == tables@.len(),
            tables@ == all_resizes(cur_views(current@), node_views(desired@)),
            forall|k: int| 0 <= k < i ==> growable(#[trigger] tables@[k]),
    {
        let t = &tables[i];
        if (t.des_rows > t.cur_rows && t.cur_rows == 0) || (t.des_cols > t.cur_cols && t.cur_cols
            == 0) {
            assert(!growable(tables@[i as int]));
            return false;
        }
    }
    true
}

} // verus!
