//! What all requests of a region together make of it: its text, its styles and its marks.
use crate::blocks::{block_script, dirty, para_start, Pass};
use crate::list_laws::all_tame;
use crate::model::{BlockKind, BlockV, RunV};
use crate::nodes::{grid_units, pair_units, row_units, same_dims, CellV, CurNodeV, DesV};
use crate::paragraph_laws::{
    all_after, hold_texts, law_all_styled, lemma_after_add, paragraphs_after, restyled, styled_as,
    Paragraph,
};
use crate::request::{shift_all, shifted, RequestV};
use crate::style_laws::{all_marked, law_inline_marks, lemma_marked_add, marks_of, run_marks, Mark};
use crate::style_pass::{
    block_requests, inline_from, inline_requests, lemma_list_end, list_end, list_requests,
    paragraph_requests, restyle_requests, run_requests, style_from, tab_requests, total_depth,
};
use crate::sync::{blocks_plain, lemma_plain_len, reached_text, UnitV};
use crate::text::utf16_len;
use vstd::prelude::*;

verus! {

// ---------------------------------------------------------------------------
// Styles and marks
// ---------------------------------------------------------------------------

/// No request is about marks.
spec fn no_marks(rs: Seq<RequestV>) -> bool {
    forall|i: int| 0 <= i < rs.len() ==> !((#[trigger] rs[i]) is Style)
}

/// All requests are about marks.
spec fn only_marks(rs: Seq<RequestV>) -> bool {
    forall|i: int| 0 <= i < rs.len() ==> (#[trigger] rs[i]) is Style
}

proof fn lemma_no_marks_add(a: Seq<RequestV>, b: Seq<RequestV>)
    requires
        no_marks(a),
        no_marks(b),
    ensures
        no_marks(a + b),
{
    assert forall|i: int| 0 <= i < (a + b).len() implies !((#[trigger] (a + b)[i]) is Style) by {
        if i < a.len() {
            assert((a + b)[i] == a[i]);
        } else {
            assert((a + b)[i] == b[i - a.len()]);
        }
    }
}

proof fn lemma_only_marks_add(a: Seq<RequestV>, b: Seq<RequestV>)
    requires
        only_marks(a),
        only_marks(b),
    ensures
        only_marks(a + b),
{
    assert forall|i: int| 0 <= i < (a + b).len() implies (#[trigger] (a + b)[i]) is Style by {
        if i < a.len() {
            assert((a + b)[i] == a[i]);
        } else {
            assert((a + b)[i] == b[i - a.len()]);
        }
    }
}

proof fn lemma_tabs_no_marks(bs: Seq<BlockV>, i: int, j: int)
    ensures
        no_marks(tab_requests(bs, i, j)),
    decreases j - i,
{
    if i < j {
        lemma_tabs_no_marks(bs, i + 1, j);
    }
}

proof fn lemma_style_no_marks(bs: Seq<BlockV>, set: Seq<bool>, i: int)
    requires
        0 <= i <= bs.len(),
    ensures
        no_marks(style_from(bs, set, i)),
    decreases bs.len() - i,
{
    if i < bs.len() {
        let kind = bs[i].kind;
        lemma_list_end(bs, kind, i + 1);
        let j = list_end(bs, kind, i + 1);
        lemma_style_no_marks(bs, set, j);
        lemma_style_no_marks(bs, set, i + 1);
        lemma_tabs_no_marks(bs, i, j);
        let list = list_requests(bs, i, j);
        assert(no_marks(list)) by {
            let tabs = tab_requests(bs, i, j);
            assert forall|k: int| 0 <= k < list.len() implies !((#[trigger] list[k]) is Style) by {
                if 2 <= k < 2 + tabs.len() {
                    assert(list[k] == tabs[k - 2]);
                }
            }
        }
        let own = block_requests(kind, para_start(bs, i), para_start(bs, i + 1));
        assert(no_marks(own));
        let none = Seq::<RequestV>::empty();
        lemma_no_marks_add(list, style_from(bs, set, j));
        lemma_no_marks_add(own, style_from(bs, set, i + 1));
        lemma_no_marks_add(none, style_from(bs, set, j));
        lemma_no_marks_add(none, style_from(bs, set, i + 1));
    }
}

proof fn lemma_runs_only_marks(runs: Seq<RunV>, start: int, i: int)
    ensures
        only_marks(run_requests(runs, start, i)),
    decreases runs.len() - i,
{
    if 0 <= i < runs.len() {
        lemma_runs_only_marks(runs, start, i + 1);
    }
}

proof fn lemma_inline_only_marks(bs: Seq<BlockV>, set: Seq<bool>, i: int)
    ensures
        only_marks(inline_from(bs, set, i)),
    decreases bs.len() - i,
{
    if 0 <= i < bs.len() {
        lemma_inline_only_marks(bs, set, i + 1);
        let start = para_start(bs, i);
        lemma_runs_only_marks(bs[i].runs, start, 0);
        let own = restyle_requests(bs[i], start);
        let none = Seq::<RequestV>::empty();
        lemma_only_marks_add(own, inline_from(bs, set, i + 1));
        lemma_only_marks_add(none, inline_from(bs, set, i + 1));
    }
}

proof fn lemma_marks_kept(marks: Seq<Mark>, rs: Seq<RequestV>)
    requires
        no_marks(rs),
    ensures
        all_marked(marks, rs) == marks,
    decreases rs.len(),
{
    if rs.len() > 0 {
        let init = rs.drop_last();
        assert forall|i: int| 0 <= i < init.len() implies !((#[trigger] init[i]) is Style) by {
            assert(init[i] == rs[i]);
        }
        lemma_marks_kept(marks, init);
        assert(!(rs[rs.len() - 1] is Style));
    }
}

proof fn lemma_paragraphs_kept(ps: Seq<Paragraph>, rs: Seq<RequestV>)
    requires
        only_marks(rs),
    ensures
        all_after(ps, rs) == ps,
    decreases rs.len(),
{
    if rs.len() > 0 {
        let init = rs.drop_last();
        assert forall|i: int| 0 <= i < init.len() implies (#[trigger] init[i]) is Style by {
            assert(init[i] == rs[i]);
        }
        lemma_paragraphs_kept(ps, init);
        assert(rs[rs.len() - 1] is Style);
        assert(paragraphs_after(ps, rs.last()) =~= ps);
    }
}

/// The requests of a region that follow its text edits.
pub open spec fn styling(u: UnitV) -> Seq<RequestV> {
    u.requests().skip(u.edits().len() as int)
}

/// Once its text is what it should be, the requests of a region that follow give every
/// paragraph its style, list and level, and every character its marks and its link, where the
/// paragraphs that need no work have theirs already.
pub proof fn law_unit_styled(u: UnitV, ps: Seq<Paragraph>, marks: Seq<Mark>)
    requires
        u.start == 1,
        hold_texts(ps, u.des),
        all_tame(u.des),
        marks.len() == para_start(u.des, u.des.len() as int) - 1,
        ({
            let set = dirty(Pass::Paragraph, block_script(u.cur, u.des), u.cur, u.des);
            forall|k: int|
                0 <= k < u.des.len() && !restyled(u.des, set, k) ==> (#[trigger] ps[k])
                    == styled_as(u.des[k])
        }),
        ({
            let set = dirty(Pass::Inline, block_script(u.cur, u.des), u.cur, u.des);
            forall|k: int|
                0 <= k < u.des.len() && !set[k] ==> #[trigger] marks_of(marks, u.des, k)
                    == run_marks(u.des[k].runs)
        }),
    ensures
        all_after(ps, styling(u)) == Seq::new(u.des.len(), |k: int| styled_as(u.des[k])),
        forall|k: int|
            0 <= k < u.des.len() ==> #[trigger] marks_of(all_marked(marks, styling(u)), u.des, k)
                == run_marks(u.des[k].runs),
{
    let p = paragraph_requests(u.cur, u.des);
    let i = inline_requests(u.cur, u.des);
    let all = u.edits() + p + i;
    assert(shift_all(all, 0) =~= all) by {
        assert forall|k: int| 0 <= k < all.len() implies shifted(all[k], 0) == all[k] by {}
    }
    assert(styling(u) =~= p + i);
    let steps = block_script(u.cur, u.des);
    lemma_style_no_marks(u.des, dirty(Pass::Paragraph, steps, u.cur, u.des), 0);
    let set = dirty(Pass::Inline, steps, u.cur, u.des);
    lemma_inline_only_marks(u.des, set, 0);
    law_all_styled(u.cur, u.des, ps);
    lemma_after_add(ps, p, i);
    lemma_paragraphs_kept(all_after(ps, p), i);
    lemma_marked_add(marks, p, i);
    lemma_marks_kept(marks, p);
    assert forall|k: int| 0 <= k < u.des.len() implies #[trigger] marks_of(
        all_marked(marks, styling(u)),
        u.des,
        k,
    ) == run_marks(u.des[k].runs) by {
        law_inline_marks(u.des, set, marks, k);
        assert(set[k] || marks_of(marks, u.des, k) == run_marks(u.des[k].runs));
    }
}

/// The indices of a request.
pub open spec fn indices_of(r: RequestV) -> (int, int) {
    match r {
        RequestV::Insert { index, .. } => (index, index),
        RequestV::Delete { start, end } => (start, end),
        RequestV::Paragraph { start, end, .. } => (start, end),
        RequestV::Bullets { start, end, .. } => (start, end),
        RequestV::NoBullets { start, end } => (start, end),
        RequestV::Style { start, end, .. } => (start, end),
    }
}

/// A region further on in the document gets the same requests, further on by as much.
pub proof fn law_unit_moved(u: UnitV, d: int, i: int)
    requires
        0 <= i < u.requests().len(),
    ensures
        ({
            let v = UnitV { start: u.start + d, ..u };
            let (a, b) = indices_of(u.requests()[i]);
            &&& v.requests().len() == u.requests().len()
            &&& indices_of(v.requests()[i]) == (a + d, b + d)
            &&& shifted(v.requests()[i], -d) == u.requests()[i]
        }),
{
}

// ---------------------------------------------------------------------------
// Regions
// ---------------------------------------------------------------------------

/// A region comes to the text of its paragraphs; one that has paragraphs and should have none
/// keeps an empty one.
pub proof fn law_reached_text(u: UnitV)
    ensures
        u.des.len() > 0 ==> reached_text(u) == blocks_plain(u.des),
        u.des.len() == 0 && u.cur.len() == 0 ==> reached_text(u).len() == 0,
        u.des.len() == 0 && u.cur.len() > 0 ==> reached_text(u) == seq!['\n'],
{
    if u.des.len() == 0 {
        assert(blocks_plain(u.des) =~= Seq::<char>::empty());
    }
}

/// The indices of a region fit just where it starts at an index, and the ends of its text
/// before and after, with a tab for each level of each paragraph, are indices.
pub proof fn law_fits(u: UnitV)
    ensures
        u.fits() <==> {
            &&& 1 <= u.start
            &&& u.start + utf16_len(blocks_plain(u.cur)) + 1 <= usize::MAX
            &&& u.start + utf16_len(blocks_plain(u.des)) + 1 + total_depth(
                u.des,
                0,
                u.des.len() as int,
            ) <= usize::MAX
        },
{
    lemma_plain_len(u.cur);
    lemma_plain_len(u.des);
}

/// The region of paragraphs is where they start, with what they are and what they should be.
pub proof fn law_paragraph_region(cur: CurNodeV, des: DesV)
    requires
        cur is Paras,
        des is Paras,
    ensures
        pair_units(cur, des).len() == 1,
        pair_units(cur, des)[0].start == cur->Paras_0.start,
        pair_units(cur, des)[0].cur == cur->Paras_0.blocks,
        pair_units(cur, des)[0].des == des->Paras_0,
        pair_units(cur, des)[0].final_newline,
{
}

/// A node has no region where it should be of another kind, and a table has none where it
/// should have other dimensions.
pub proof fn law_no_region(cur: CurNodeV, des: DesV)
    ensures
        !(cur is Paras && des is Paras) && !(cur is Table && des is Table) ==> pair_units(
            cur,
            des,
        ).len() == 0,
        cur is Table && des is Table && (cur->Table_cells.len() != des->Table_0.len() || (
        cur->Table_cells.len() > 0 && cur->Table_cells[0].len() != des->Table_0[0].len()))
            ==> pair_units(cur, des).len() == 0,
{
}

/// The cell's region: one normal paragraph where the cell starts.
pub open spec fn region_of_cell(u: UnitV, cell: CellV, runs: Seq<RunV>) -> bool {
    let now = BlockV { kind: BlockKind::Normal, depth: 0, runs: cell.runs };
    let then = BlockV { kind: BlockKind::Normal, depth: 0, runs };
    u == UnitV { start: cell.start, cur: seq![now], des: seq![then], final_newline: true }
}

proof fn lemma_row_regions(cells: Seq<CellV>, row: Seq<Seq<RunV>>, c: int)
    requires
        0 <= c,
    ensures
        row_units(cells, row, c).len() == c,
        forall|j: int|
            0 <= j < c ==> region_of_cell(#[trigger] row_units(cells, row, c)[j], cells[j], row[j]),
    decreases c,
{
    if c > 0 {
        lemma_row_regions(cells, row, c - 1);
        let before = row_units(cells, row, c - 1);
        let all = row_units(cells, row, c);
        assert forall|j: int| 0 <= j < c implies region_of_cell(
            #[trigger] all[j],
            cells[j],
            row[j],
        ) by {
            if j < c - 1 {
                assert(all[j] == before[j]);
            }
        }
    }
}

proof fn lemma_grid_regions(
    cells: Seq<Seq<CellV>>,
    rows: Seq<Seq<Seq<RunV>>>,
    r: int,
    i: int,
    j: int,
)
    requires
        0 <= i < r,
        0 <= j < cells[i].len(),
    ensures
        exists|k: int|
            0 <= k < grid_units(cells, rows, r).len() && region_of_cell(
                #[trigger] grid_units(cells, rows, r)[k],
                cells[i][j],
                rows[i][j],
            ),
    decreases r,
{
    let before = grid_units(cells, rows, r - 1);
    let own = row_units(cells[r - 1], rows[r - 1], cells[r - 1].len() as int);
    let all = grid_units(cells, rows, r);
    lemma_row_regions(cells[r - 1], rows[r - 1], cells[r - 1].len() as int);
    if i < r - 1 {
        lemma_grid_regions(cells, rows, r - 1, i, j);
        let k = choose|k: int|
            0 <= k < before.len() && region_of_cell(
                #[trigger] before[k],
                cells[i][j],
                rows[i][j],
            );
        assert(all[k] == before[k]);
    } else {
        assert(region_of_cell(own[j], cells[i][j], rows[i][j]));
        assert(all[before.len() + j] == own[j]);
    }
}

/// Every cell of a table whose dimensions agree is a region: where it starts, with the runs
/// that it has and those that it should have.
pub proof fn law_cell_regions(cur: CurNodeV, des: DesV, i: int, j: int)
    requires
        cur is Table,
        des is Table,
        ({
            let cells = cur->Table_cells;
            let rows = des->Table_0;
            &&& cells.len() == rows.len()
            &&& 0 <= i < cells.len()
            &&& 0 <= j < cells[i].len()
            &&& cells[0].len() == rows[0].len()
        }),
    ensures
        exists|k: int|
            0 <= k < pair_units(cur, des).len() && region_of_cell(
                #[trigger] pair_units(cur, des)[k],
                cur->Table_cells[i][j],
                des->Table_0[i][j],
            ),
{
    let cells = cur->Table_cells;
    let rows = des->Table_0;
    assert(same_dims(cells, rows));
    lemma_grid_regions(cells, rows, cells.len() as int, i, j);
    let all = grid_units(cells, rows, cells.len() as int);
    assert(pair_units(cur, des) == all);
    let k = choose|k: int|
        0 <= k < all.len() && region_of_cell(#[trigger] all[k], cells[i][j], rows[i][j]);
    assert(region_of_cell(pair_units(cur, des)[k], cells[i][j], rows[i][j]));
}

} // verus!
