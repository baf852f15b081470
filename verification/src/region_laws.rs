//! What a sync makes of a whole document: every region comes to its text, and everything
//! around the regions stays as it is.
use crate::list_laws::{
    all_tame, law_region_reached, lemma_list_apply_add, list_applied16, list_applies16,
    list_apply_all16,
};
use crate::model::{NodeV, RunV};
use crate::nodes::{
    all_units, des_sequence, grid_units, node_requests, pair_units, requests_in_order, row_units,
    unit_starts, units_of, CellV, CurNodeV, DesV,
};
use crate::order::{law_order, order_of};
use crate::request::{shift_all, shifted, RequestV};
use crate::sync::{blocks_plain, creates_none, edits_reach, reached_text, shorter, UnitV};
use crate::text::utf16_len;
use crate::text_laws::{lemma_utf16_length, utf16};
use vstd::prelude::*;

verus! {

/// A request that is moved along with the body does to it what it did before.
proof fn lemma_embedded_one(front: Seq<u16>, body: Seq<u16>, back: Seq<u16>, r: RequestV)
    requires
        list_applies16(body, r),
    ensures
        list_applies16(front + body + back, shifted(r, front.len() as int)),
        list_applied16(front + body + back, shifted(r, front.len() as int)) == front
            + list_applied16(body, r) + back,
{
    let n = front.len() as int;
    let whole = front + body + back;
    let out = list_applied16(whole, shifted(r, n));
    match r {
        RequestV::Insert { index, text } => {
            assert(whole.take(index - 1 + n) =~= front + body.take(index - 1));
            assert(whole.skip(index - 1 + n) =~= body.skip(index - 1) + back);
            assert(out =~= front + list_applied16(body, r) + back);
        },
        RequestV::Delete { start, end } => {
            assert(whole.take(start - 1 + n) =~= front + body.take(start - 1));
            assert(whole.skip(end - 1 + n) =~= body.skip(end - 1) + back);
            assert(out =~= front + list_applied16(body, r) + back);
        },
        RequestV::Bullets { start, end, .. } => {
            assert(whole.take(start - 1 + n) =~= front + body.take(start - 1));
            assert(whole.subrange(start - 1 + n, end - 1 + n) =~= body.subrange(start - 1, end - 1));
            assert(whole.skip(end - 1 + n) =~= body.skip(end - 1) + back);
            assert(out =~= front + list_applied16(body, r) + back);
        },
        _ => {},
    }
}

/// Requests that are moved along with the body do to it what they did before.
proof fn lemma_embedded(front: Seq<u16>, body: Seq<u16>, back: Seq<u16>, rs: Seq<RequestV>)
    requires
        list_apply_all16(body, rs) is Some,
    ensures
        list_apply_all16(front + body + back, shift_all(rs, front.len() as int)) == Some(
            front + list_apply_all16(body, rs)->0 + back,
        ),
    decreases rs.len(),
{
    if rs.len() > 0 {
        let init = rs.drop_last();
        let n = front.len() as int;
        lemma_embedded(front, body, back, init);
        let mid = list_apply_all16(body, init)->0;
        lemma_embedded_one(front, mid, back, rs.last());
        assert(shift_all(rs, n).drop_last() =~= shift_all(init, n));
    }
}

/// The text of the region can be edited to what it should be: no inline object would have
/// to be created, and no list item has a tab of its own at the start of a line, which making
/// the list would take.
pub open spec fn writable(u: UnitV) -> bool {
    &&& all_tame(u.des)
    &&& creates_none(u)
}

/// Where the region ends: the index behind its last line feed.
pub open spec fn region_end(u: UnitV) -> int {
    u.start + utf16_len(blocks_plain(u.cur))
}

/// The requests of a region bring its text to what it should be, wherever it stands, and
/// leave what stands around it alone.
pub proof fn law_region_in_place(u: UnitV, front: Seq<u16>, back: Seq<u16>)
    requires
        u.final_newline,
        edits_reach(u),
        writable(u),
        front.len() == u.start - 1,
    ensures
        list_apply_all16(front + utf16(blocks_plain(u.cur)) + back, u.requests()) == Some(
            front + utf16(reached_text(u)) + back,
        ),
{
    let base = UnitV { start: 1, ..u };
    law_region_reached(base);
    lemma_embedded(front, utf16(blocks_plain(u.cur)), back, base.requests());
    assert(shift_all(base.requests(), u.start - 1) =~= u.requests()) by {
        assert forall|i: int| 0 <= i < u.requests().len() implies shifted(
            base.requests()[i],
            u.start - 1,
        ) == u.requests()[i] by {}
    }
}

/// The regions stand in the document: each has its text at its place, and no two of them
/// start together or overlap.
pub open spec fn placed(doc: Seq<u16>, units: Seq<UnitV>) -> bool {
    &&& forall|i: int|
        0 <= i < units.len() ==> 1 <= (#[trigger] units[i]).start && region_end(units[i])
            <= doc.len() + 1 && doc.subrange(units[i].start - 1, region_end(units[i]) - 1) == utf16(
            blocks_plain(units[i].cur),
        )
    &&& forall|i: int, j: int|
        #![trigger units[i], units[j]]
        0 <= i < units.len() && 0 <= j < units.len() && i != j ==> units[i].start != units[j].start
            && (region_end(units[i]) <= units[j].start || region_end(units[j]) <= units[i].start)
}

/// The document with the text of the region replaced by what it comes to.
pub open spec fn with_region(doc: Seq<u16>, u: UnitV) -> Seq<u16> {
    doc.take(u.start - 1) + utf16(reached_text(u)) + doc.skip(region_end(u) - 1)
}

/// The document with the first `k` regions of the order replaced, one after the other.
pub open spec fn with_regions(
    doc: Seq<u16>,
    units: Seq<UnitV>,
    order: Seq<int>,
    k: int,
) -> Seq<u16>
    decreases k,
{
    if k <= 0 {
        doc
    } else {
        with_region(with_regions(doc, units, order, k - 1), units[order[k - 1]])
    }
}

/// Whatever text a document has around the regions, the requests bring each region to its
/// text and leave the rest.
pub open spec fn document_reached(cur: Seq<CurNodeV>, model: Seq<NodeV>) -> bool {
    let units = all_units(cur, model);
    (forall|i: int| 0 <= i < units.len() ==> writable(#[trigger] units[i])) ==> forall|
        doc: Seq<u16>,
    | #[trigger]
        placed(doc, units) ==> list_apply_all16(doc, node_requests(cur, model)) == Some(
            with_regions(doc, units, order_of(unit_starts(units)), units.len() as int),
        )
}

/// The order visits no region twice.
proof fn lemma_order_distinct(keys: Seq<int>, i: int, j: int)
    requires
        0 <= i < j < keys.len(),
    ensures
        order_of(keys)[i] != order_of(keys)[j],
{
    law_order(keys);
    let all = Seq::new(keys.len(), |k: int| k);
    assert(all.no_duplicates());
    all.lemma_multiset_has_no_duplicates();
    order_of(keys).lemma_multiset_has_no_duplicates_conv();
}

/// The regions that come later in the order lie before the `k`-th, and those that were
/// replaced so far left that part of the document as it was.
proof fn lemma_front_stays(doc: Seq<u16>, units: Seq<UnitV>, k: int, p: int)
    requires
        placed(doc, units),
        0 <= k <= units.len(),
        0 <= p <= doc.len(),
        forall|i: int|
            0 <= i < k ==> p < units[#[trigger] order_of(unit_starts(units))[i]].start,
    ensures
        with_regions(doc, units, order_of(unit_starts(units)), k).take(p) == doc.take(p),
        p <= with_regions(doc, units, order_of(unit_starts(units)), k).len(),
    decreases k,
{
    if k > 0 {
        let order = order_of(unit_starts(units));
        lemma_front_stays(doc, units, k - 1, p);
        law_order(unit_starts(units));
        let u = units[order[k - 1]];
        let before = with_regions(doc, units, order, k - 1);
        assert forall|i: int| 0 <= i < k - 1 implies u.start - 1 < units[#[trigger] order[i]].start by {
            assert(unit_starts(units)[order[i]] >= unit_starts(units)[order[k - 1]]);
        }
        lemma_front_stays(doc, units, k - 1, u.start - 1);
        let after = with_region(before, u);
        assert(p <= u.start - 1);
        assert(after.take(p) =~= before.take(p));
    }
}

/// The requests of the first `k` regions of the order replace their texts.
proof fn lemma_regions_reached(doc: Seq<u16>, units: Seq<UnitV>, k: int)
    requires
        placed(doc, units),
        0 <= k <= units.len(),
        forall|i: int|
            0 <= i < units.len() ==> (#[trigger] units[i]).final_newline && edits_reach(units[i])
                && writable(units[i]),
    ensures
        list_apply_all16(doc, requests_in_order(units, order_of(unit_starts(units)), k)) == Some(
            with_regions(doc, units, order_of(unit_starts(units)), k),
        ),
    decreases k,
{
    if k > 0 {
        let starts = unit_starts(units);
        let order = order_of(starts);
        lemma_regions_reached(doc, units, k - 1);
        law_order(starts);
        let u = units[order[k - 1]];
        let e = region_end(u) - 1;
        let mid = with_regions(doc, units, order, k - 1);
        assert forall|i: int| 0 <= i < k - 1 implies e < units[#[trigger] order[i]].start by {
            lemma_order_distinct(starts, i, k - 1);
            assert(starts[order[i]] >= starts[order[k - 1]]);
            let a = units[order[i]];
            assert(a.start != u.start && (region_end(a) <= u.start || region_end(u) <= a.start));
        }
        lemma_front_stays(doc, units, k - 1, e);
        lemma_utf16_length(blocks_plain(u.cur));
        let front = mid.take(u.start - 1);
        let back = mid.skip(e);
        let body = utf16(blocks_plain(u.cur));
        assert(mid.take(e).subrange(u.start - 1, e) =~= mid.subrange(u.start - 1, e));
        assert(doc.take(e).subrange(u.start - 1, e) =~= doc.subrange(u.start - 1, e));
        assert(front + body + back =~= mid);
        law_region_in_place(u, front, back);
        lemma_list_apply_add(doc, requests_in_order(units, order, k - 1), u.requests());
    }
}

proof fn lemma_row_final(cells: Seq<CellV>, row: Seq<Seq<RunV>>, c: int)
    ensures
        forall|i: int|
            0 <= i < row_units(cells, row, c).len() ==> (#[trigger] row_units(
                cells,
                row,
                c,
            )[i]).final_newline,
    decreases c,
{
    if c > 0 {
        lemma_row_final(cells, row, c - 1);
        let a = row_units(cells, row, c - 1);
        let all = row_units(cells, row, c);
        assert forall|i: int| 0 <= i < all.len() implies (#[trigger] all[i]).final_newline by {
            if i < a.len() {
                assert(all[i] == a[i]);
            }
        }
    }
}

proof fn lemma_grid_final(
    cells: Seq<Seq<CellV>>,
    rows: Seq<Seq<Seq<RunV>>>,
    r: int,
)
    ensures
        forall|i: int|
            0 <= i < grid_units(cells, rows, r).len() ==> (#[trigger] grid_units(
                cells,
                rows,
                r,
            )[i]).final_newline,
    decreases r,
{
    if r > 0 {
        lemma_grid_final(cells, rows, r - 1);
        lemma_row_final(cells[r - 1], rows[r - 1], cells[r - 1].len() as int);
        let a = grid_units(cells, rows, r - 1);
        let b = row_units(cells[r - 1], rows[r - 1], cells[r - 1].len() as int);
        let all = grid_units(cells, rows, r);
        assert forall|i: int| 0 <= i < all.len() implies (#[trigger] all[i]).final_newline by {
            if i < a.len() {
                assert(all[i] == a[i]);
            } else {
                assert(all[i] == b[i - a.len()]);
            }
        }
    }
}

/// Every region of a document ends with a line feed that cannot be moved.
proof fn lemma_units_final(cur: Seq<CurNodeV>, des: Seq<DesV>, n: int)
    ensures
        forall|i: int|
            0 <= i < units_of(cur, des, n).len() ==> (#[trigger] units_of(
                cur,
                des,
                n,
            )[i]).final_newline,
    decreases n,
{
    if n > 0 {
        lemma_units_final(cur, des, n - 1);
        let a = units_of(cur, des, n - 1);
        let b = pair_units(cur[n - 1], des[n - 1]);
        if let CurNodeV::Table { cells, .. } = cur[n - 1] {
            if let DesV::Table(rows) = des[n - 1] {
                lemma_grid_final(cells, rows, cells.len() as int);
            }
        }
        let all = units_of(cur, des, n);
        assert forall|i: int| 0 <= i < all.len() implies (#[trigger] all[i]).final_newline by {
            if i < a.len() {
                assert(all[i] == a[i]);
            } else {
                assert(all[i] == b[i - a.len()]);
            }
        }
    }
}

/// Where the text edits of every region reach, the requests of a document bring each region
/// to its text and leave the rest of the document as it was.
pub proof fn law_document_reached(cur: Seq<CurNodeV>, model: Seq<NodeV>)
    requires
        forall|i: int|
            0 <= i < all_units(cur, model).len() ==> edits_reach(#[trigger] all_units(cur, model)[i]),
    ensures
        document_reached(cur, model),
{
    let units = all_units(cur, model);
    let des = des_sequence(model);
    lemma_units_final(cur, des, shorter(cur.len(), des.len()));
    if forall|i: int| 0 <= i < units.len() ==> writable(#[trigger] units[i]) {
        assert forall|doc: Seq<u16>| #[trigger] placed(doc, units) implies list_apply_all16(
            doc,
            node_requests(cur, model),
        ) == Some(
            with_regions(doc, units, order_of(unit_starts(units)), units.len() as int),
        ) by {
            lemma_regions_reached(doc, units, units.len() as int);
        }
    }
}

} // verus!
