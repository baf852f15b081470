//! Laws of the sync: its requests can be made, they keep to their region, and they give
//! the desired text.
use crate::blocks::{block_script, dirty, lemma_para_start, para_start, Pass};
use crate::diff::{char_script, EditStep};
use crate::model::{list_kind_of, BlockV, NodeV, RunV, OBJECT_SENTINEL};
use crate::nodes::{all_units, unit_starts, CurNodeV};
use crate::order::{law_order, order_of};
use crate::render::plain_text;
use crate::request::{all_within, indices_within, shifted, RequestV};
use crate::style_pass::{
    block_requests, inline_from, inline_requests, lemma_list_end, list_end, list_requests,
    paragraph_requests, restyle_requests, run_requests, style_from, tab_requests,
};
use crate::sync::{
    barrier_count, blocks_plain, feasible, law_run_count, lemma_sift, paragraph_runs, sift, UnitV,
};
use crate::text::{repeat, utf16_len};
use crate::text_laws::{all_spare, apply_all16, lemma_apply_add16, spares};
use crate::text_pass::{body_requests, ends_line, script_requests, step_requests, text_requests};
use vstd::prelude::*;

verus! {

/// All requests can be made: none inserts an inline object or deletes an empty range.
pub open spec fn all_feasible(rs: Seq<RequestV>) -> bool {
    forall|i: int| 0 <= i < rs.len() ==> feasible(#[trigger] rs[i])
}

/// The request changes no text.
pub open spec fn still(r: RequestV) -> bool {
    !(r is Insert) && !(r is Delete)
}

/// No request changes text.
pub open spec fn all_still(rs: Seq<RequestV>) -> bool {
    forall|i: int| 0 <= i < rs.len() ==> still(#[trigger] rs[i])
}

proof fn lemma_feasible_add(a: Seq<RequestV>, b: Seq<RequestV>)
    ensures
        all_feasible(a) && all_feasible(b) ==> all_feasible(a + b),
        all_still(a) && all_still(b) ==> all_still(a + b),
{
    if all_feasible(a) && all_feasible(b) {
        assert forall|i: int| 0 <= i < (a + b).len() implies feasible(#[trigger] (a + b)[i]) by {
            if i < a.len() {
                assert(feasible(a[i]));
            } else {
                assert(feasible(b[i - a.len()]));
            }
        }
    }
    if all_still(a) && all_still(b) {
        assert forall|i: int| 0 <= i < (a + b).len() implies still(#[trigger] (a + b)[i]) by {
            if i < a.len() {
                assert(still(a[i]));
            } else {
                assert(still(b[i - a.len()]));
            }
        }
    }
}

/// Tabs can be inserted, and where no item is nested there are none.
proof fn lemma_tabs(bs: Seq<BlockV>, i: int, j: int)
    requires
        0 <= i <= j <= bs.len(),
    ensures
        all_feasible(tab_requests(bs, i, j)),
        (forall|k: int| 0 <= k < bs.len() ==> (#[trigger] bs[k]).depth == 0) ==> tab_requests(
            bs,
            i,
            j,
        ).len() == 0,
    decreases j - i,
{
    if i < j {
        lemma_tabs(bs, i + 1, j);
        let t = repeat('\t', bs[i].depth as nat);
        assert(!t.contains(OBJECT_SENTINEL)) by {
            if t.contains(OBJECT_SENTINEL) {
                let q = choose|q: int| 0 <= q < t.len() && t[q] == OBJECT_SENTINEL;
            }
        }
    }
}

/// Paragraph-style requests can be made, and where no item is nested they change no text.
pub proof fn lemma_style_effect(bs: Seq<BlockV>, flags: Seq<bool>, i: int)
    requires
        0 <= i <= bs.len(),
    ensures
        all_feasible(style_from(bs, flags, i)),
        (forall|k: int| 0 <= k < bs.len() ==> (#[trigger] bs[k]).depth == 0) ==> all_still(
            style_from(bs, flags, i),
        ),
    decreases bs.len() - i,
{
    if i < bs.len() {
        lemma_list_end(bs, bs[i].kind, i + 1);
        if list_kind_of(bs[i].kind) {
            let j = list_end(bs, bs[i].kind, i + 1);
            lemma_style_effect(bs, flags, j);
            lemma_tabs(bs, i, j);
            let own = list_requests(bs, i, j);
            let tabs = tab_requests(bs, i, j);
            assert forall|k: int| 0 <= k < own.len() implies feasible(#[trigger] own[k]) by {
                if 2 <= k < 2 + tabs.len() {
                    assert(own[k] == tabs[k - 2]);
                }
            }
            if tabs.len() == 0 {
                assert forall|k: int| 0 <= k < own.len() implies still(#[trigger] own[k]) by {}
            }
            lemma_feasible_add(own, style_from(bs, flags, j));
            lemma_feasible_add(Seq::empty(), style_from(bs, flags, j));
        } else {
            lemma_style_effect(bs, flags, i + 1);
            let own = block_requests(
                bs[i].kind,
                para_start(bs, i),
                para_start(bs, i + 1),
            );
            assert forall|k: int| 0 <= k < own.len() implies still(#[trigger] own[k]) && feasible(
                own[k],
            ) by {}
            lemma_feasible_add(own, style_from(bs, flags, i + 1));
            lemma_feasible_add(Seq::empty(), style_from(bs, flags, i + 1));
        }
    }
}

/// The requests on a paragraph's runs change no text.
proof fn lemma_runs_still(runs: Seq<RunV>, start: int, i: int)
    requires
        0 <= i <= runs.len(),
    ensures
        all_still(run_requests(runs, start, i)),
    decreases runs.len() - i,
{
    if i < runs.len() {
        lemma_runs_still(runs, start, i + 1);
    }
}

/// Inline-style requests change no text.
pub proof fn lemma_inline_effect(bs: Seq<BlockV>, flags: Seq<bool>, i: int)
    requires
        0 <= i <= bs.len(),
    ensures
        all_still(inline_from(bs, flags, i)),
        all_feasible(inline_from(bs, flags, i)),
    decreases bs.len() - i,
{
    if i < bs.len() {
        lemma_inline_effect(bs, flags, i + 1);
        let start = para_start(bs, i);
        lemma_runs_still(bs[i].runs, start, 0);
        let own = restyle_requests(bs[i], start);
        let inner = run_requests(bs[i].runs, start, 0);
        assert forall|k: int| 0 <= k < own.len() implies still(#[trigger] own[k]) by {
            if k > 0 {
                assert(own[k] == inner[k - 1]);
            }
        }
        lemma_feasible_add(own, inline_from(bs, flags, i + 1));
        lemma_feasible_add(Seq::empty(), inline_from(bs, flags, i + 1));
    }
}

/// Requests that change no text leave it as it is.
pub proof fn lemma_still(body: Seq<u16>, rs: Seq<RequestV>)
    requires
        all_still(rs),
    ensures
        apply_all16(body, rs) == Some(body),
    decreases rs.len(),
{
    if rs.len() > 0 {
        let init = rs.drop_last();
        assert forall|i: int| 0 <= i < init.len() implies still(#[trigger] init[i]) by {
            assert(still(rs[i]));
        }
        lemma_still(body, init);
        assert(still(rs[rs.len() - 1]));
    }
}

/// No request of a region inserts an inline object, which cannot be created, or deletes an
/// empty range.
pub proof fn law_requests_feasible(u: UnitV)
    ensures
        all_feasible(u.requests()),
{
    lemma_sift(
        if u.final_newline {
            body_requests(blocks_plain(u.cur), blocks_plain(u.des))
        } else {
            text_requests(blocks_plain(u.cur), blocks_plain(u.des))
        },
    );
    let styles = paragraph_requests(u.cur, u.des);
    let inlines = inline_requests(u.cur, u.des);
    lemma_style_effect(
        u.des,
        dirty(
            Pass::Paragraph,
            block_script(u.cur, u.des),
            u.cur,
            u.des,
        ),
        0,
    );
    lemma_inline_effect(
        u.des,
        dirty(
            Pass::Inline,
            block_script(u.cur, u.des),
            u.cur,
            u.des,
        ),
        0,
    );
    lemma_feasible_add(u.edits(), styles);
    lemma_feasible_add(u.edits() + styles, inlines);
    let all = u.edits() + styles + inlines;
    assert forall|i: int| 0 <= i < u.requests().len() implies feasible(
        #[trigger] u.requests()[i],
    ) by {
        assert(feasible(all[i]));
    }
}

/// Where no list item is nested, the requests of a region do to its text what its text
/// edits do.
pub proof fn lemma_unit_effect(u: UnitV, body: Seq<u16>)
    requires
        forall|k: int| 0 <= k < u.des.len() ==> (#[trigger] u.des[k]).depth == 0,
        u.start == 1,
    ensures
        apply_all16(body, u.requests()) == apply_all16(body, u.edits()),
{
    let styles = paragraph_requests(u.cur, u.des);
    let inlines = inline_requests(u.cur, u.des);
    let script = block_script(u.cur, u.des);
    lemma_style_effect(
        u.des,
        dirty(Pass::Paragraph, script, u.cur, u.des),
        0,
    );
    lemma_inline_effect(
        u.des,
        dirty(Pass::Inline, script, u.cur, u.des),
        0,
    );
    let all = u.edits() + styles + inlines;
    assert(u.requests() =~= all) by {
        assert forall|i: int| 0 <= i < all.len() implies shifted(all[i], 0) == all[i] by {}
    }
    lemma_apply_add16(body, u.edits(), styles);
    lemma_apply_add16(body, u.edits() + styles, inlines);
    if let Some(mid) = apply_all16(body, u.edits()) {
        lemma_still(mid, styles);
        lemma_still(mid, inlines);
    }
}

/// A model without barriers is one paragraph run, and its plain text is the run's.
pub proof fn lemma_one_run(nodes: Seq<NodeV>)
    requires
        barrier_count(nodes) == 0,
    ensures
        paragraph_runs(nodes).len() == 1,
        plain_text(nodes) == blocks_plain(paragraph_runs(nodes)[0]),
        paragraph_runs(nodes)[0].len() == nodes.len(),
        forall|k: int|
            0 <= k < nodes.len() ==> (#[trigger] nodes[k]) == NodeV::Para(
                paragraph_runs(nodes)[0][k],
            ),
    decreases nodes.len(),
{
    law_run_count(nodes);
    if nodes.len() > 0 {
        let init = nodes.drop_last();
        lemma_one_run(init);
        let before = paragraph_runs(init);
        let b = nodes.last()->Para_0;
        let run = paragraph_runs(nodes)[0];
        assert(run == before[0].push(b));
        assert(run.drop_last() =~= before[0]);
        assert(plain_text(init) + (b.text() + seq!['\n']) =~= plain_text(init) + b.text() + seq![
            '\n',
        ]);
        assert forall|k: int| 0 <= k < nodes.len() implies (#[trigger] nodes[k]) == NodeV::Para(
            run[k],
        ) by {
            if k < init.len() {
                assert(init[k] == nodes[k]);
            }
        }
    }
}

// ---------------------------------------------------------------------------
// Regions
// ---------------------------------------------------------------------------

/// The request touches nothing before the index `min`.
pub open spec fn starts_from(r: RequestV, min: int) -> bool {
    match r {
        RequestV::Insert { index, .. } => min <= index,
        RequestV::Delete { start, .. } => min <= start,
        RequestV::Paragraph { start, .. } => min <= start,
        RequestV::Bullets { start, .. } => min <= start,
        RequestV::NoBullets { start, .. } => min <= start,
        RequestV::Style { start, .. } => min <= start,
    }
}

/// No request touches anything before the index `min`.
pub open spec fn all_from(rs: Seq<RequestV>, min: int) -> bool {
    forall|i: int| 0 <= i < rs.len() ==> starts_from(#[trigger] rs[i], min)
}

proof fn lemma_from_add(a: Seq<RequestV>, b: Seq<RequestV>, min: int)
    requires
        all_from(a, min),
        all_from(b, min),
    ensures
        all_from(a + b, min),
{
    assert forall|i: int| 0 <= i < (a + b).len() implies starts_from(#[trigger] (a + b)[i], min) by {
        if i < a.len() {
            assert(starts_from(a[i], min));
        } else {
            assert(starts_from(b[i - a.len()], min));
        }
    }
}

proof fn lemma_script_from(
    steps: Seq<EditStep>,
    old: Seq<char>,
    new: Seq<char>,
    k: int,
    m: int,
)
    ensures
        all_from(script_requests(steps, old, new, k, m), 1),
    decreases m - k,
{
    if k < m {
        lemma_script_from(steps, old, new, k + 1, m);
        lemma_from_add(
            script_requests(steps, old, new, k + 1, m),
            step_requests(steps, old, new, k),
            1,
        );
    }
}

/// The text edits of a region touch nothing before it.
proof fn lemma_edits_from(u: UnitV)
    ensures
        all_from(u.edits(), 1),
{
    let old = blocks_plain(u.cur);
    let new = blocks_plain(u.des);
    let steps = char_script(old, new);
    lemma_script_from(steps, old, new, 0, steps.len() as int);
    let texts = text_requests(old, new);
    let raw = if u.final_newline {
        body_requests(old, new)
    } else {
        texts
    };
    assert forall|i: int| 0 <= i < raw.len() implies starts_from(#[trigger] raw[i], 1) by {
        assert(starts_from(texts[i], 1));
        if u.final_newline && ends_line(old) {
            assert(utf16_len(old) >= 1);
        }
    }
    lemma_sift(raw);
    assert forall|i: int| 0 <= i < sift(raw).len() implies starts_from(
        #[trigger] sift(raw)[i],
        1,
    ) by {
        let k = choose|k: int| 0 <= k < raw.len() && raw[k] == sift(raw)[i];
        assert(starts_from(raw[k], 1));
    }
}

proof fn lemma_tabs_from(bs: Seq<BlockV>, i: int, j: int)
    requires
        0 <= i <= j <= bs.len(),
    ensures
        all_from(tab_requests(bs, i, j), 1),
    decreases j - i,
{
    if i < j {
        lemma_tabs_from(bs, i + 1, j);
        lemma_para_start(bs, i, i);
    }
}

proof fn lemma_style_from(bs: Seq<BlockV>, flags: Seq<bool>, i: int)
    requires
        0 <= i <= bs.len(),
    ensures
        all_from(style_from(bs, flags, i), 1),
    decreases bs.len() - i,
{
    if i < bs.len() {
        lemma_list_end(bs, bs[i].kind, i + 1);
        lemma_para_start(bs, i, i);
        if list_kind_of(bs[i].kind) {
            let j = list_end(bs, bs[i].kind, i + 1);
            lemma_style_from(bs, flags, j);
            lemma_tabs_from(bs, i, j);
            let own = list_requests(bs, i, j);
            let tabs = tab_requests(bs, i, j);
            assert forall|k: int| 0 <= k < own.len() implies starts_from(#[trigger] own[k], 1) by {
                if 2 <= k < 2 + tabs.len() {
                    assert(own[k] == tabs[k - 2]);
                }
            }
            lemma_from_add(own, style_from(bs, flags, j), 1);
            lemma_from_add(Seq::empty(), style_from(bs, flags, j), 1);
        } else {
            lemma_style_from(bs, flags, i + 1);
            let own = block_requests(bs[i].kind, para_start(bs, i), para_start(bs, i + 1));
            lemma_from_add(own, style_from(bs, flags, i + 1), 1);
            lemma_from_add(Seq::empty(), style_from(bs, flags, i + 1), 1);
        }
    }
}

proof fn lemma_runs_from(runs: Seq<RunV>, start: int, i: int)
    requires
        1 <= start,
        0 <= i <= runs.len(),
    ensures
        all_from(run_requests(runs, start, i), 1),
    decreases runs.len() - i,
{
    if i < runs.len() {
        lemma_runs_from(runs, start, i + 1);
    }
}

proof fn lemma_inline_from(bs: Seq<BlockV>, flags: Seq<bool>, i: int)
    requires
        0 <= i <= bs.len(),
    ensures
        all_from(inline_from(bs, flags, i), 1),
    decreases bs.len() - i,
{
    if i < bs.len() {
        lemma_inline_from(bs, flags, i + 1);
        let start = para_start(bs, i);
        lemma_para_start(bs, i, i);
        lemma_runs_from(bs[i].runs, start, 0);
        let own = restyle_requests(bs[i], start);
        let inner = run_requests(bs[i].runs, start, 0);
        assert forall|k: int| 0 <= k < own.len() implies starts_from(#[trigger] own[k], 1) by {
            if k > 0 {
                assert(own[k] == inner[k - 1]);
            }
        }
        lemma_from_add(own, inline_from(bs, flags, i + 1), 1);
        lemma_from_add(Seq::empty(), inline_from(bs, flags, i + 1), 1);
    }
}

/// No request deletes text.
pub open spec fn no_cuts(rs: Seq<RequestV>) -> bool {
    forall|i: int| 0 <= i < rs.len() ==> !((#[trigger] rs[i]) is Delete)
}

proof fn lemma_no_cuts_add(a: Seq<RequestV>, b: Seq<RequestV>)
    requires
        no_cuts(a),
        no_cuts(b),
    ensures
        no_cuts(a + b),
{
    assert forall|i: int| 0 <= i < (a + b).len() implies !((#[trigger] (a + b)[i]) is Delete) by {
        if i < a.len() {
            assert(!(a[i] is Delete));
        } else {
            assert(!(b[i - a.len()] is Delete));
        }
    }
}

proof fn lemma_tabs_no_cuts(bs: Seq<BlockV>, i: int, j: int)
    ensures
        no_cuts(tab_requests(bs, i, j)),
    decreases j - i,
{
    if i < j {
        lemma_tabs_no_cuts(bs, i + 1, j);
    }
}

/// The paragraph styles delete no text.
proof fn lemma_style_no_cuts(bs: Seq<BlockV>, flags: Seq<bool>, i: int)
    requires
        0 <= i <= bs.len(),
    ensures
        no_cuts(style_from(bs, flags, i)),
    decreases bs.len() - i,
{
    if i < bs.len() {
        lemma_list_end(bs, bs[i].kind, i + 1);
        if list_kind_of(bs[i].kind) {
            let j = list_end(bs, bs[i].kind, i + 1);
            lemma_style_no_cuts(bs, flags, j);
            lemma_tabs_no_cuts(bs, i, j);
            let own = list_requests(bs, i, j);
            let tabs = tab_requests(bs, i, j);
            assert forall|k: int| 0 <= k < own.len() implies !((#[trigger] own[k]) is Delete) by {
                if 2 <= k < 2 + tabs.len() {
                    assert(own[k] == tabs[k - 2]);
                }
            }
            lemma_no_cuts_add(own, style_from(bs, flags, j));
            lemma_no_cuts_add(Seq::empty(), style_from(bs, flags, j));
        } else {
            lemma_style_no_cuts(bs, flags, i + 1);
            let own = block_requests(bs[i].kind, para_start(bs, i), para_start(bs, i + 1));
            lemma_no_cuts_add(own, style_from(bs, flags, i + 1));
            lemma_no_cuts_add(Seq::empty(), style_from(bs, flags, i + 1));
        }
    }
}

/// Where the text edits spare the region's final line feed, every deletion among its
/// requests ends before it.
pub proof fn lemma_final_stays(u: UnitV)
    requires
        u.final_newline,
        all_within(u.edits(), utf16_len(blocks_plain(u.cur)) + 1int),
        ends_line(blocks_plain(u.cur)) ==> all_spare(
            u.edits(),
            utf16_len(blocks_plain(u.cur)) as int,
        ),
    ensures
        u.cur.len() > 0 ==> all_spare(u.edits(), utf16_len(blocks_plain(u.cur)) as int),
        forall|i: int|
            0 <= i < u.requests().len() ==> ((#[trigger] u.requests()[i]) matches RequestV::Delete {
                end,
                ..
            } ==> end < u.start + utf16_len(blocks_plain(u.cur))),
{
    let l = utf16_len(blocks_plain(u.cur)) as int;
    let script = block_script(u.cur, u.des);
    let styles = paragraph_requests(u.cur, u.des);
    let inlines = inline_requests(u.cur, u.des);
    let edits = u.edits();
    let all = edits + styles + inlines;
    lemma_style_no_cuts(u.des, dirty(Pass::Paragraph, script, u.cur, u.des), 0);
    lemma_inline_effect(u.des, dirty(Pass::Inline, script, u.cur, u.des), 0);
    lemma_edits_from(u);
    law_requests_feasible(u);
    if u.cur.len() == 0 {
        assert(blocks_plain(u.cur) =~= Seq::<char>::empty());
    }
    assert forall|i: int| 0 <= i < u.requests().len() implies ((
    #[trigger] u.requests()[i]) matches RequestV::Delete { end, .. } ==> end < u.start + l) by {
        let r = u.requests()[i];
        assert(r == shifted(all[i], u.start - 1));
        assert(feasible(r));
        if i < edits.len() {
            assert(all[i] == edits[i]);
            assert(starts_from(edits[i], 1));
            assert(indices_within(edits[i], l + 1));
            if u.cur.len() > 0 {
                assert(spares(edits[i], l));
            }
        } else if i < edits.len() + styles.len() {
            assert(!(styles[i - edits.len()] is Delete));
        } else {
            assert(still(inlines[i - edits.len() - styles.len()]));
        }
    }
}

/// No request of a region touches anything before the region.
pub proof fn law_requests_in_region(u: UnitV)
    ensures
        all_from(u.requests(), u.start),
{
    let script = block_script(u.cur, u.des);
    lemma_edits_from(u);
    lemma_style_from(u.des, dirty(Pass::Paragraph, script, u.cur, u.des), 0);
    lemma_inline_from(u.des, dirty(Pass::Inline, script, u.cur, u.des), 0);
    let styles = paragraph_requests(u.cur, u.des);
    let inlines = inline_requests(u.cur, u.des);
    lemma_from_add(u.edits(), styles, 1);
    lemma_from_add(u.edits() + styles, inlines, 1);
    let all = u.edits() + styles + inlines;
    assert forall|i: int| 0 <= i < u.requests().len() implies starts_from(
        #[trigger] u.requests()[i],
        u.start,
    ) by {
        assert(starts_from(all[i], 1));
    }
}

/// The regions of a document are edited from its end to its start, each exactly once, and
/// none of them is touched before its turn: what is edited first lies no further in front,
/// and its requests reach nothing before it.
pub proof fn law_last_region_first(cur: Seq<CurNodeV>, model: Seq<NodeV>)
    ensures
        ({
            let units = all_units(cur, model);
            let order = order_of(unit_starts(units));
            &&& order.len() == units.len()
            &&& order.to_multiset() == Seq::new(units.len(), |i: int| i).to_multiset()
            &&& forall|i: int, j: int|
                0 <= i <= j < order.len() ==> units[#[trigger] order[i]].start
                    >= units[#[trigger] order[j]].start
            &&& forall|i: int|
                0 <= i < order.len() ==> all_from(
                    units[#[trigger] order[i]].requests(),
                    units[order[i]].start,
                )
        }),
{
    let units = all_units(cur, model);
    let starts = unit_starts(units);
    law_order(starts);
    let order = order_of(starts);
    assert forall|i: int, j: int| 0 <= i <= j < order.len() implies units[#[trigger] order[i]].start
        >= units[#[trigger] order[j]].start by {
        assert(starts[order[i]] >= starts[order[j]]);
    }
    assert forall|i: int| 0 <= i < order.len() implies all_from(
        units[#[trigger] order[i]].requests(),
        units[order[i]].start,
    ) by {
        law_requests_in_region(units[order[i]]);
    }
}

} // verus!
