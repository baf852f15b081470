//! What the structural requests make of the barriers and the tables of a document.
use crate::diff::{edit_script, EditStep};
use crate::json::JsonV;
use crate::model::NodeV;
use crate::nodes::CurNodeV;
use crate::structure::{
    achievable, all_gone, all_matches, barrier_nodes, barriers_of, cell_location, creatable,
    cur_numbers, des_numbers, excess, growable, insertions, kind_number, law_alignment,
    lemma_barrier_count, next_kept, node_kind, resize_ops, table_op, Barrier, BarrierKind, Resize,
};
use crate::sync::barrier_count;
use vstd::prelude::*;

verus! {

/// How many of the insertions go to the index `p`.
pub open spec fn inserted_at(tagged: Seq<(int, JsonV)>, p: int) -> nat
    decreases tagged.len(),
{
    if tagged.len() == 0 {
        0
    } else {
        inserted_at(tagged.drop_last(), p) + if tagged.last().0 == p {
            1nat
        } else {
            0nat
        }
    }
}

/// The numbers of `n` tables.
pub open spec fn tables(n: nat) -> Seq<u128> {
    Seq::new(n, |i: int| kind_number(BarrierKind::Table))
}

/// The kinds of the barriers that stand in the place of the first `i` barriers of the
/// document, once those marked `gone` are deleted and the tables inserted: a table that
/// goes to the start of a barrier stands before it.
pub open spec fn kinds_after(
    bs: Seq<Barrier>,
    gone: Seq<bool>,
    tagged: Seq<(int, JsonV)>,
    i: int,
) -> Seq<u128>
    decreases i,
{
    if i <= 0 {
        Seq::empty()
    } else {
        kinds_after(bs, gone, tagged, i - 1) + tables(inserted_at(tagged, bs[i - 1].start as int))
            + if gone[i - 1] {
            Seq::empty()
        } else {
            seq![kind_number(bs[i - 1].kind)]
        }
    }
}

/// The kinds of all barriers of the document after the requests, when new tables at the
/// end go to the index `end`.
pub open spec fn all_kinds_after(
    bs: Seq<Barrier>,
    gone: Seq<bool>,
    tagged: Seq<(int, JsonV)>,
    end: int,
) -> Seq<u128> {
    kinds_after(bs, gone, tagged, bs.len() as int) + tables(inserted_at(tagged, end))
}

/// The barriers start one behind the other, and all before the index `end`.
pub open spec fn ascending(bs: Seq<Barrier>, end: int) -> bool {
    &&& forall|i: int, j: int|
        0 <= i < j < bs.len() ==> (#[trigger] bs[i]).start < (#[trigger] bs[j]).start
    &&& forall|i: int| 0 <= i < bs.len() ==> (#[trigger] bs[i]).start < end
}

/// The kinds of those of the model's first `j` barriers that can be had.
pub open spec fn reachable_kinds(ns: Seq<NodeV>, ms: Seq<Option<int>>, j: int) -> Seq<u128>
    decreases j,
{
    if j <= 0 {
        Seq::empty()
    } else if creatable(ns[j - 1], ms[j - 1]) {
        reachable_kinds(ns, ms, j - 1).push(kind_number(node_kind(ns[j - 1])))
    } else {
        reachable_kinds(ns, ms, j - 1)
    }
}

proof fn lemma_reachable_prefix(a: Seq<NodeV>, b: Seq<NodeV>, ms: Seq<Option<int>>, j: int)
    requires
        0 <= j <= a.len(),
        j <= b.len(),
        forall|k: int| 0 <= k < j ==> a[k] == b[k],
    ensures
        reachable_kinds(a, ms, j) == reachable_kinds(b, ms, j),
    decreases j,
{
    if j > 0 {
        lemma_reachable_prefix(a, b, ms, j - 1);
    }
}

/// The barriers of the reachable model are those that can be had.
proof fn lemma_achievable_kinds(model: Seq<NodeV>, ms: Seq<Option<int>>, k: int)
    requires
        0 <= k <= model.len(),
    ensures
        des_numbers(barrier_nodes(achievable(model, ms, k))) == reachable_kinds(
            barrier_nodes(model.take(k)),
            ms,
            barrier_count(model.take(k)) as int,
        ),
    decreases k,
{
    if k > 0 {
        lemma_achievable_kinds(model, ms, k - 1);
        let node = model[k - 1];
        let init = model.take(k - 1);
        let now = model.take(k);
        assert(now.drop_last() =~= init);
        assert(now.last() == node);
        let before = achievable(model, ms, k - 1);
        let c = barrier_count(init) as int;
        lemma_barrier_count(init);
        let was = barrier_nodes(init);
        assert(before.push(node).drop_last() =~= before);
        assert(before.push(node).last() == node);
        if node.barrier() {
            let ns = barrier_nodes(now);
            assert(ns == was.push(node));
            lemma_reachable_prefix(was, ns, ms, c);
            if creatable(node, ms[c]) {
                assert(des_numbers(barrier_nodes(before).push(node)) =~= des_numbers(
                    barrier_nodes(before),
                ).push(kind_number(node_kind(node))));
            }
        }
    } else {
        assert(model.take(0) =~= Seq::<NodeV>::empty());
        assert(des_numbers(barrier_nodes(achievable(model, ms, 0))) =~= Seq::<u128>::empty());
    }
}

/// A table that the document does not have.
pub open spec fn new_table(ns: Seq<NodeV>, ms: Seq<Option<int>>, j: int) -> bool {
    ms[j] is None && ns[j] is Table
}

/// How many of the new tables from the `a`-th to the `b`-th barrier go to the index `p`.
pub open spec fn going_to(
    bs: Seq<Barrier>,
    ns: Seq<NodeV>,
    ms: Seq<Option<int>>,
    end: int,
    p: int,
    a: int,
    b: int,
) -> nat
    decreases b - a,
{
    if a >= b {
        0
    } else {
        going_to(bs, ns, ms, end, p, a, b - 1) + if new_table(ns, ms, b - 1) && next_kept(
            bs,
            ms,
            b,
            end,
        ) == p {
            1nat
        } else {
            0nat
        }
    }
}

proof fn lemma_inserted_at(
    bs: Seq<Barrier>,
    ns: Seq<NodeV>,
    ms: Seq<Option<int>>,
    end: int,
    p: int,
    n: int,
)
    requires
        0 <= n <= ns.len(),
    ensures
        inserted_at(insertions(bs, ns, ms, end, n), p) == going_to(bs, ns, ms, end, p, 0, n),
    decreases n,
{
    if n > 0 {
        lemma_inserted_at(bs, ns, ms, end, p, n - 1);
        let before = insertions(bs, ns, ms, end, n - 1);
        let now = insertions(bs, ns, ms, end, n);
        if new_table(ns, ms, n - 1) {
            assert(now.drop_last() =~= before);
        }
    }
}

proof fn lemma_going_add(
    bs: Seq<Barrier>,
    ns: Seq<NodeV>,
    ms: Seq<Option<int>>,
    end: int,
    p: int,
    a: int,
    b: int,
    c: int,
)
    requires
        a <= b <= c,
    ensures
        going_to(bs, ns, ms, end, p, a, c) == going_to(bs, ns, ms, end, p, a, b) + going_to(
            bs,
            ns,
            ms,
            end,
            p,
            b,
            c,
        ),
    decreases c - b,
{
    if b < c {
        lemma_going_add(bs, ns, ms, end, p, a, b, c - 1);
    }
}

proof fn lemma_going_none(
    bs: Seq<Barrier>,
    ns: Seq<NodeV>,
    ms: Seq<Option<int>>,
    end: int,
    p: int,
    a: int,
    b: int,
)
    requires
        forall|j: int|
            a <= j < b && #[trigger] new_table(ns, ms, j) ==> next_kept(bs, ms, j + 1, end) != p,
    ensures
        going_to(bs, ns, ms, end, p, a, b) == 0,
    decreases b - a,
{
    if a < b {
        lemma_going_none(bs, ns, ms, end, p, a, b - 1);
        assert(new_table(ns, ms, b - 1) ==> next_kept(bs, ms, (b - 1) + 1, end) != p);
    }
}

/// How many barriers of the document stand up to the last one that the first `j` barriers
/// of the model are matched with.
pub open spec fn passed(ms: Seq<Option<int>>, j: int) -> int
    decreases j,
{
    if j <= 0 {
        0
    } else {
        match ms[j - 1] {
            Some(i) => i + 1,
            None => passed(ms, j - 1),
        }
    }
}

/// Where the unmatched barriers before the `j`-th begin.
pub open spec fn since(ms: Seq<Option<int>>, j: int) -> int
    decreases j,
{
    if j <= 0 || ms[j - 1] is Some {
        j
    } else {
        since(ms, j - 1)
    }
}

/// How many new tables are among them.
pub open spec fn pending(ns: Seq<NodeV>, ms: Seq<Option<int>>, j: int) -> nat
    decreases j,
{
    if j <= 0 || ms[j - 1] is Some {
        0
    } else {
        pending(ns, ms, j - 1) + if ns[j - 1] is Table {
            1nat
        } else {
            0nat
        }
    }
}

/// The matches are in order, of the same kind, and all that stays.
pub open spec fn aligned(
    bs: Seq<Barrier>,
    ns: Seq<NodeV>,
    ms: Seq<Option<int>>,
    gone: Seq<bool>,
) -> bool {
    &&& ms.len() == ns.len()
    &&& gone.len() == bs.len()
    &&& forall|j: int|
        0 <= j < ms.len() ==> ((#[trigger] ms[j]) matches Some(i) ==> 0 <= i < bs.len()
            && kind_number(bs[i].kind) == kind_number(node_kind(ns[j])) && !gone[i])
    &&& forall|j: int, k: int|
        0 <= j < k < ms.len() && (#[trigger] ms[j]) is Some && (#[trigger] ms[k]) is Some
            ==> ms[j]->0 < ms[k]->0
    &&& forall|i: int| 0 <= i < bs.len() && !(#[trigger] gone[i]) ==> ms.contains(Some(i))
    &&& forall|j: int| 0 <= j < ns.len() ==> (#[trigger] ns[j]).barrier()
}

proof fn lemma_since(ms: Seq<Option<int>>, j: int)
    requires
        0 <= j <= ms.len(),
    ensures
        0 <= since(ms, j) <= j,
        forall|k: int| since(ms, j) <= k < j ==> (#[trigger] ms[k]) is None,
        since(ms, j) == 0 ==> passed(ms, j) == 0,
        since(ms, j) > 0 ==> ms[since(ms, j) - 1] is Some && passed(ms, j) == ms[since(ms, j)
            - 1]->0 + 1,
    decreases j,
{
    if j > 0 && ms[j - 1] is None {
        lemma_since(ms, j - 1);
    }
}

/// The next barrier that stays is the first one that is matched.
pub proof fn lemma_next(bs: Seq<Barrier>, ms: Seq<Option<int>>, j: int, end: int, k: int)
    requires
        0 <= j <= k <= ms.len(),
        forall|t: int| j <= t < k ==> (#[trigger] ms[t]) is None,
    ensures
        k < ms.len() && ms[k] is Some ==> next_kept(bs, ms, j, end) == bs[ms[k]->0].start,
        k == ms.len() ==> next_kept(bs, ms, j, end) == end,
    decreases k - j,
{
    if j < k {
        assert(ms[j] is None);
        lemma_next(bs, ms, j + 1, end, k);
    }
}

/// The next barrier that stays is matched at or behind `j`, or there is none.
proof fn lemma_next_behind(bs: Seq<Barrier>, ms: Seq<Option<int>>, j: int, end: int)
    requires
        0 <= j <= ms.len(),
    ensures
        next_kept(bs, ms, j, end) == end || exists|k: int|
            j <= k < ms.len() && (#[trigger] ms[k]) is Some && next_kept(bs, ms, j, end)
                == bs[ms[k]->0].start,
    decreases ms.len() - j,
{
    if j < ms.len() {
        if ms[j] is None {
            lemma_next_behind(bs, ms, j + 1, end);
            if next_kept(bs, ms, j + 1, end) != end {
                let k = choose|k: int|
                    j + 1 <= k < ms.len() && (#[trigger] ms[k]) is Some && next_kept(
                        bs,
                        ms,
                        j + 1,
                        end,
                    ) == bs[ms[k]->0].start;
                assert(ms[k] is Some);
            }
        } else {
            assert(ms[j] is Some);
        }
    }
}

/// All pending tables go to one index.
proof fn lemma_going_pending(
    bs: Seq<Barrier>,
    ns: Seq<NodeV>,
    ms: Seq<Option<int>>,
    end: int,
    p: int,
    j: int,
    b: int,
)
    requires
        0 <= j <= ms.len(),
        ms.len() == ns.len(),
        since(ms, j) <= b <= j,
        forall|t: int| since(ms, j) <= t < j ==> next_kept(bs, ms, #[trigger] (t + 1), end) == p,
    ensures
        going_to(bs, ns, ms, end, p, since(ms, j), b) == pending(ns, ms, b),
    decreases b,
{
    lemma_since(ms, j);
    let s = since(ms, j);
    if b > s {
        lemma_going_pending(bs, ns, ms, end, p, j, b - 1);
        assert(ms[b - 1] is None);
        assert(next_kept(bs, ms, (b - 1) + 1, end) == p);
    } else if s > 0 {
        assert(ms[s - 1] is Some);
    }
}

/// The tables that go to the `i`-th barrier, with which the `j`-th of the model is
/// matched, are the pending ones.
proof fn lemma_tables_before(
    bs: Seq<Barrier>,
    ns: Seq<NodeV>,
    ms: Seq<Option<int>>,
    gone: Seq<bool>,
    end: int,
    j: int,
)
    requires
        aligned(bs, ns, ms, gone),
        ascending(bs, end),
        0 <= j < ms.len(),
        ms[j] is Some,
    ensures
        inserted_at(
            insertions(bs, ns, ms, end, ns.len() as int),
            bs[ms[j]->0].start as int,
        ) == pending(ns, ms, j),
{
    let n = ns.len() as int;
    let i = ms[j]->0;
    let p = bs[i].start as int;
    let s = since(ms, j);
    lemma_since(ms, j);
    lemma_inserted_at(bs, ns, ms, end, p, n);
    lemma_going_add(bs, ns, ms, end, p, 0, s, n);
    lemma_going_add(bs, ns, ms, end, p, s, j, n);
    // Those before the last match go to it or further in front.
    assert forall|t: int| 0 <= t < s && #[trigger] new_table(ns, ms, t) implies next_kept(
        bs,
        ms,
        t + 1,
        end,
    ) != p by {
        assert(ms[s - 1] is Some);
        let k = first_match(ms, t + 1, s - 1);
        lemma_first_match(ms, t + 1, s - 1);
        lemma_next(bs, ms, t + 1, end, k);
        assert(ms[k]->0 < ms[j]->0);
        assert(bs[ms[k]->0].start < bs[i].start);
    }
    lemma_going_none(bs, ns, ms, end, p, 0, s);
    // The pending ones go to the barrier.
    assert forall|t: int| s <= t < j implies next_kept(bs, ms, #[trigger] (t + 1), end) == p by {
        lemma_next(bs, ms, t + 1, end, j);
    }
    lemma_going_pending(bs, ns, ms, end, p, j, j);
    // Those behind go further back.
    assert forall|t: int| j <= t < n && #[trigger] new_table(ns, ms, t) implies next_kept(
        bs,
        ms,
        t + 1,
        end,
    ) != p by {
        lemma_next_behind(bs, ms, t + 1, end);
        if next_kept(bs, ms, t + 1, end) != end {
            let k = choose|k: int|
                t + 1 <= k < ms.len() && (#[trigger] ms[k]) is Some && next_kept(
                    bs,
                    ms,
                    t + 1,
                    end,
                ) == bs[ms[k]->0].start;
            assert(ms[j]->0 < ms[k]->0);
            assert(bs[i].start < bs[ms[k]->0].start);
        }
    }
    lemma_going_none(bs, ns, ms, end, p, j, n);
}

/// The first match from `a` on, where there is one at `b`.
pub open spec fn first_match(ms: Seq<Option<int>>, a: int, b: int) -> int
    decreases b - a,
{
    if a >= b || ms[a] is Some {
        a
    } else {
        first_match(ms, a + 1, b)
    }
}

proof fn lemma_first_match(ms: Seq<Option<int>>, a: int, b: int)
    requires
        0 <= a,
        b < ms.len(),
        a <= b ==> ms[b] is Some,
        a <= b + 1,
    ensures
        a <= b ==> a <= first_match(ms, a, b) <= b && ms[first_match(ms, a, b)] is Some,
        forall|t: int| a <= t < first_match(ms, a, b) ==> (#[trigger] ms[t]) is None,
    decreases b - a,
{
    if a < b && ms[a] is None {
        lemma_first_match(ms, a + 1, b);
    }
}

/// Barriers that go leave nothing, and no table goes to their place.
proof fn lemma_gone_nothing(
    bs: Seq<Barrier>,
    ns: Seq<NodeV>,
    ms: Seq<Option<int>>,
    gone: Seq<bool>,
    end: int,
    x: int,
    i: int,
)
    requires
        aligned(bs, ns, ms, gone),
        ascending(bs, end),
        0 <= x <= i <= bs.len(),
        forall|y: int| x <= y < i ==> #[trigger] gone[y],
    ensures
        ({
            let tagged = insertions(bs, ns, ms, end, ns.len() as int);
            kinds_after(bs, gone, tagged, i) == kinds_after(bs, gone, tagged, x)
        }),
    decreases i - x,
{
    if x < i {
        lemma_gone_nothing(bs, ns, ms, gone, end, x, i - 1);
        let n = ns.len() as int;
        let p = bs[i - 1].start as int;
        let tagged = insertions(bs, ns, ms, end, n);
        assert(gone[i - 1]);
        assert forall|t: int| 0 <= t < n && #[trigger] new_table(ns, ms, t) implies next_kept(
        bs,
        ms,
        t + 1,
        end,
    ) != p by {
            lemma_next_behind(bs, ms, t + 1, end);
            if next_kept(bs, ms, t + 1, end) != end {
                let k = choose|k: int|
                    t + 1 <= k < ms.len() && (#[trigger] ms[k]) is Some && next_kept(
                        bs,
                        ms,
                        t + 1,
                        end,
                    ) == bs[ms[k]->0].start;
                let m = ms[k]->0;
                assert(!gone[m]);
                if m < i - 1 {
                    assert(bs[m].start < bs[i - 1].start);
                } else {
                    assert(bs[i - 1].start < bs[m].start);
                }
            }
        }
        lemma_inserted_at(bs, ns, ms, end, p, n);
        lemma_going_none(bs, ns, ms, end, p, 0, n);
        let before = kinds_after(bs, gone, tagged, i - 1);
        assert(before + tables(0) + Seq::<u128>::empty() =~= before);
    }
}

/// Between two matches in a row, every barrier of the document goes.
proof fn lemma_between_gone(
    bs: Seq<Barrier>,
    ns: Seq<NodeV>,
    ms: Seq<Option<int>>,
    gone: Seq<bool>,
    j: int,
    i: int,
)
    requires
        aligned(bs, ns, ms, gone),
        0 <= j <= ms.len(),
        j < ms.len() ==> ms[j] == Some(i),
        j == ms.len() ==> i == bs.len(),
    ensures
        0 <= passed(ms, j) <= i <= bs.len(),
        forall|y: int| passed(ms, j) <= y < i ==> #[trigger] gone[y],
{
    lemma_since(ms, j);
    let s = since(ms, j);
    if s > 0 {
        assert(ms[s - 1] is Some);
        if j < ms.len() {
            assert(ms[s - 1]->0 < ms[j]->0);
        }
    }
    if j < ms.len() {
        assert(ms[j] is Some);
    }
    assert forall|y: int| passed(ms, j) <= y < i implies #[trigger] gone[y] by {
        if !gone[y] {
            assert(ms.contains(Some(y)));
            let k = choose|k: int| 0 <= k < ms.len() && ms[k] == Some(y);
            assert(ms[k] is Some);
            if k < s - 1 {
                assert(ms[k]->0 < ms[s - 1]->0);
            } else if k >= s && k < j {
                assert(ms[k] is None);
            } else if k > j {
                assert(ms[j]->0 < ms[k]->0);
            }
        }
    }
}

/// The kinds of the barriers that can be had are those that the document has after the
/// requests, up to the last match, and the tables that are pending.
proof fn lemma_reached(
    bs: Seq<Barrier>,
    ns: Seq<NodeV>,
    ms: Seq<Option<int>>,
    gone: Seq<bool>,
    end: int,
    j: int,
)
    requires
        aligned(bs, ns, ms, gone),
        ascending(bs, end),
        0 <= j <= ms.len(),
    ensures
        reachable_kinds(ns, ms, j) == kinds_after(
            bs,
            gone,
            insertions(bs, ns, ms, end, ns.len() as int),
            passed(ms, j),
        ) + tables(pending(ns, ms, j)),
    decreases j,
{
    let tagged = insertions(bs, ns, ms, end, ns.len() as int);
    if j == 0 {
        assert(kinds_after(bs, gone, tagged, 0) + tables(0) =~= Seq::<u128>::empty());
    } else {
        lemma_reached(bs, ns, ms, gone, end, j - 1);
        let x = passed(ms, j - 1);
        let before = kinds_after(bs, gone, tagged, x);
        let c = pending(ns, ms, j - 1);
        match ms[j - 1] {
            Some(i) => {
                lemma_between_gone(bs, ns, ms, gone, j - 1, i);
                lemma_gone_nothing(bs, ns, ms, gone, end, x, i);
                lemma_tables_before(bs, ns, ms, gone, end, j - 1);
                let kind = kind_number(bs[i].kind);
                assert(!gone[i]);
                assert(kinds_after(bs, gone, tagged, i + 1) == before + tables(c) + seq![kind]);
                assert((before + tables(c)).push(kind) =~= before + tables(c) + seq![kind]
                    + tables(0));
            },
            None => {
                if ns[j - 1] is Table {
                    assert((before + tables(c)).push(kind_number(BarrierKind::Table)) =~= before
                        + tables(c + 1));
                }
            },
        }
    }
}

proof fn lemma_all_barriers(nodes: Seq<NodeV>)
    ensures
        forall|j: int|
            0 <= j < barrier_nodes(nodes).len() ==> (#[trigger] barrier_nodes(nodes)[j]).barrier(),
    decreases nodes.len(),
{
    if nodes.len() > 0 {
        lemma_all_barriers(nodes.drop_last());
        let was = barrier_nodes(nodes.drop_last());
        let now = barrier_nodes(nodes);
        assert forall|j: int| 0 <= j < now.len() implies (#[trigger] now[j]).barrier() by {
            if j < was.len() {
                assert(was[j].barrier());
            }
        }
    }
}

/// After the structural requests the document has the barriers of the reachable model:
/// what is deleted and inserted leaves its kinds in its order.
pub proof fn law_barriers_reached(
    cur: Seq<CurNodeV>,
    model: Seq<NodeV>,
    append_pos: int,
    steps: Seq<EditStep>,
)
    requires
        edit_script(
            steps,
            cur_numbers(barriers_of(cur)),
            des_numbers(barrier_nodes(model)),
        ),
        ascending(barriers_of(cur), append_pos),
    ensures
        ({
            let bs = barriers_of(cur);
            let ns = barrier_nodes(model);
            let ms = all_matches(steps);
            all_kinds_after(
                bs,
                all_gone(steps),
                insertions(bs, ns, ms, append_pos, ns.len() as int),
                append_pos,
            ) == des_numbers(barrier_nodes(achievable(model, ms, model.len() as int)))
        }),
{
    let bs = barriers_of(cur);
    let ns = barrier_nodes(model);
    let ms = all_matches(steps);
    let gone = all_gone(steps);
    let n = ns.len() as int;
    let end = append_pos;
    let old = cur_numbers(bs);
    let new = des_numbers(ns);
    assert(old.len() == bs.len() && new.len() == ns.len());
    law_alignment(steps, old, new);
    lemma_all_barriers(model);
    assert(aligned(bs, ns, ms, gone)) by {
        assert forall|j: int| 0 <= j < ms.len() implies ((#[trigger] ms[j]) matches Some(i) ==> 0
            <= i < bs.len() && kind_number(bs[i].kind) == kind_number(node_kind(ns[j]))
            && !gone[i]) by {
            if let Some(i) = ms[j] {
                assert(old[i] == new[j]);
            }
        }
    }
    lemma_reached(bs, ns, ms, gone, end, n);
    lemma_between_gone(bs, ns, ms, gone, n, bs.len() as int);
    lemma_gone_nothing(bs, ns, ms, gone, end, passed(ms, n), bs.len() as int);
    // The tables behind the last match go to the end.
    let s = since(ms, n);
    lemma_since(ms, n);
    lemma_inserted_at(bs, ns, ms, end, end, n);
    lemma_going_add(bs, ns, ms, end, end, 0, s, n);
    assert forall|t: int| 0 <= t < s && #[trigger] new_table(ns, ms, t) implies next_kept(
        bs,
        ms,
        t + 1,
        end,
    ) != end by {
        assert(ms[s - 1] is Some);
        let k = first_match(ms, t + 1, s - 1);
        lemma_first_match(ms, t + 1, s - 1);
        lemma_next(bs, ms, t + 1, end, k);
        assert(bs[ms[k]->0].start < end);
    }
    lemma_going_none(bs, ns, ms, end, end, 0, s);
    assert forall|t: int| s <= t < n implies next_kept(bs, ms, #[trigger] (t + 1), end) == end by {
        lemma_next(bs, ms, t + 1, end, n);
    }
    lemma_going_pending(bs, ns, ms, end, end, n, n);
    lemma_achievable_kinds(model, ms, model.len() as int);
    assert(model.take(model.len() as int) =~= model);
    lemma_barrier_count(model);
}

// ---------------------------------------------------------------------------
// Dimensions
// ---------------------------------------------------------------------------

/// What a request on a table does.
pub open spec fn op_name(op: JsonV) -> Seq<char> {
    op->Object_0[0].0
}

/// The row that a request on a table names.
pub open spec fn op_row(op: JsonV) -> int {
    op->Object_0[0].1->Object_0[0].1->Object_0[1].1->Number_0 as int
}

/// The column that a request on a table names.
pub open spec fn op_column(op: JsonV) -> int {
    op->Object_0[0].1->Object_0[0].1->Object_0[2].1->Number_0 as int
}

/// The rows and columns of a table after a request; `None` if it names a row or column
/// that the table does not have.
pub open spec fn dims_after_one(rows: int, cols: int, op: JsonV) -> Option<(int, int)> {
    if op_name(op) == "insertTableRow"@ && op_row(op) < rows {
        Some((rows + 1, cols))
    } else if op_name(op) == "deleteTableRow"@ && op_row(op) < rows {
        Some((rows - 1, cols))
    } else if op_name(op) == "insertTableColumn"@ && op_column(op) < cols {
        Some((rows, cols + 1))
    } else if op_name(op) == "deleteTableColumn"@ && op_column(op) < cols {
        Some((rows, cols - 1))
    } else {
        None
    }
}

/// The rows and columns of a table after the requests.
pub open spec fn dims_after(rows: int, cols: int, ops: Seq<JsonV>) -> Option<(int, int)>
    decreases ops.len(),
{
    if ops.len() == 0 {
        Some((rows, cols))
    } else {
        match dims_after(rows, cols, ops.drop_last()) {
            None => None,
            Some((r, c)) => dims_after_one(r, c, ops.last()),
        }
    }
}

proof fn lemma_dims_add(rows: int, cols: int, a: Seq<JsonV>, b: Seq<JsonV>)
    ensures
        dims_after(rows, cols, a + b) == match dims_after(rows, cols, a) {
            None => None,
            Some((r, c)) => dims_after(r, c, b),
        },
    decreases b.len(),
{
    if b.len() == 0 {
        assert(a + b =~= a);
    } else {
        lemma_dims_add(rows, cols, a, b.drop_last());
        assert((a + b).drop_last() =~= a + b.drop_last());
        assert((a + b).last() == b.last());
    }
}

/// The four names are different.
proof fn lemma_names()
    ensures
        "insertTableRow"@ != "deleteTableRow"@,
        "insertTableRow"@ != "insertTableColumn"@,
        "insertTableRow"@ != "deleteTableColumn"@,
        "deleteTableRow"@ != "insertTableColumn"@,
        "deleteTableRow"@ != "deleteTableColumn"@,
        "insertTableColumn"@ != "deleteTableColumn"@,
{
    reveal_strlit("insertTableRow");
    reveal_strlit("deleteTableRow");
    reveal_strlit("insertTableColumn");
    reveal_strlit("deleteTableColumn");
    assert("insertTableRow"@[0] == 'i' && "insertTableColumn"@[0] == 'i');
    assert("deleteTableRow"@[0] == 'd' && "deleteTableColumn"@[0] == 'd');
    assert("insertTableRow"@.len() == 14 && "insertTableColumn"@.len() == 17);
    assert("deleteTableRow"@.len() == 14 && "deleteTableColumn"@.len() == 17);
}

/// Requests of one kind, each on the next row or column, change the dimensions one by one.
proof fn lemma_dims_run(
    rows: int,
    cols: int,
    ops: Seq<JsonV>,
    name: Seq<char>,
    start: int,
    beside: Option<Seq<char>>,
)
    requires
        forall|i: int|
            0 <= i < ops.len() ==> ({
                ||| (name == "insertTableRow"@ && (#[trigger] ops[i]) == table_op(
                    name,
                    cell_location(start, rows - 1 + i, 0),
                    beside,
                ))
                ||| (name == "deleteTableRow"@ && ops[i] == table_op(
                    name,
                    cell_location(start, rows - 1 - i, 0),
                    beside,
                ))
                ||| (name == "insertTableColumn"@ && ops[i] == table_op(
                    name,
                    cell_location(start, 0, cols - 1 + i),
                    beside,
                ))
                ||| (name == "deleteTableColumn"@ && ops[i] == table_op(
                    name,
                    cell_location(start, 0, cols - 1 - i),
                    beside,
                ))
            }),
        0 <= rows,
        0 <= cols,
        ops.len() > 0 && name == "insertTableRow"@ ==> rows > 0,
        ops.len() > 0 && name == "insertTableColumn"@ ==> cols > 0,
        name == "deleteTableRow"@ ==> ops.len() <= rows,
        name == "deleteTableColumn"@ ==> ops.len() <= cols,
        rows <= usize::MAX && cols <= usize::MAX,
        name == "insertTableRow"@ ==> rows + ops.len() <= usize::MAX,
        name == "insertTableColumn"@ ==> cols + ops.len() <= usize::MAX,
    ensures
        name == "insertTableRow"@ ==> dims_after(rows, cols, ops) == Some((rows + ops.len(), cols)),
        name == "deleteTableRow"@ ==> dims_after(rows, cols, ops) == Some((rows - ops.len(), cols)),
        name == "insertTableColumn"@ ==> dims_after(rows, cols, ops) == Some(
            (rows, cols + ops.len()),
        ),
        name == "deleteTableColumn"@ ==> dims_after(rows, cols, ops) == Some(
            (rows, cols - ops.len()),
        ),
    decreases ops.len(),
{
    if ops.len() > 0 {
        let init = ops.drop_last();
        assert forall|i: int| 0 <= i < init.len() implies init[i] == ops[i] by {}
        lemma_dims_run(rows, cols, init, name, start, beside);
        lemma_names();
        let op = ops[ops.len() - 1];
        assert(op == ops.last());
    }
}

/// The requests that reshape a table give it its dimensions, and none of them names a row
/// or column that the table does not have when its turn comes.
pub proof fn law_resized(r: Resize)
    requires
        growable(r),
    ensures
        dims_after(r.cur_rows as int, r.cur_cols as int, resize_ops(r)) == Some(
            (r.des_rows as int, r.des_cols as int),
        ),
{
    let start = r.start as int;
    let (rows, cols) = (r.cur_rows as int, r.cur_cols as int);
    let a = Seq::new(
        excess(r.des_rows, r.cur_rows),
        |i: int|
            table_op(
                "insertTableRow"@,
                cell_location(start, r.cur_rows - 1 + i, 0),
                Some("insertBelow"@),
            ),
    );
    let b = Seq::new(
        excess(r.cur_rows, r.des_rows),
        |i: int|
            table_op("deleteTableRow"@, cell_location(start, r.cur_rows - 1 - i, 0), None),
    );
    let c = Seq::new(
        excess(r.des_cols, r.cur_cols),
        |i: int|
            table_op(
                "insertTableColumn"@,
                cell_location(start, 0, r.cur_cols - 1 + i),
                Some("insertRight"@),
            ),
    );
    let d = Seq::new(
        excess(r.cur_cols, r.des_cols),
        |i: int|
            table_op("deleteTableColumn"@, cell_location(start, 0, r.cur_cols - 1 - i), None),
    );
    assert(resize_ops(r) =~= a + b + c + d);
    lemma_names();
    lemma_dims_run(rows, cols, a, "insertTableRow"@, start, Some("insertBelow"@));
    lemma_dims_add(rows, cols, a, b);
    if b.len() > 0 {
        lemma_dims_run(rows, cols, b, "deleteTableRow"@, start, None);
    }
    let des_rows = r.des_rows as int;
    assert(dims_after(rows, cols, a + b) == Some((des_rows, cols)));
    lemma_dims_add(rows, cols, a + b, c);
    lemma_dims_run(des_rows, cols, c, "insertTableColumn"@, start, Some("insertRight"@));
    lemma_dims_add(rows, cols, a + b + c, d);
    if d.len() > 0 {
        lemma_dims_run(des_rows, cols, d, "deleteTableColumn"@, start, None);
    }
}

} // verus!
