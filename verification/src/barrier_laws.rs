//! The structural requests, read by the names of the document service: which barriers go,
//! which tables come, in which order, and what is left out.
use crate::diff::EditStep;
use crate::json::JsonV;
use crate::model::{columns_of, NodeV, RunV};
use crate::nodes::{CurNodeV, DesV};
use crate::order::{law_order, order_of};
use crate::request::RequestV;
use crate::structure::{
    achievable, all_gone, all_matches, all_resizes, barrier_nodes, barrier_warnings, barriers_of,
    deletions, excess, growable, insertions, kind_number, lemma_barrier_count, next_kept, node_kind,
    ops_in_order, ordered_ops, reconciled, resize_keys, resize_of, resize_ops, resize_requests,
    resizes, tag_keys, Barrier, BarrierKind, Resize,
};
use crate::structure_laws::lemma_next;
use crate::sync::barrier_count;
use crate::table_laws::{law_table_requests, read_table_request};
use crate::wire_laws::{law_structure_reads, read_new_table, read_request};
use vstd::prelude::*;

verus! {

/// Where a structural request works.
pub open spec fn op_place(j: JsonV) -> Option<int> {
    match (read_request(j), read_new_table(j)) {
        (Some(RequestV::Delete { start, .. }), _) => Some(start),
        (_, Some((_, _, index))) => Some(index),
        _ => None,
    }
}

/// The request deletes the barrier.
pub open spec fn deletes(j: JsonV, b: Barrier) -> bool {
    read_request(j) == Some(RequestV::Delete { start: b.start as int, end: b.end as int })
}

/// The request inserts a table with as many rows as these and as many columns as the first
/// of them.
pub open spec fn inserts(j: JsonV, n: NodeV, index: int) -> bool {
    n matches NodeV::Table(rows) && read_new_table(j) == Some(
        (
            rows.len() as int,
            if rows.len() == 0 {
                0
            } else {
                rows[0].len() as int
            },
            index,
        ),
    )
}

/// The table of the model is new.
pub open spec fn comes(ns: Seq<NodeV>, ms: Seq<Option<int>>, j: int) -> bool {
    0 <= j < ns.len() && ns[j] is Table && ms[j] is None
}

/// Places and dimensions that fit in a request.
pub open spec fn places_fit(ns: Seq<NodeV>, end: int) -> bool {
    &&& 0 <= end <= usize::MAX
    &&& forall|j: int|
        0 <= j < ns.len() ==> ((#[trigger] ns[j]) matches NodeV::Table(rows) ==> rows.len()
            <= u64::MAX && (rows.len() > 0 ==> rows[0].len() <= u64::MAX))
}

proof fn lemma_next_fits(bs: Seq<Barrier>, ms: Seq<Option<int>>, j: int, end: int)
    requires
        0 <= end <= usize::MAX,
    ensures
        0 <= next_kept(bs, ms, j, end) <= usize::MAX,
    decreases ms.len() - j,
{
    if 0 <= j < ms.len() && ms[j] is None {
        lemma_next_fits(bs, ms, j + 1, end);
    }
}

/// The entry deletes one of the first `n` barriers, which goes, and stands at its start.
pub open spec fn deletion_of(
    bs: Seq<Barrier>,
    gone: Seq<bool>,
    n: int,
    e: (int, JsonV),
) -> bool {
    exists|i: int|
        0 <= i < n && #[trigger] gone[i] && deletes(e.1, bs[i]) && e.0 == bs[i].start
}

/// The entry inserts one of the first `n` tables of the model, which comes, and stands where
/// that goes.
pub open spec fn insertion_of(
    bs: Seq<Barrier>,
    ns: Seq<NodeV>,
    ms: Seq<Option<int>>,
    end: int,
    n: int,
    e: (int, JsonV),
) -> bool {
    exists|j: int|
        0 <= j < n && #[trigger] comes(ns, ms, j) && inserts(e.1, ns[j], e.0) && e.0 == next_kept(
            bs,
            ms,
            j + 1,
            end,
        )
}

/// One of the requests deletes the barrier.
pub open spec fn deleted_by(ops: Seq<JsonV>, b: Barrier) -> bool {
    exists|a: int| 0 <= a < ops.len() && deletes(#[trigger] ops[a], b)
}

/// One of the requests inserts the table there.
pub open spec fn inserted_by(ops: Seq<JsonV>, n: NodeV, index: int) -> bool {
    exists|a: int| 0 <= a < ops.len() && inserts(#[trigger] ops[a], n, index)
}

/// The requests of entries.
spec fn requests_of(es: Seq<(int, JsonV)>) -> Seq<JsonV> {
    Seq::new(es.len(), |a: int| es[a].1)
}

proof fn lemma_more_deleted(es: Seq<(int, JsonV)>, e: (int, JsonV), b: Barrier)
    requires
        deleted_by(requests_of(es), b) || deletes(e.1, b),
    ensures
        deleted_by(requests_of(es.push(e)), b),
{
    let more = requests_of(es.push(e));
    if deletes(e.1, b) {
        assert(deletes(more[es.len() as int], b));
    } else {
        let rs = requests_of(es);
        let a = choose|a: int| 0 <= a < rs.len() && deletes(#[trigger] rs[a], b);
        assert(deletes(more[a], b));
    }
}

proof fn lemma_more_inserted(es: Seq<(int, JsonV)>, e: (int, JsonV), n: NodeV, index: int)
    requires
        inserted_by(requests_of(es), n, index) || inserts(e.1, n, index),
    ensures
        inserted_by(requests_of(es.push(e)), n, index),
{
    let more = requests_of(es.push(e));
    if inserts(e.1, n, index) {
        assert(inserts(more[es.len() as int], n, index));
    } else {
        let rs = requests_of(es);
        let a = choose|a: int| 0 <= a < rs.len() && inserts(#[trigger] rs[a], n, index);
        assert(inserts(more[a], n, index));
    }
}

proof fn lemma_deletion_entries(bs: Seq<Barrier>, gone: Seq<bool>, n: int, a: int)
    requires
        0 <= n <= bs.len(),
        gone.len() == bs.len(),
        0 <= a < deletions(bs, gone, n).len(),
    ensures
        deletion_of(bs, gone, bs.len() as int, deletions(bs, gone, n)[a]),
    decreases n,
{
    let before = deletions(bs, gone, n - 1);
    if a < before.len() {
        lemma_deletion_entries(bs, gone, n - 1, a);
    } else {
        let b = bs[n - 1];
        law_structure_reads(b.start as int, b.end as int, 0);
        assert(gone[n - 1]);
    }
}

proof fn lemma_deleted(bs: Seq<Barrier>, gone: Seq<bool>, n: int, i: int)
    requires
        0 <= i < n <= bs.len(),
        gone.len() == bs.len(),
        gone[i],
    ensures
        deleted_by(requests_of(deletions(bs, gone, n)), bs[i]),
    decreases n,
{
    let before = deletions(bs, gone, n - 1);
    let b = bs[n - 1];
    law_structure_reads(b.start as int, b.end as int, 0);
    if i < n - 1 {
        lemma_deleted(bs, gone, n - 1, i);
    }
    if gone[n - 1] {
        lemma_more_deleted(before, deletions(bs, gone, n).last(), bs[i]);
    }
}

proof fn lemma_insertion_entries(
    bs: Seq<Barrier>,
    ns: Seq<NodeV>,
    ms: Seq<Option<int>>,
    end: int,
    n: int,
    a: int,
)
    requires
        0 <= n <= ns.len(),
        ms.len() == ns.len(),
        places_fit(ns, end),
        0 <= a < insertions(bs, ns, ms, end, n).len(),
    ensures
        insertion_of(bs, ns, ms, end, ns.len() as int, insertions(bs, ns, ms, end, n)[a]),
        read_request(insertions(bs, ns, ms, end, n)[a].1) is None,
    decreases n,
{
    let before = insertions(bs, ns, ms, end, n - 1);
    if a < before.len() {
        lemma_insertion_entries(bs, ns, ms, end, n - 1, a);
    } else {
        lemma_next_fits(bs, ms, n, end);
        if let NodeV::Table(rows) = ns[n - 1] {
            let at = next_kept(bs, ms, n, end);
            law_structure_reads(rows.len() as int, columns_of(rows) as int, at);
        }
        assert(comes(ns, ms, n - 1));
    }
}

proof fn lemma_inserted(
    bs: Seq<Barrier>,
    ns: Seq<NodeV>,
    ms: Seq<Option<int>>,
    end: int,
    n: int,
    j: int,
)
    requires
        0 <= j < n <= ns.len(),
        ms.len() == ns.len(),
        places_fit(ns, end),
        comes(ns, ms, j),
    ensures
        inserted_by(
            requests_of(insertions(bs, ns, ms, end, n)),
            ns[j],
            next_kept(bs, ms, j + 1, end),
        ),
    decreases n,
{
    let before = insertions(bs, ns, ms, end, n - 1);
    let all = insertions(bs, ns, ms, end, n);
    let index = next_kept(bs, ms, j + 1, end);
    lemma_next_fits(bs, ms, n, end);
    if let NodeV::Table(rows) = ns[n - 1] {
        let at = next_kept(bs, ms, n, end);
        law_structure_reads(rows.len() as int, columns_of(rows) as int, at);
    }
    if j < n - 1 {
        lemma_inserted(bs, ns, ms, end, n - 1, j);
    }
    if all.len() > before.len() {
        assert(all == before.push(all.last()));
        lemma_more_inserted(before, all.last(), ns[j], index);
    }
}

/// The order visits every position.
proof fn lemma_visited(keys: Seq<int>, t: int) -> (a: int)
    requires
        0 <= t < keys.len(),
    ensures
        0 <= a < keys.len(),
        order_of(keys)[a] == t,
{
    law_order(keys);
    let all = Seq::new(keys.len(), |i: int| i);
    let order = order_of(keys);
    all.to_multiset_ensures();
    order.to_multiset_ensures();
    assert(all[t] == t);
    assert(all.to_multiset().count(t) > 0);
    assert(order.to_multiset().count(t) > 0);
    assert(order.contains(t));
    choose|a: int| 0 <= a < order.len() && order[a] == t
}

/// The structural requests of a document.
pub open spec fn structural_requests(
    bs: Seq<Barrier>,
    gone: Seq<bool>,
    ns: Seq<NodeV>,
    ms: Seq<Option<int>>,
    end: int,
) -> Seq<JsonV> {
    ordered_ops(
        deletions(bs, gone, bs.len() as int) + insertions(bs, ns, ms, end, ns.len() as int),
    )
}

/// An entry of the two lists stands where its request works.
proof fn lemma_entry(
    bs: Seq<Barrier>,
    gone: Seq<bool>,
    ns: Seq<NodeV>,
    ms: Seq<Option<int>>,
    end: int,
    t: int,
)
    requires
        gone.len() == bs.len(),
        ms.len() == ns.len(),
        places_fit(ns, end),
        0 <= t < (deletions(bs, gone, bs.len() as int) + insertions(
            bs,
            ns,
            ms,
            end,
            ns.len() as int,
        )).len(),
    ensures
        ({
            let e = (deletions(bs, gone, bs.len() as int) + insertions(
                bs,
                ns,
                ms,
                end,
                ns.len() as int,
            ))[t];
            &&& op_place(e.1) == Some(e.0)
            &&& deletion_of(bs, gone, bs.len() as int, e) || insertion_of(
                bs,
                ns,
                ms,
                end,
                ns.len() as int,
                e,
            )
        }),
{
    let dels = deletions(bs, gone, bs.len() as int);
    let ins = insertions(bs, ns, ms, end, ns.len() as int);
    if t < dels.len() {
        lemma_deletion_entries(bs, gone, bs.len() as int, t);
    } else {
        lemma_insertion_entries(bs, ns, ms, end, ns.len() as int, t - dels.len());
    }
}

/// The structural requests delete just the barriers that go, each with its range, and insert
/// just the tables that come, each with its dimensions: before the next barrier that stays,
/// or at the end where none does.
pub proof fn law_structural_requests(
    bs: Seq<Barrier>,
    gone: Seq<bool>,
    ns: Seq<NodeV>,
    ms: Seq<Option<int>>,
    end: int,
)
    requires
        gone.len() == bs.len(),
        ms.len() == ns.len(),
        places_fit(ns, end),
    ensures
        forall|i: int|
            0 <= i < bs.len() && #[trigger] gone[i] ==> deleted_by(
                structural_requests(bs, gone, ns, ms, end),
                bs[i],
            ),
        forall|j: int, k: int|
            #![trigger comes(ns, ms, j), ms[k]]
            comes(ns, ms, j) && j < k < ns.len() && (forall|t: int|
                j < t < k ==> (#[trigger] ms[t]) is None) && ms[k] is Some ==> inserted_by(
                structural_requests(bs, gone, ns, ms, end),
                ns[j],
                bs[ms[k]->0].start as int,
            ),
        forall|j: int|
            #[trigger]
            comes(ns, ms, j) && (forall|t: int| j < t < ns.len() ==> (#[trigger] ms[t]) is None)
                ==> inserted_by(structural_requests(bs, gone, ns, ms, end), ns[j], end),
        forall|a: int|
            0 <= a < structural_requests(bs, gone, ns, ms, end).len() ==> works(
                bs,
                gone,
                ns,
                ms,
                #[trigger] structural_requests(bs, gone, ns, ms, end)[a],
            ),
{
    let ops = structural_requests(bs, gone, ns, ms, end);
    let n = ns.len() as int;
    assert forall|i: int| 0 <= i < bs.len() && #[trigger] gone[i] implies deleted_by(
        ops,
        bs[i],
    ) by {
        lemma_deleted(bs, gone, bs.len() as int, i);
        lemma_all_deleted(bs, gone, ns, ms, end, bs[i]);
    }
    assert forall|j: int, k: int|
        #![trigger comes(ns, ms, j), ms[k]]
        comes(ns, ms, j) && j < k < ns.len() && (forall|t: int|
            j < t < k ==> (#[trigger] ms[t]) is None) && ms[k] is Some implies inserted_by(
        ops,
        ns[j],
        bs[ms[k]->0].start as int,
    ) by {
        lemma_next(bs, ms, j + 1, end, k);
        lemma_inserted(bs, ns, ms, end, n, j);
        lemma_all_inserted(bs, gone, ns, ms, end, ns[j], next_kept(bs, ms, j + 1, end));
    }
    assert forall|j: int|
        #[trigger]
        comes(ns, ms, j) && (forall|t: int|
            j < t < ns.len() ==> (#[trigger] ms[t]) is None) implies inserted_by(
        ops,
        ns[j],
        end,
    ) by {
        lemma_next(bs, ms, j + 1, end, n);
        lemma_inserted(bs, ns, ms, end, n, j);
        lemma_all_inserted(bs, gone, ns, ms, end, ns[j], end);
    }
    assert forall|a: int| 0 <= a < ops.len() implies works(bs, gone, ns, ms, #[trigger] ops[a]) by {
        lemma_works(bs, gone, ns, ms, end, a);
    }
}

/// The request deletes a barrier that goes, or inserts a table that comes.
pub open spec fn works(
    bs: Seq<Barrier>,
    gone: Seq<bool>,
    ns: Seq<NodeV>,
    ms: Seq<Option<int>>,
    j: JsonV,
) -> bool {
    ||| exists|i: int| 0 <= i < bs.len() && #[trigger] gone[i] && deletes(j, bs[i])
    ||| exists|k: int| #[trigger] comes(ns, ms, k) && inserts(j, ns[k], op_place(j)->0)
}

proof fn lemma_works(
    bs: Seq<Barrier>,
    gone: Seq<bool>,
    ns: Seq<NodeV>,
    ms: Seq<Option<int>>,
    end: int,
    a: int,
)
    requires
        gone.len() == bs.len(),
        ms.len() == ns.len(),
        places_fit(ns, end),
        0 <= a < structural_requests(bs, gone, ns, ms, end).len(),
    ensures
        works(bs, gone, ns, ms, structural_requests(bs, gone, ns, ms, end)[a]),
{
    let tagged = deletions(bs, gone, bs.len() as int) + insertions(
        bs,
        ns,
        ms,
        end,
        ns.len() as int,
    );
    let keys = tag_keys(tagged);
    law_order(keys);
    let t = order_of(keys)[a];
    let e = tagged[t];
    lemma_entry(bs, gone, ns, ms, end, t);
    if deletion_of(bs, gone, bs.len() as int, e) {
        let i = choose|i: int|
            0 <= i < bs.len() && #[trigger] gone[i] && deletes(e.1, bs[i]) && e.0 == bs[i].start;
        assert(gone[i] && deletes(e.1, bs[i]));
    } else {
        let k = choose|k: int|
            0 <= k < ns.len() && #[trigger] comes(ns, ms, k) && inserts(e.1, ns[k], e.0) && e.0
                == next_kept(bs, ms, k + 1, end);
        assert(comes(ns, ms, k));
    }
}

proof fn lemma_all_deleted(
    bs: Seq<Barrier>,
    gone: Seq<bool>,
    ns: Seq<NodeV>,
    ms: Seq<Option<int>>,
    end: int,
    b: Barrier,
)
    requires
        deleted_by(requests_of(deletions(bs, gone, bs.len() as int)), b),
    ensures
        deleted_by(structural_requests(bs, gone, ns, ms, end), b),
{
    let dels = deletions(bs, gone, bs.len() as int);
    let tagged = dels + insertions(bs, ns, ms, end, ns.len() as int);
    let rs = requests_of(dels);
    let t = choose|t: int| 0 <= t < rs.len() && deletes(#[trigger] rs[t], b);
    let a = lemma_visited(tag_keys(tagged), t);
    assert(structural_requests(bs, gone, ns, ms, end)[a] == rs[t]);
}

proof fn lemma_all_inserted(
    bs: Seq<Barrier>,
    gone: Seq<bool>,
    ns: Seq<NodeV>,
    ms: Seq<Option<int>>,
    end: int,
    n: NodeV,
    index: int,
)
    requires
        inserted_by(requests_of(insertions(bs, ns, ms, end, ns.len() as int)), n, index),
    ensures
        inserted_by(structural_requests(bs, gone, ns, ms, end), n, index),
{
    let dels = deletions(bs, gone, bs.len() as int);
    let ins = insertions(bs, ns, ms, end, ns.len() as int);
    let tagged = dels + ins;
    let rs = requests_of(ins);
    let t = choose|t: int| 0 <= t < rs.len() && inserts(#[trigger] rs[t], n, index);
    let a = lemma_visited(tag_keys(tagged), dels.len() + t);
    assert(tagged[dels.len() + t] == ins[t]);
    assert(structural_requests(bs, gone, ns, ms, end)[a] == rs[t]);
}

/// The structural requests work from the end of the document to its front, so that none
/// moves what a later one is about.
pub proof fn law_structure_last_first(
    bs: Seq<Barrier>,
    gone: Seq<bool>,
    ns: Seq<NodeV>,
    ms: Seq<Option<int>>,
    end: int,
    a: int,
    b: int,
)
    requires
        gone.len() == bs.len(),
        ms.len() == ns.len(),
        places_fit(ns, end),
        0 <= a <= b < structural_requests(bs, gone, ns, ms, end).len(),
    ensures
        op_place(structural_requests(bs, gone, ns, ms, end)[a]) is Some,
        op_place(structural_requests(bs, gone, ns, ms, end)[b]) is Some,
        op_place(structural_requests(bs, gone, ns, ms, end)[a])->0 >= op_place(
            structural_requests(bs, gone, ns, ms, end)[b],
        )->0,
{
    let tagged = deletions(bs, gone, bs.len() as int) + insertions(
        bs,
        ns,
        ms,
        end,
        ns.len() as int,
    );
    let keys = tag_keys(tagged);
    let order = order_of(keys);
    law_order(keys);
    lemma_entry(bs, gone, ns, ms, end, order[a]);
    lemma_entry(bs, gone, ns, ms, end, order[b]);
    assert(keys[order[a]] >= keys[order[b]]);
}

/// The requests that make the barriers of a document agree with those of a model are these.
pub proof fn law_reconciled(
    cur: Seq<CurNodeV>,
    model: Seq<NodeV>,
    end: int,
    steps: Seq<EditStep>,
)
    ensures
        ({
            let (ops, _, _) = reconciled(cur, model, end, steps);
            ops == structural_requests(
                barriers_of(cur),
                all_gone(steps),
                barrier_nodes(model),
                all_matches(steps),
                end,
            )
        }),
{
}

// ---------------------------------------------------------------------------
// What is left out
// ---------------------------------------------------------------------------

/// A barrier that is left out: a rule or a table of contents that the document does not have.
pub open spec fn left_out(ns: Seq<NodeV>, ms: Seq<Option<int>>, j: int) -> bool {
    0 <= j < ns.len() && ms[j] is None && (ns[j] is Rule || ns[j] is Toc)
}

/// How many of the first `n` barriers are left out.
pub open spec fn left_out_count(ns: Seq<NodeV>, ms: Seq<Option<int>>, n: int) -> nat
    decreases n,
{
    if n <= 0 {
        0
    } else {
        left_out_count(ns, ms, n - 1) + if left_out(ns, ms, n - 1) {
            1nat
        } else {
            0nat
        }
    }
}

proof fn lemma_warned(ns: Seq<NodeV>, ms: Seq<Option<int>>, n: int)
    requires
        0 <= n <= ns.len(),
        forall|j: int| 0 <= j < ns.len() ==> !((#[trigger] ns[j]) is Para),
    ensures
        barrier_warnings(ns, ms, n).len() == left_out_count(ns, ms, n),
        forall|j: int|
            0 <= j < n && #[trigger] left_out(ns, ms, j) ==> barrier_warnings(ns, ms, n)[
            left_out_count(ns, ms, j) as int] == if ns[j] is Rule {
                "a horizontal rule (`---`) can't be created via the API; left out"@
            } else {
                "a table of contents can't be created via the API; left out"@
            },
    decreases n,
{
    if n > 0 {
        lemma_warned(ns, ms, n - 1);
        assert(!(ns[n - 1] is Para));
        let before = barrier_warnings(ns, ms, n - 1);
        let all = barrier_warnings(ns, ms, n);
        assert forall|j: int| 0 <= j < n && #[trigger] left_out(ns, ms, j) implies all[
        left_out_count(ns, ms, j) as int] == if ns[j] is Rule {
            "a horizontal rule (`---`) can't be created via the API; left out"@
        } else {
            "a table of contents can't be created via the API; left out"@
        } by {
            if j < n - 1 {
                lemma_count_less(ns, ms, j, n - 1);
                assert(all[left_out_count(ns, ms, j) as int] == before[
                left_out_count(ns, ms, j) as int]);
            }
        }
    }
}

proof fn lemma_count_less(ns: Seq<NodeV>, ms: Seq<Option<int>>, j: int, n: int)
    requires
        0 <= j < n,
        left_out(ns, ms, j),
    ensures
        left_out_count(ns, ms, j) < left_out_count(ns, ms, n),
    decreases n,
{
    if j < n - 1 {
        lemma_count_less(ns, ms, j, n - 1);
    }
}

proof fn lemma_barriers_only(nodes: Seq<NodeV>)
    ensures
        forall|j: int|
            0 <= j < barrier_nodes(nodes).len() ==> !((#[trigger] barrier_nodes(nodes)[j])
                is Para),
    decreases nodes.len(),
{
    if nodes.len() > 0 {
        lemma_barriers_only(nodes.drop_last());
        let before = barrier_nodes(nodes.drop_last());
        let all = barrier_nodes(nodes);
        assert forall|j: int| 0 <= j < all.len() implies !((#[trigger] all[j]) is Para) by {
            if j < before.len() {
                assert(all[j] == before[j]);
            }
        }
    }
}

proof fn lemma_left(model: Seq<NodeV>, ms: Seq<Option<int>>, n: int)
    requires
        0 <= n <= model.len(),
    ensures
        achievable(model, ms, n).len() + left_out_count(
            barrier_nodes(model),
            ms,
            barrier_count(model.take(n)) as int,
        ) == n,
    decreases n,
{
    if n > 0 {
        lemma_left(model, ms, n - 1);
        let all = barrier_nodes(model);
        let node = model[n - 1];
        assert(model.take(n).drop_last() =~= model.take(n - 1));
        assert(model.take(n).last() == node);
        if node.barrier() {
            let k = barrier_count(model.take(n - 1)) as int;
            lemma_barrier_at(model, n - 1);
            assert(all[k] == node);
        }
    } else {
        assert(model.take(0) =~= Seq::<NodeV>::empty());
    }
}

/// The barrier of a model among its barriers.
proof fn lemma_barrier_at(model: Seq<NodeV>, i: int)
    requires
        0 <= i < model.len(),
        model[i].barrier(),
    ensures
        barrier_count(model.take(i)) < barrier_nodes(model).len(),
        barrier_nodes(model)[barrier_count(model.take(i)) as int] == model[i],
    decreases model.len(),
{
    let init = model.drop_last();
    if i == model.len() - 1 {
        assert(model.take(i) =~= init);
        lemma_barrier_count(init);
    } else {
        assert(init.take(i) =~= model.take(i));
        lemma_barrier_at(init, i);
    }
}

/// Each rule and each table of contents that the document does not have is left out of the
/// model with a warning that says so, in their order, and nothing else is left out.
pub proof fn law_left_out(model: Seq<NodeV>, ms: Seq<Option<int>>)
    ensures
        ({
            let ns = barrier_nodes(model);
            let n = ns.len() as int;
            let warnings = barrier_warnings(ns, ms, n);
            &&& warnings.len() == left_out_count(ns, ms, n)
            &&& achievable(model, ms, model.len() as int).len() + warnings.len() == model.len()
            &&& forall|j: int|
                0 <= j < n && #[trigger] left_out(ns, ms, j) ==> warnings[
                left_out_count(ns, ms, j) as int] == if ns[j] is Rule {
                    "a horizontal rule (`---`) can't be created via the API; left out"@
                } else {
                    "a table of contents can't be created via the API; left out"@
                }
        }),
{
    let ns = barrier_nodes(model);
    lemma_barriers_only(model);
    lemma_warned(ns, ms, ns.len() as int);
    lemma_left(model, ms, model.len() as int);
    assert(model.take(model.len() as int) =~= model);
    lemma_barrier_count(model);
}

// ---------------------------------------------------------------------------
// Tables
// ---------------------------------------------------------------------------

/// Where the table starts that a request is about.
pub open spec fn table_place(j: JsonV) -> Option<int> {
    match read_table_request(j) {
        Some((start, _)) => Some(start),
        None => None,
    }
}

/// Every request on a table is about the table that starts there.
proof fn lemma_resize_starts(r: Resize)
    requires
        growable(r),
    ensures
        forall|a: int|
            0 <= a < resize_ops(r).len() ==> table_place(#[trigger] resize_ops(r)[a]) == Some(
                r.start as int,
            ),
{
    let ops = resize_ops(r);
    assert forall|a: int| 0 <= a < ops.len() implies table_place(#[trigger] ops[a]) == Some(
        r.start as int,
    ) by {
        let more_rows = excess(r.des_rows, r.cur_rows) as int;
        let less_rows = excess(r.cur_rows, r.des_rows) as int;
        let more_cols = excess(r.des_cols, r.cur_cols) as int;
        if a < more_rows {
            law_table_requests(r.start as int, r.cur_rows - 1 + a, 0);
        } else if a < more_rows + less_rows {
            law_table_requests(r.start as int, r.cur_rows - 1 - (a - more_rows), 0);
        } else if a < more_rows + less_rows + more_cols {
            law_table_requests(r.start as int, 0, r.cur_cols - 1 + (a - more_rows - less_rows));
        } else {
            law_table_requests(
                r.start as int,
                0,
                r.cur_cols - 1 - (a - more_rows - less_rows - more_cols),
            );
        }
    }
}

proof fn lemma_ops_starts(rs: Seq<Resize>, n: int)
    requires
        0 <= n <= rs.len(),
        forall|i: int| 0 <= i < rs.len() ==> growable(#[trigger] rs[i]),
    ensures
        ({
            let order = order_of(resize_keys(rs));
            let ops = ops_in_order(rs, order, n);
            &&& forall|a: int|
                0 <= a < ops.len() ==> (table_place(#[trigger] ops[a]) matches Some(start)
                    && (n > 0 && start >= rs[order[n - 1]].start))
            &&& forall|a: int, b: int|
                0 <= a < b < ops.len() ==> table_place(#[trigger] ops[a])->0
                    >= table_place(#[trigger] ops[b])->0
        }),
    decreases n,
{
    if n > 0 {
        let keys = resize_keys(rs);
        let order = order_of(keys);
        lemma_ops_starts(rs, n - 1);
        law_order(keys);
        let r = rs[order[n - 1]];
        assert(growable(rs[order[n - 1]]));
        lemma_resize_starts(r);
        let before = ops_in_order(rs, order, n - 1);
        let own = resize_ops(r);
        let ops = ops_in_order(rs, order, n);
        if n > 1 {
            assert(keys[order[n - 2]] >= keys[order[n - 1]]);
        }
        assert forall|a: int| 0 <= a < ops.len() implies (table_place(#[trigger] ops[a])
            matches Some(start) && start >= r.start) by {
            if a < before.len() {
                assert(ops[a] == before[a]);
                assert(table_place(before[a]) is Some);
            } else {
                assert(ops[a] == own[a - before.len()]);
                assert(table_place(own[a - before.len()]) is Some);
            }
        }
        assert forall|a: int, b: int| 0 <= a < b < ops.len() implies table_place(
            #[trigger] ops[a],
        )->0 >= table_place(#[trigger] ops[b])->0 by {
            if b < before.len() {
                assert(ops[a] == before[a] && ops[b] == before[b]);
            } else {
                assert(ops[b] == own[b - before.len()]);
                assert(table_place(own[b - before.len()]) is Some);
            }
        }
    }
}

/// The tables of a document are reshaped from its end to its front, so that no request moves
/// a table that a later one is about; the requests of each table come together.
pub proof fn law_tables_last_first(cur: Seq<CurNodeV>, model: Seq<NodeV>)
    requires
        forall|i: int|
            0 <= i < all_resizes(cur, model).len() ==> growable(
                #[trigger] all_resizes(cur, model)[i],
            ),
    ensures
        ({
            let ops = resize_requests(cur, model);
            &&& forall|a: int| 0 <= a < ops.len() ==> table_place(#[trigger] ops[a]) is Some
            &&& forall|a: int, b: int|
                0 <= a < b < ops.len() ==> table_place(#[trigger] ops[a])->0
                    >= table_place(#[trigger] ops[b])->0
        }),
        forall|i: int|
            0 <= i < all_resizes(cur, model).len() ==> together(
                resize_requests(cur, model),
                resize_ops(#[trigger] all_resizes(cur, model)[i]),
            ),
{
    let rs = all_resizes(cur, model);
    let n = rs.len() as int;
    lemma_ops_starts(rs, n);
    let keys = resize_keys(rs);
    let order = order_of(keys);
    assert forall|i: int| 0 <= i < rs.len() implies together(
        resize_requests(cur, model),
        resize_ops(#[trigger] rs[i]),
    ) by {
        let a = lemma_visited(keys, i);
        lemma_together(rs, order, a, n);
    }
}

/// The requests stand in a row among the others.
pub open spec fn together(all: Seq<JsonV>, own: Seq<JsonV>) -> bool {
    exists|front: Seq<JsonV>, back: Seq<JsonV>| all == #[trigger] (front + own + back)
}

proof fn lemma_together(rs: Seq<Resize>, order: Seq<int>, a: int, n: int)
    requires
        0 <= a < n,
    ensures
        together(ops_in_order(rs, order, n), resize_ops(rs[order[a]])),
    decreases n,
{
    let own = resize_ops(rs[order[a]]);
    let all = ops_in_order(rs, order, n);
    let before = ops_in_order(rs, order, n - 1);
    if a == n - 1 {
        let none = Seq::<JsonV>::empty();
        assert(all =~= before + own + none);
    } else {
        lemma_together(rs, order, a, n - 1);
        let (front, back) = choose|front: Seq<JsonV>, back: Seq<JsonV>|
            before == #[trigger] (front + own + back);
        let more = resize_ops(rs[order[n - 1]]);
        assert(all =~= front + own + (back + more));
    }
}

// ---------------------------------------------------------------------------
// Barriers and tables of a document
// ---------------------------------------------------------------------------

/// The barriers of a document are its tables, rules and tables of contents, in their order
/// and with their ranges; no two kinds are taken for one another.
pub proof fn law_barriers(nodes: Seq<CurNodeV>, n: CurNodeV)
    requires
        n matches CurNodeV::Table { start, end, .. } ==> 0 <= start <= usize::MAX && 0 <= end
            <= usize::MAX,
        n matches CurNodeV::Rule { start, end } ==> 0 <= start <= usize::MAX && 0 <= end
            <= usize::MAX,
        n matches CurNodeV::Toc { start, end } ==> 0 <= start <= usize::MAX && 0 <= end
            <= usize::MAX,
    ensures
        barriers_of(Seq::empty()).len() == 0,
        ({
            let before = barriers_of(nodes);
            let all = barriers_of(nodes.push(n));
            match n {
                CurNodeV::Paras(_) => all == before,
                CurNodeV::Table { start, end, .. } => all.len() == before.len() + 1
                    && all.drop_last() == before && all.last().kind is Table && all.last().start
                    == start && all.last().end == end,
                CurNodeV::Rule { start, end } => all.len() == before.len() + 1 && all.drop_last()
                    == before && all.last().kind is Rule && all.last().start == start
                    && all.last().end == end,
                CurNodeV::Toc { start, end } => all.len() == before.len() + 1 && all.drop_last()
                    == before && all.last().kind is Toc && all.last().start == start
                    && all.last().end == end,
            }
        }),
{
    assert(nodes.push(n).drop_last() =~= nodes);
    let before = barriers_of(nodes);
    let all = barriers_of(nodes.push(n));
    if !(n is Paras) {
        assert(all.drop_last() =~= before);
    }
}

/// Barriers have one number just where they are of one kind.
pub proof fn law_kinds_apart(a: BarrierKind, b: BarrierKind)
    ensures
        kind_number(a) == kind_number(b) <==> a == b,
        node_kind(NodeV::Rule) is Rule,
        node_kind(NodeV::Toc) is Toc,
        forall|rows: Seq<Seq<Seq<RunV>>>| #[trigger] node_kind(NodeV::Table(rows)) is Table,
{
}

/// A table and its counterpart are reshaped from the dimensions of the one to those of the
/// other, where the table starts.
pub proof fn law_resize(cur: Seq<CurNodeV>, des: Seq<DesV>, n: int, i: int)
    requires
        0 <= i < n <= cur.len(),
        n <= des.len(),
        cur[i] is Table,
        des[i] is Table,
        0 <= cur[i]->Table_start <= usize::MAX,
        cur[i]->Table_cells.len() <= usize::MAX,
        cur[i]->Table_cells.len() > 0 ==> cur[i]->Table_cells[0].len() <= usize::MAX,
        des[i]->Table_0.len() <= usize::MAX,
        des[i]->Table_0.len() > 0 ==> des[i]->Table_0[0].len() <= usize::MAX,
    ensures
        ({
            let cells = cur[i]->Table_cells;
            let rows = des[i]->Table_0;
            exists|k: int|
                0 <= k < resizes(cur, des, n).len() && ({
                    let r = #[trigger] resizes(cur, des, n)[k];
                    &&& r.start == cur[i]->Table_start
                    &&& r.cur_rows == cells.len()
                    &&& r.cur_cols == if cells.len() == 0 {
                        0
                    } else {
                        cells[0].len()
                    }
                    &&& r.des_rows == rows.len()
                    &&& r.des_cols == if rows.len() == 0 {
                        0
                    } else {
                        rows[0].len()
                    }
                })
        }),
    decreases n,
{
    let all = resizes(cur, des, n);
    let before = resizes(cur, des, n - 1);
    if i < n - 1 {
        law_resize(cur, des, n - 1, i);
        let cells = cur[i]->Table_cells;
        let rows = des[i]->Table_0;
        let k = choose|k: int|
            0 <= k < before.len() && ({
                let r = #[trigger] before[k];
                &&& r.start == cur[i]->Table_start
                &&& r.cur_rows == cells.len()
                &&& r.cur_cols == if cells.len() == 0 {
                    0
                } else {
                    cells[0].len()
                }
                &&& r.des_rows == rows.len()
                &&& r.des_cols == if rows.len() == 0 {
                    0
                } else {
                    rows[0].len()
                }
            });
        assert(all[k] == before[k]);
    } else {
        assert(all[before.len() as int] == resize_of(cur[i], des[i])->0);
    }
}

} // verus!
