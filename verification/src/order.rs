//! A stable sort by descending key.
use vstd::prelude::*;

verus! {

/// `x` put into the list behind everything whose key is not smaller.
pub open spec fn placed(s: Seq<(int, int)>, x: (int, int)) -> Seq<(int, int)>
    decreases s.len(),
{
    if s.len() == 0 || s.last().0 >= x.0 {
        s.push(x)
    } else {
        placed(s.drop_last(), x).push(s.last())
    }
}

/// The pairs sorted by their first component, the greatest first; pairs with one first
/// component keep their order.
pub open spec fn sorted(s: Seq<(int, int)>) -> Seq<(int, int)>
    decreases s.len(),
{
    if s.len() == 0 {
        s
    } else {
        placed(sorted(s.drop_last()), s.last())
    }
}

/// Keys do not grow.
pub open spec fn descending(s: Seq<(int, int)>) -> bool {
    forall|i: int, j: int| 0 <= i <= j < s.len() ==> (#[trigger] s[i]).0 >= (#[trigger] s[j]).0
}

proof fn lemma_placed(s: Seq<(int, int)>, x: (int, int))
    requires
        descending(s),
    ensures
        descending(placed(s, x)),
        placed(s, x).to_multiset() == s.to_multiset().insert(x),
        placed(s, x).len() == s.len() + 1,
        forall|i: int|
            0 <= i < placed(s, x).len() ==> (#[trigger] placed(s, x)[i]) == x || s.contains(
                placed(s, x)[i],
            ),
    decreases s.len(),
{
    broadcast use vstd::seq_lib::group_to_multiset_ensures;

    if s.len() == 0 || s.last().0 >= x.0 {
        assert(placed(s, x) =~= s.push(x));
        assert forall|i: int| 0 <= i < s.len() implies s.contains(#[trigger] s.push(x)[i]) by {
            assert(s[i] == s.push(x)[i]);
        }
    } else {
        let init = s.drop_last();
        lemma_placed(init, x);
        let p = placed(init, x);
        assert(s =~= init.push(s.last()));
        assert forall|i: int| 0 <= i < p.len() implies (#[trigger] p[i]).0 >= s.last().0 by {
            if p[i] != x {
                let k = choose|k: int| 0 <= k < init.len() && init[k] == p[i];
                assert(s[k].0 >= s[s.len() - 1].0);
            }
        }
        assert(p.push(s.last()).to_multiset() =~= s.to_multiset().insert(x));
        assert forall|i: int| 0 <= i < p.push(s.last()).len() implies (#[trigger] p.push(
            s.last(),
        )[i]) == x || s.contains(p.push(s.last())[i]) by {
            if i < p.len() {
                if p[i] != x {
                    let k = choose|k: int| 0 <= k < init.len() && init[k] == p[i];
                    assert(s[k] == p[i]);
                }
            } else {
                assert(s[s.len() - 1] == s.last());
            }
        }
    }
}

/// Sorting gives the same pairs in descending order of their keys.
pub proof fn lemma_sorted(s: Seq<(int, int)>)
    ensures
        descending(sorted(s)),
        sorted(s).to_multiset() == s.to_multiset(),
        sorted(s).len() == s.len(),
        forall|i: int| 0 <= i < s.len() ==> s.contains(#[trigger] sorted(s)[i]),
    decreases s.len(),
{
    broadcast use vstd::seq_lib::group_to_multiset_ensures;

    if s.len() > 0 {
        let init = s.drop_last();
        lemma_sorted(init);
        lemma_placed(sorted(init), s.last());
        assert(s =~= init.push(s.last()));
        assert forall|i: int| 0 <= i < s.len() implies s.contains(#[trigger] sorted(s)[i]) by {
            let y = sorted(s)[i];
            if y == s.last() {
                assert(s[s.len() - 1] == y);
            } else {
                let k = choose|k: int| 0 <= k < sorted(init).len() && sorted(init)[k] == y;
                assert(init.contains(sorted(init)[k]));
                let m = choose|m: int| 0 <= m < init.len() && init[m] == y;
                assert(s[m] == y);
            }
        }
    }
}

/// The pairs as integers.
pub open spec fn pair_views(v: Seq<(usize, usize)>) -> Seq<(int, int)> {
    Seq::new(v.len(), |i: int| (v[i].0 as int, v[i].1 as int))
}

/// Each key with its position.
pub open spec fn keyed(keys: Seq<int>) -> Seq<(int, int)> {
    Seq::new(keys.len(), |i: int| (keys[i], i))
}

/// The positions of the keys in the order of descending keys; positions of one key
/// keep their order.
pub open spec fn order_of(keys: Seq<int>) -> Seq<int> {
    Seq::new(keys.len(), |i: int| sorted(keyed(keys))[i].1)
}

/// The keys as integers.
pub open spec fn key_views(keys: Seq<usize>) -> Seq<int> {
    Seq::new(keys.len(), |i: int| keys[i] as int)
}

/// Put `x` into the list behind everything whose key is not smaller.
fn place(v: &mut Vec<(usize, usize)>, x: (usize, usize))
    ensures
        pair_views(final(v)@) == placed(pair_views(old(v)@), (x.0 as int, x.1 as int)),
{
    let ghost xv = (x.0 as int, x.1 as int);
    let ghost all = pair_views(v@);
    let n: usize = v.len();
    let mut p: usize = n;
    assert(all.take(n as int) =~= all);
    assert(all.skip(n as int) =~= Seq::<(int, int)>::empty());
    assert(placed(all, xv) =~= placed(all.take(n as int), xv) + all.skip(n as int));
    while p > 0 && v[p - 1].0 < x.0
        invariant
            p <= n,
            n == v@.len(),
            v@ == old(v)@,
            all == pair_views(v@),
            xv == (x.0 as int, x.1 as int),
            placed(all, xv) == placed(all.take(p as int), xv) + all.skip(p as int),
        decreases p,
    {
        let ghost t = all.take(p as int);
        assert(t.drop_last() =~= all.take(p - 1));
        assert(t.last() == all[p - 1]);
        assert(placed(t, xv) + all.skip(p as int) =~= placed(t.drop_last(), xv) + all.skip(p - 1));
        p = p - 1;
    }
    proof {
        let t = all.take(p as int);
        if p > 0 {
            assert(t.last() == all[p - 1]);
        }
        assert(placed(t, xv) =~= t.push(xv));
    }
    v.insert(p, x);
    assert(pair_views(v@) =~= all.take(p as int).push(xv) + all.skip(p as int));
}

/// The positions of the keys in the order of descending keys; positions of one key
/// keep their order.
pub fn descending_order(keys: &Vec<usize>) -> (r: Vec<usize>)
    ensures
        r@.len() == keys@.len(),
        key_views(r@) == order_of(key_views(keys@)),
        forall|i: int| 0 <= i < r@.len() ==> (#[trigger] r@[i]) < keys@.len(),
{
    let n: usize = keys.len();
    let ghost ks = keyed(key_views(keys@));
    let mut v: Vec<(usize, usize)> = Vec::new();
    assert(ks.take(0) =~= Seq::<(int, int)>::empty());
    assert(pair_views(v@) =~= sorted(ks.take(0)));
    for i in 0..n
        invariant
            n == keys@.len(),
            ks == keyed(key_views(keys@)),
            pair_views(v@) == sorted(ks.take(i as int)),
    {
        place(&mut v, (keys[i], i));
        assert(ks.take(i + 1).drop_last() =~= ks.take(i as int));
        assert(ks.take(i + 1).last() == (keys@[i as int] as int, i as int));
    }
    assert(ks.take(n as int) =~= ks);
    proof {
        lemma_sorted(ks);
    }
    assert(v@.len() == n) by {
        assert(pair_views(v@).len() == v@.len());
    }
    let mut out: Vec<usize> = Vec::new();
    for i in 0..n
        invariant
            n == keys@.len(),
            n == v@.len(),
            ks == keyed(key_views(keys@)),
            pair_views(v@) == sorted(ks),
            forall|k: int| 0 <= k < ks.len() ==> ks.contains(#[trigger] sorted(ks)[k]),
            out@.len() == i,
            forall|k: int| 0 <= k < i ==> (#[trigger] out@[k]) == sorted(ks)[k].1 && out@[k] < n,
    {
        out.push(v[i].1);
        assert(pair_views(v@)[i as int] == sorted(ks)[i as int]);
        assert(ks.contains(sorted(ks)[i as int]));
    }
    assert(key_views(out@) =~= order_of(key_views(keys@)));
    out
}

/// In the order of descending keys, the keys do not grow, and every position comes.
pub proof fn law_order(keys: Seq<int>)
    ensures
        order_of(keys).len() == keys.len(),
        forall|i: int| 0 <= i < keys.len() ==> 0 <= #[trigger] order_of(keys)[i] < keys.len(),
        forall|i: int, j: int|
            0 <= i <= j < keys.len() ==> keys[#[trigger] order_of(keys)[i]] >= keys[
            #[trigger] order_of(keys)[j]],
        order_of(keys).to_multiset() == Seq::new(keys.len(), |i: int| i).to_multiset(),
{
    let ks = keyed(keys);
    lemma_sorted(ks);
    assert forall|i: int| 0 <= i < keys.len() implies 0 <= #[trigger] order_of(keys)[i] < keys.len()
        && sorted(ks)[i] == (keys[order_of(keys)[i]], order_of(keys)[i]) by {
        assert(ks.contains(sorted(ks)[i]));
        let k = choose|k: int| 0 <= k < ks.len() && ks[k] == sorted(ks)[i];
    }
    assert forall|i: int, j: int| 0 <= i <= j < keys.len() implies keys[#[trigger] order_of(
        keys,
    )[i]] >= keys[#[trigger] order_of(keys)[j]] by {
        assert(sorted(ks)[i].0 >= sorted(ks)[j].0);
    }
    lemma_seconds(sorted(ks), ks);
    assert(order_of(keys) =~= seconds(sorted(ks)));
    assert(seconds(ks) =~= Seq::new(keys.len(), |i: int| i));
}

/// The second components.
pub open spec fn seconds(s: Seq<(int, int)>) -> Seq<int> {
    Seq::new(s.len(), |i: int| s[i].1)
}

/// How many pairs of the multiset have this second component.
proof fn lemma_seconds(a: Seq<(int, int)>, b: Seq<(int, int)>)
    requires
        a.to_multiset() == b.to_multiset(),
    ensures
        seconds(a).to_multiset() == seconds(b).to_multiset(),
    decreases a.len(),
{
    broadcast use vstd::seq_lib::group_to_multiset_ensures;

    if a.len() == 0 {
        assert(a.to_multiset().len() == 0);
        assert(b.to_multiset().len() == b.len());
        assert(seconds(a) =~= seconds(b));
    } else {
        let x = a.last();
        assert(a.contains(x)) by {
            assert(a[a.len() - 1] == x);
        }
        assert(a.to_multiset().contains(x));
        assert(b.contains(x));
        let k = choose|k: int| 0 <= k < b.len() && b[k] == x;
        let b2 = b.remove(k);
        let a2 = a.drop_last();
        assert(a =~= a2.push(x));
        assert(a2.to_multiset() =~= a.to_multiset().remove(x));
        assert(b2.to_multiset() =~= b.to_multiset().remove(x));
        lemma_seconds(a2, b2);
        assert(seconds(a) =~= seconds(a2).push(x.1));
        assert(seconds(b2) =~= seconds(b).remove(k));
        assert(seconds(b).to_multiset() =~= seconds(b2).to_multiset().insert(x.1)) by {
            assert(seconds(b)[k] == x.1);
            assert(seconds(b).contains(x.1));
            assert(seconds(b2).to_multiset() == seconds(b).to_multiset().remove(x.1));
        }
        assert(seconds(a).to_multiset() =~= seconds(a2).to_multiset().insert(x.1));
    }
}

/// Every position comes in the order.
pub proof fn lemma_order_covers(keys: Seq<int>, m: int)
    requires
        0 <= m < keys.len(),
    ensures
        exists|k: int| 0 <= k < keys.len() && #[trigger] order_of(keys)[k] == m,
{
    law_order(keys);
    let all = Seq::new(keys.len(), |i: int| i);
    assert(all[m] == m);
    assert(all.contains(m));
    all.to_multiset_ensures();
    order_of(keys).to_multiset_ensures();
    assert(all.to_multiset().count(m) > 0);
    assert(order_of(keys).contains(m));
}

/// Pairs of one key stand in the order of their second components.
spec fn steady(s: Seq<(int, int)>) -> bool {
    forall|i: int, j: int|
        0 <= i < j < s.len() && (#[trigger] s[i]).0 == (#[trigger] s[j]).0 ==> s[i].1 < s[j].1
}

proof fn lemma_placed_steady(s: Seq<(int, int)>, x: (int, int))
    requires
        descending(s),
        steady(s),
        forall|i: int| 0 <= i < s.len() ==> (#[trigger] s[i]).1 < x.1,
    ensures
        steady(placed(s, x)),
    decreases s.len(),
{
    if s.len() == 0 || s.last().0 >= x.0 {
    } else {
        let init = s.drop_last();
        lemma_placed(init, x);
        lemma_placed_steady(init, x);
        let p = placed(init, x);
        let out = p.push(s.last());
        assert forall|i: int, j: int|
            0 <= i < j < out.len() && (#[trigger] out[i]).0 == (#[trigger] out[j]).0 implies out[i].1
            < out[j].1 by {
            if j < p.len() {
                assert(p[i].0 == p[j].0);
            } else {
                assert(out[i] == p[i]);
                if p[i] != x {
                    assert(init.contains(p[i]));
                    let k = choose|k: int| 0 <= k < init.len() && init[k] == p[i];
                    assert(s[k].0 == s[s.len() - 1].0);
                }
            }
        }
    }
}

proof fn lemma_sorted_steady(keys: Seq<int>, n: int)
    requires
        0 <= n <= keys.len(),
    ensures
        steady(sorted(keyed(keys).take(n))),
        forall|i: int| 0 <= i < n ==> (#[trigger] sorted(keyed(keys).take(n))[i]).1 < n,
    decreases n,
{
    let ks = keyed(keys).take(n);
    lemma_sorted(ks);
    assert forall|i: int| 0 <= i < n implies (#[trigger] sorted(ks)[i]).1 < n by {
        assert(ks.contains(sorted(ks)[i]));
        let k = choose|k: int| 0 <= k < ks.len() && ks[k] == sorted(ks)[i];
    }
    if n > 0 {
        lemma_sorted_steady(keys, n - 1);
        let init = keyed(keys).take(n - 1);
        lemma_sorted(init);
        assert(ks.drop_last() =~= init);
        lemma_placed_steady(sorted(init), ks.last());
    }
}

/// Positions of one key keep their order.
pub proof fn law_order_stable(keys: Seq<int>, i: int, j: int)
    requires
        0 <= i < j < keys.len(),
        keys[order_of(keys)[i]] == keys[order_of(keys)[j]],
    ensures
        order_of(keys)[i] < order_of(keys)[j],
{
    let n = keys.len() as int;
    let ks = keyed(keys);
    lemma_sorted_steady(keys, n);
    assert(ks.take(n) =~= ks);
    lemma_sorted(ks);
    assert(ks.contains(sorted(ks)[i]) && ks.contains(sorted(ks)[j]));
    let a = choose|a: int| 0 <= a < ks.len() && ks[a] == sorted(ks)[i];
    let b = choose|b: int| 0 <= b < ks.len() && ks[b] == sorted(ks)[j];
    assert(sorted(ks)[i].0 == sorted(ks)[j].0);
}

} // verus!
