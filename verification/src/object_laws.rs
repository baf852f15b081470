//! Edits around inline objects: where one stretch of a text is replaced by text without an
//! object, the edits keep every object.
use crate::diff::{
    edit_script, kept, kept_at, lcs, lemma_step_bounds, longest, new_at, old_at, EditStep,
};
use crate::model::OBJECT_SENTINEL;
use crate::request::RequestV;
use crate::shortest::{
    lemma_kept_common, lemma_lcs_common, lemma_lcs_prefix, lemma_lcs_splice, lemma_lcs_step,
};
use crate::text::utf16_len;
use crate::text_pass::{all_requests, keep_final_all, script_requests, step_requests};
use vstd::prelude::*;

verus! {

/// The sequences agree in the first `a` and in the last `b` elements.
pub open spec fn agree<T>(old: Seq<T>, new: Seq<T>, a: int, b: int) -> bool {
    &&& 0 <= a && 0 <= b
    &&& a + b <= old.len() && a + b <= new.len()
    &&& old.take(a) == new.take(a)
    &&& old.skip(old.len() - b) == new.skip(new.len() - b)
}

/// The new text is the old one with one stretch replaced by text that holds no inline
/// object.
pub open spec fn edits_around(old: Seq<char>, new: Seq<char>) -> bool {
    exists|a: int, b: int| #[trigger]
        agree(old, new, a, b) && !new.subrange(a, new.len() - b).contains(OBJECT_SENTINEL)
}

/// How often `e` occurs.
pub open spec fn occurrences<T>(s: Seq<T>, e: T) -> int
    decreases s.len(),
{
    if s.len() == 0 {
        0
    } else {
        occurrences(s.drop_last(), e) + if s.last() == e {
            1int
        } else {
            0
        }
    }
}

// ---------------------------------------------------------------------------
// More on longest common subsequences
// ---------------------------------------------------------------------------

proof fn lemma_lcs_sym<T>(a: Seq<T>, b: Seq<T>)
    ensures
        lcs(a, b) == lcs(b, a),
    decreases a.len() + b.len(),
{
    if a.len() > 0 && b.len() > 0 {
        lemma_lcs_sym(a.drop_last(), b.drop_last());
        lemma_lcs_sym(a.drop_last(), b);
        lemma_lcs_sym(a, b.drop_last());
    }
}

/// No more is common than either sequence holds.
proof fn lemma_lcs_len<T>(a: Seq<T>, b: Seq<T>)
    ensures
        0 <= lcs(a, b) <= a.len(),
        lcs(a, b) <= b.len(),
    decreases a.len() + b.len(),
{
    if a.len() > 0 && b.len() > 0 {
        lemma_lcs_len(a.drop_last(), b.drop_last());
        lemma_lcs_len(a.drop_last(), b);
        lemma_lcs_len(a, b.drop_last());
    }
}

/// What two parts have in common, the whole has.
proof fn lemma_lcs_join<T>(a: Seq<T>, b: Seq<T>, c: Seq<T>, d: Seq<T>)
    ensures
        lcs(a, b) + lcs(c, d) <= lcs(a + c, b + d),
    decreases c.len() + d.len(),
{
    if c.len() == 0 || d.len() == 0 {
        lemma_lcs_prefix(a + c, b + d, a.len() as int, b.len() as int);
        assert((a + c).take(a.len() as int) =~= a);
        assert((b + d).take(b.len() as int) =~= b);
    } else {
        let (x, y) = (c.drop_last(), d.drop_last());
        assert((a + c).drop_last() =~= a + x);
        assert((b + d).drop_last() =~= b + y);
        lemma_lcs_join(a, b, x, y);
        lemma_lcs_join(a, b, x, d);
        lemma_lcs_join(a, b, c, y);
        lemma_lcs_step(a + c, b + d);
    }
}

/// What the whole has in common is common to two parts.
proof fn lemma_lcs_split<T>(a: Seq<T>, b: Seq<T>, c: Seq<T>) -> (i: int)
    ensures
        0 <= i <= a.len(),
        lcs(a, b + c) <= lcs(a.take(i), b) + lcs(a.skip(i), c),
    decreases a.len() + c.len(),
{
    if c.len() == 0 {
        assert(b + c =~= b);
        assert(a.take(a.len() as int) =~= a);
        a.len() as int
    } else if a.len() == 0 {
        0
    } else {
        let (x, y) = (a.drop_last(), c.drop_last());
        assert((b + c).drop_last() =~= b + y);
        if a.last() == c.last() {
            let i = lemma_lcs_split(x, b, y);
            assert(a.take(i) =~= x.take(i));
            assert(a.skip(i).drop_last() =~= x.skip(i));
            i
        } else if lcs(a, b + c) == lcs(x, b + c) {
            let i = lemma_lcs_split(x, b, c);
            assert(a.take(i) =~= x.take(i));
            assert(a.skip(i).drop_last() =~= x.skip(i));
            lemma_lcs_step(a.skip(i), c);
            i
        } else {
            let i = lemma_lcs_split(a, b, y);
            lemma_lcs_step(a.skip(i), c);
            i
        }
    }
}

/// Elements in front of one sequence add at most themselves.
proof fn lemma_lcs_front<T>(z: Seq<T>, a: Seq<T>, b: Seq<T>)
    ensures
        lcs(a, b) <= lcs(z + a, b) <= z.len() + lcs(a, b),
        lcs(b, a) <= lcs(b, z + a) <= z.len() + lcs(b, a),
{
    let none = Seq::<T>::empty();
    lemma_lcs_splice(b, none, z, a);
    assert(none + a =~= a);
    assert(none + z + a =~= z + a);
    lemma_lcs_sym(a, b);
    lemma_lcs_sym(z + a, b);
}

/// Elements behind one sequence add at most themselves.
proof fn lemma_lcs_back<T>(a: Seq<T>, z: Seq<T>, b: Seq<T>)
    ensures
        lcs(a, b) <= lcs(a + z, b) <= z.len() + lcs(a, b),
        lcs(b, a) <= lcs(b, a + z) <= z.len() + lcs(b, a),
{
    let none = Seq::<T>::empty();
    lemma_lcs_splice(b, a, z, none);
    assert(a + none =~= a);
    assert(a + z + none =~= a + z);
    lemma_lcs_sym(a, b);
    lemma_lcs_sym(a + z, b);
}

/// What stands in front of both sequences is common.
proof fn lemma_lcs_common_front<T>(c: Seq<T>, a: Seq<T>, b: Seq<T>)
    ensures
        lcs(c + a, c + b) == c.len() + lcs(a, b),
{
    let none = Seq::<T>::empty();
    lemma_lcs_common(none, none, c);
    assert(none + c =~= c);
    lemma_lcs_join(c, c, a, b);
    let i = lemma_lcs_split(c + a, c, b);
    let (x, y) = ((c + a).take(i), (c + a).skip(i));
    lemma_lcs_len(x, c);
    if i <= c.len() {
        let z = c.skip(i);
        assert(y =~= z + a);
        lemma_lcs_front(z, a, b);
    } else {
        let z = a.take(i - c.len());
        assert(a =~= z + y);
        lemma_lcs_front(z, y, b);
    }
}

proof fn lemma_occurrences_add<T>(a: Seq<T>, b: Seq<T>, e: T)
    ensures
        occurrences(a + b, e) == occurrences(a, e) + occurrences(b, e),
    decreases b.len(),
{
    if b.len() == 0 {
        assert(a + b =~= a);
    } else {
        lemma_occurrences_add(a, b.drop_last(), e);
        assert((a + b).drop_last() =~= a + b.drop_last());
    }
}

proof fn lemma_occurrences<T>(s: Seq<T>, e: T)
    ensures
        0 <= occurrences(s, e),
        s.contains(e) <==> occurrences(s, e) > 0,
    decreases s.len(),
{
    if s.len() > 0 {
        let init = s.drop_last();
        lemma_occurrences(init, e);
        if s.contains(e) && s.last() != e {
            let k = choose|k: int| 0 <= k < s.len() && s[k] == e;
            assert(init[k] == e);
        }
        if init.contains(e) {
            let k = choose|k: int| 0 <= k < init.len() && init[k] == e;
            assert(s[k] == e);
        }
        if s.last() == e {
            assert(s[s.len() - 1] == e);
        }
    }
}

/// An element that occurs more often in one sequence than in the other is not common each
/// time.
proof fn lemma_lcs_occurrences<T>(a: Seq<T>, b: Seq<T>, e: T)
    ensures
        lcs(a, b) + occurrences(a, e) <= a.len() + occurrences(b, e),
    decreases a.len() + b.len(),
{
    lemma_occurrences_len(a, e);
    lemma_occurrences(b, e);
    if a.len() > 0 && b.len() > 0 {
        lemma_lcs_occurrences(a.drop_last(), b.drop_last(), e);
        lemma_lcs_occurrences(a.drop_last(), b, e);
        lemma_lcs_occurrences(a, b.drop_last(), e);
    }
}

proof fn lemma_occurrences_len<T>(s: Seq<T>, e: T)
    ensures
        0 <= occurrences(s, e) <= s.len(),
    decreases s.len(),
{
    if s.len() > 0 {
        lemma_occurrences_len(s.drop_last(), e);
    }
}

// ---------------------------------------------------------------------------
// One stretch replaced
// ---------------------------------------------------------------------------

/// Elements in front of one side are not all common where one of them is `e`, which the
/// other side has only at its end.
proof fn lemma_extra_front<T>(z: Seq<T>, x: Seq<T>, y: Seq<T>, s: Seq<T>, e: T)
    requires
        z.contains(e),
        !y.contains(e),
    ensures
        lcs(z + x + s, y + s) < z.len() + s.len() + lcs(x, y),
{
    let t = choose|t: int| 0 <= t < z.len() && z[t] == e;
    let (u, v) = (z.take(t + 1), z.skip(t + 1));
    let w = v + x + s;
    assert(z + x + s =~= u + w);
    lemma_lcs_sym(u + w, y + s);
    let j = lemma_lcs_split(y + s, u, w);
    let (f, g) = ((y + s).take(j), (y + s).skip(j));
    lemma_lcs_sym(f, u);
    lemma_lcs_sym(g, w);
    lemma_lcs_len(x, y);
    if j <= y.len() {
        let (y1, y2) = (y.take(j), y.skip(j));
        assert(f =~= y1);
        assert(g =~= y2 + s);
        lemma_occurrences(u, e);
        assert(u[t] == e);
        lemma_occurrences(y1, e);
        if y1.contains(e) {
            let k = choose|k: int| 0 <= k < y1.len() && y1[k] == e;
            assert(y[k] == e);
        }
        lemma_lcs_occurrences(u, y1, e);
        lemma_lcs_common(v + x, y2, s);
        lemma_lcs_front(v, x, y2);
        lemma_lcs_front(y1, y2, x);
        assert(y1 + y2 =~= y);
    } else {
        lemma_lcs_len(u, f);
        lemma_lcs_len(w, g);
    }
}

/// Elements behind one side are not all common where one of them is `e`, which the other
/// side has only in front.
proof fn lemma_extra_back<T>(p: Seq<T>, x: Seq<T>, z: Seq<T>, y: Seq<T>, e: T)
    requires
        z.contains(e),
        !y.contains(e),
    ensures
        lcs(p + x + z, p + y) < z.len() + p.len() + lcs(x, y),
{
    let t = choose|t: int| 0 <= t < z.len() && z[t] == e;
    let (u, v) = (z.take(t), z.skip(t));
    let w = p + x + u;
    assert(p + x + z =~= w + v);
    lemma_lcs_sym(w + v, p + y);
    let j = lemma_lcs_split(p + y, w, v);
    let (f, g) = ((p + y).take(j), (p + y).skip(j));
    lemma_lcs_sym(f, w);
    lemma_lcs_sym(g, v);
    lemma_lcs_len(x, y);
    if j >= p.len() {
        let (y1, y2) = (y.take(j - p.len()), y.skip(j - p.len()));
        assert(f =~= p + y1);
        assert(g =~= y2);
        lemma_occurrences(v, e);
        assert(v[0] == e);
        lemma_occurrences(y2, e);
        if y2.contains(e) {
            let k = choose|k: int| 0 <= k < y2.len() && y2[k] == e;
            assert(y[j - p.len() + k] == e);
        }
        lemma_lcs_occurrences(v, y2, e);
        assert(w =~= p + (x + u));
        lemma_lcs_common_front(p, x + u, y1);
        lemma_lcs_back(x, u, y1);
        lemma_lcs_back(y1, y2, x);
        assert(y1 + y2 =~= y);
    } else {
        lemma_lcs_len(w, f);
        lemma_lcs_len(v, g);
    }
}

/// Without an `e` of the common front, less is common.
proof fn lemma_front_needed<T>(p: Seq<T>, x: Seq<T>, y: Seq<T>, s: Seq<T>, q: int, e: T)
    requires
        0 <= q < p.len(),
        p[q] == e,
        !y.contains(e),
    ensures
        lcs(p + x + s, p.remove(q) + y + s) < p.len() + s.len() + lcs(x, y),
{
    let old = p + x + s;
    let r = p.remove(q);
    assert(r =~= p.take(q) + p.skip(q + 1));
    assert(r + y + s =~= r + (y + s));
    let i = lemma_lcs_split(old, r, y + s);
    let (f, g) = (old.take(i), old.skip(i));
    lemma_lcs_common(x, y, s);
    lemma_lcs_len(f, r);
    if i <= p.len() {
        let (p1, z) = (p.take(i), p.skip(i));
        assert(f =~= p1);
        assert(g =~= z + x + s);
        assert(p1 + z =~= p);
        lemma_occurrences_add(p1, z, e);
        let one = seq![p[q]];
        assert(p =~= p.take(q) + one + p.skip(q + 1));
        lemma_occurrences_add(p.take(q), one, e);
        lemma_occurrences_add(p.take(q) + one, p.skip(q + 1), e);
        lemma_occurrences_add(p.take(q), p.skip(q + 1), e);
        assert(occurrences(one, e) == 1) by {
            reveal_with_fuel(occurrences, 2);
            assert(one.drop_last() =~= Seq::<T>::empty());
        }
        lemma_lcs_occurrences(p1, r, e);
        lemma_occurrences(z, e);
        if z.contains(e) {
            lemma_extra_front(z, x, y, s, e);
        } else {
            assert(z + x + s =~= z + (x + s));
            lemma_lcs_front(z, x + s, y + s);
        }
    } else {
        let c = (x + s).take(i - p.len());
        assert(x + s =~= c + g);
        lemma_lcs_front(c, g, y + s);
    }
}

/// Without an `e` of the common end, less is common.
proof fn lemma_back_needed<T>(p: Seq<T>, x: Seq<T>, y: Seq<T>, s: Seq<T>, q: int, e: T)
    requires
        0 <= q < s.len(),
        s[q] == e,
        !y.contains(e),
    ensures
        lcs(p + x + s, p + y + s.remove(q)) < p.len() + s.len() + lcs(x, y),
{
    let old = p + x + s;
    let r = s.remove(q);
    let n = p.len() + x.len();
    assert(r =~= s.take(q) + s.skip(q + 1));
    let i = lemma_lcs_split(old, p + y, r);
    let (f, g) = (old.take(i), old.skip(i));
    lemma_lcs_common_front(p, x, y);
    lemma_lcs_len(g, r);
    if i >= n {
        let (z, s2) = (s.take(i - n), s.skip(i - n));
        assert(f =~= p + x + z);
        assert(g =~= s2);
        assert(z + s2 =~= s);
        lemma_occurrences_add(z, s2, e);
        let one = seq![s[q]];
        assert(s =~= s.take(q) + one + s.skip(q + 1));
        lemma_occurrences_add(s.take(q), one, e);
        lemma_occurrences_add(s.take(q) + one, s.skip(q + 1), e);
        lemma_occurrences_add(s.take(q), s.skip(q + 1), e);
        assert(occurrences(one, e) == 1) by {
            reveal_with_fuel(occurrences, 2);
            assert(one.drop_last() =~= Seq::<T>::empty());
        }
        lemma_lcs_occurrences(s2, r, e);
        lemma_occurrences(z, e);
        if z.contains(e) {
            lemma_extra_back(p, x, z, y, e);
        } else {
            lemma_lcs_back(p + x, z, p + y);
        }
    } else {
        let c = (p + x).skip(i);
        assert(p + x =~= f + c);
        lemma_lcs_back(f, c, p + y);
    }
}

// ---------------------------------------------------------------------------
// Scripts
// ---------------------------------------------------------------------------

/// What the steps from the `k`-th on keep is common to what they cover.
proof fn lemma_kept_rest<T>(steps: Seq<EditStep>, old: Seq<T>, new: Seq<T>, k: int)
    requires
        edit_script(steps, old, new),
        0 <= k <= steps.len(),
    ensures
        kept_at(steps, steps.len() as int) - kept_at(steps, k) <= lcs(
            old.skip(old_at(steps, k)),
            new.skip(new_at(steps, k)),
        ),
    decreases steps.len() - k,
{
    if k == steps.len() {
        lemma_lcs_len(old.skip(old_at(steps, k)), new.skip(new_at(steps, k)));
    } else {
        lemma_kept_rest(steps, old, new, k + 1);
        lemma_step_bounds(steps, old, new, k);
        assert(steps[k].shaped());
        assert(kept(steps, old, new, k));
        let (o, p) = (old_at(steps, k), old_at(steps, k + 1));
        let (n, m) = (new_at(steps, k), new_at(steps, k + 1));
        let (c, d) = (old.subrange(o, p), new.subrange(n, m));
        assert(old.skip(o) =~= c + old.skip(p));
        assert(new.skip(n) =~= d + new.skip(m));
        if steps[k].kind is Equal {
            lemma_lcs_common_front(c, old.skip(p), new.skip(m));
        } else {
            lemma_lcs_front(c, old.skip(p), new.skip(m));
            lemma_lcs_front(d, new.skip(m), c + old.skip(p));
        }
    }
}

/// Where an element of the new sequence is not kept, the script keeps no more than is common
/// without it.
proof fn lemma_not_kept<T>(steps: Seq<EditStep>, old: Seq<T>, new: Seq<T>, k: int, q: int)
    requires
        edit_script(steps, old, new),
        0 <= k < steps.len(),
        !(steps[k].kind is Equal),
        new_at(steps, k) <= q < new_at(steps, k + 1),
    ensures
        0 <= q < new.len(),
        kept_at(steps, steps.len() as int) <= lcs(old, new.remove(q)),
{
    lemma_step_bounds(steps, old, new, k);
    lemma_kept_common(steps, old, new, k);
    lemma_kept_rest(steps, old, new, k + 1);
    let (o, p) = (old_at(steps, k), old_at(steps, k + 1));
    let (n, m) = (new_at(steps, k), new_at(steps, k + 1));
    let (a, b) = (old.take(o), old.skip(p));
    let (c, d) = (new.take(n), new.skip(m));
    lemma_lcs_join(a, c, b, d);
    let gone = old.subrange(o, p);
    let rest = new.subrange(n, q) + new.subrange(q + 1, m);
    assert(old =~= a + gone + b);
    assert(new.remove(q) =~= c + rest + d);
    lemma_lcs_splice(a + b, c, rest, d);
    lemma_lcs_splice(c + rest + d, a, gone, b);
    lemma_lcs_sym(a + b, c + rest + d);
    lemma_lcs_sym(a + gone + b, c + rest + d);
}

/// Where one stretch of a sequence is replaced by one without `e`, a script that keeps a
/// longest common subsequence keeps every `e` of the new sequence: no step inserts one.
pub proof fn law_kept_around<T>(
    steps: Seq<EditStep>,
    old: Seq<T>,
    new: Seq<T>,
    a: int,
    b: int,
    e: T,
    k: int,
    q: int,
)
    requires
        edit_script(steps, old, new),
        longest(steps, old, new),
        agree(old, new, a, b),
        !new.subrange(a, new.len() - b).contains(e),
        0 <= k < steps.len(),
        new_at(steps, k) <= q < new_at(steps, k + 1),
        new[q] == e,
    ensures
        steps[k].kind is Equal,
{
    if !(steps[k].kind is Equal) {
        lemma_not_kept(steps, old, new, k, q);
        let (p, s) = (old.take(a), old.skip(old.len() - b));
        let x = old.subrange(a, old.len() - b);
        let y = new.subrange(a, new.len() - b);
        assert(old =~= p + x + s);
        assert(new =~= p + y + s);
        lemma_lcs_common(p + x, p + y, s);
        lemma_lcs_common_front(p, x, y);
        if q < a {
            assert(p[q] == e);
            lemma_front_needed(p, x, y, s, q, e);
            assert(new.remove(q) =~= p.remove(q) + y + s);
        } else if q < new.len() - b {
            assert(y[q - a] == e);
        } else {
            let t = q - (new.len() - b);
            assert(s[t] == e);
            lemma_back_needed(p, x, y, s, t, e);
            assert(new.remove(q) =~= p + y + s.remove(t));
        }
    }
}

// ---------------------------------------------------------------------------
// Requests
// ---------------------------------------------------------------------------

/// No request inserts an inline object.
pub open spec fn inserts_none(rs: Seq<RequestV>) -> bool {
    forall|i: int|
        0 <= i < rs.len() ==> ((#[trigger] rs[i]) matches RequestV::Insert { text, .. }
            ==> !text.contains(OBJECT_SENTINEL))
}

/// Where no step inserts an object, no request does.
proof fn lemma_script_inserts(
    steps: Seq<EditStep>,
    old: Seq<char>,
    new: Seq<char>,
    k: int,
    m: int,
)
    requires
        0 <= k <= m <= steps.len(),
        forall|i: int|
            0 <= i < steps.len() && !((#[trigger] steps[i]).kind is Equal) ==> !new.subrange(
                new_at(steps, i),
                new_at(steps, i + 1),
            ).contains(OBJECT_SENTINEL),
    ensures
        inserts_none(script_requests(steps, old, new, k, m)),
    decreases m - k,
{
    if k < m {
        lemma_script_inserts(steps, old, new, k + 1, m);
        let a = script_requests(steps, old, new, k + 1, m);
        let b = step_requests(steps, old, new, k);
        let all = script_requests(steps, old, new, k, m);
        assert forall|i: int| 0 <= i < all.len() implies ((
        #[trigger] all[i]) matches RequestV::Insert { text, .. } ==> !text.contains(
            OBJECT_SENTINEL,
        )) by {
            if i < a.len() {
                assert(all[i] == a[i]);
            } else {
                assert(all[i] == b[i - a.len()]);
            }
        }
    }
}

/// Fitting requests to an immovable final line feed puts no object into them.
proof fn lemma_fitted_inserts(rs: Seq<RequestV>, l: int)
    requires
        inserts_none(rs),
    ensures
        inserts_none(keep_final_all(rs, l)),
{
    let all = keep_final_all(rs, l);
    assert forall|i: int| 0 <= i < all.len() implies ((
    #[trigger] all[i]) matches RequestV::Insert { text, .. } ==> !text.contains(
        OBJECT_SENTINEL,
    )) by {
        if let RequestV::Insert { index, text } = rs[i] {
            let fitted = seq!['\n'] + text.drop_last();
            if text.len() > 0 && fitted.contains(OBJECT_SENTINEL) {
                let k = choose|k: int| 0 <= k < fitted.len() && fitted[k] == OBJECT_SENTINEL;
                assert(text[k - 1] == OBJECT_SENTINEL);
            }
        }
    }
}

/// Where one stretch of a text is replaced by text without an inline object, the edits
/// insert none, whatever objects stand around it: a text can be edited around its objects.
pub proof fn law_edited_around(steps: Seq<EditStep>, old: Seq<char>, new: Seq<char>)
    requires
        edit_script(steps, old, new),
        longest(steps, old, new),
        edits_around(old, new),
    ensures
        inserts_none(all_requests(steps, old, new)),
        inserts_none(keep_final_all(all_requests(steps, old, new), utf16_len(old) as int)),
{
    let (a, b) = choose|a: int, b: int| #[trigger]
        agree(old, new, a, b) && !new.subrange(a, new.len() - b).contains(OBJECT_SENTINEL);
    assert forall|i: int|
        0 <= i < steps.len() && !((#[trigger] steps[i]).kind is Equal) implies !new.subrange(
        new_at(steps, i),
        new_at(steps, i + 1),
    ).contains(OBJECT_SENTINEL) by {
        let (n, m) = (new_at(steps, i), new_at(steps, i + 1));
        lemma_step_bounds(steps, old, new, i);
        let t = new.subrange(n, m);
        if t.contains(OBJECT_SENTINEL) {
            let k = choose|k: int| 0 <= k < t.len() && t[k] == OBJECT_SENTINEL;
            law_kept_around(steps, old, new, a, b, OBJECT_SENTINEL, i, n + k);
        }
    }
    lemma_script_inserts(steps, old, new, 0, steps.len() as int);
    lemma_fitted_inserts(all_requests(steps, old, new), utf16_len(old) as int);
}

/// A text without an inline object is edited around those of any other.
pub proof fn lemma_no_object(old: Seq<char>, new: Seq<char>)
    requires
        !new.contains(OBJECT_SENTINEL),
    ensures
        edits_around(old, new),
{
    assert(old.take(0) =~= new.take(0));
    assert(old.skip(old.len() as int) =~= new.skip(new.len() as int));
    assert(agree(old, new, 0, 0));
    assert(new.subrange(0, new.len() as int) =~= new);
}

} // verus!
