//! Edit scripts that keep as much as can be kept: none is shorter.
use crate::apply::{all_apply, applied, applies, apply_all};
use crate::diff::{
    edit_script, kept, kept_at, lcs, lemma_step_bounds, longest, new_at, old_at, EditStep, StepKind,
};
use crate::request::RequestV;
use crate::text_laws::{bmp, lemma_bmp_index};
use crate::text_pass::{all_requests, keep_final_all, script_requests, step_requests};
use vstd::prelude::*;

verus! {

// ---------------------------------------------------------------------------
// Longest common subsequences
// ---------------------------------------------------------------------------

/// Taking the last element away from one side costs at most one common element.
pub proof fn lemma_lcs_step<T>(a: Seq<T>, b: Seq<T>)
    ensures
        0 <= lcs(a, b),
        a.len() > 0 ==> lcs(a.drop_last(), b) <= lcs(a, b) <= lcs(a.drop_last(), b) + 1,
        b.len() > 0 ==> lcs(a, b.drop_last()) <= lcs(a, b) <= lcs(a, b.drop_last()) + 1,
    decreases a.len() + b.len(),
{
    if a.len() > 0 && b.len() > 0 {
        lemma_lcs_step(a.drop_last(), b);
        lemma_lcs_step(a, b.drop_last());
    }
}

/// Longer sequences have no less in common.
pub proof fn lemma_lcs_prefix<T>(a: Seq<T>, b: Seq<T>, i: int, j: int)
    requires
        0 <= i <= a.len(),
        0 <= j <= b.len(),
    ensures
        lcs(a.take(i), b.take(j)) <= lcs(a, b),
    decreases a.len() + b.len(),
{
    if i < a.len() {
        lemma_lcs_prefix(a.drop_last(), b, i, j);
        lemma_lcs_step(a, b);
        assert(a.drop_last().take(i) =~= a.take(i));
    } else if j < b.len() {
        lemma_lcs_prefix(a, b.drop_last(), i, j);
        lemma_lcs_step(a, b);
        assert(b.drop_last().take(j) =~= b.take(j));
    } else {
        assert(a.take(i) =~= a);
        assert(b.take(j) =~= b);
    }
}

/// What stands at the end of both sequences is common.
pub proof fn lemma_lcs_common<T>(a: Seq<T>, b: Seq<T>, c: Seq<T>)
    ensures
        lcs(a + c, b + c) == lcs(a, b) + c.len(),
    decreases c.len(),
{
    if c.len() == 0 {
        assert(a + c =~= a);
        assert(b + c =~= b);
    } else {
        lemma_lcs_common(a, b, c.drop_last());
        assert((a + c).drop_last() =~= a + c.drop_last());
        assert((b + c).drop_last() =~= b + c.drop_last());
    }
}

/// Putting something into one of the sequences takes nothing from what they have in
/// common, and adds no more than was put in.
pub proof fn lemma_lcs_splice<T>(a: Seq<T>, x: Seq<T>, m: Seq<T>, y: Seq<T>)
    ensures
        lcs(a, x + y) <= lcs(a, x + m + y) <= lcs(a, x + y) + m.len(),
    decreases a.len() + m.len() + y.len(),
{
    if y.len() > 0 {
        let z = y.drop_last();
        assert((x + y).drop_last() =~= x + z);
        assert((x + m + y).drop_last() =~= x + m + z);
        lemma_lcs_splice(a, x, m, z);
        if a.len() > 0 {
            lemma_lcs_splice(a.drop_last(), x, m, z);
            lemma_lcs_splice(a.drop_last(), x, m, y);
        }
    } else if m.len() > 0 {
        let n = m.drop_last();
        assert((x + m + y).drop_last() =~= x + n + y);
        lemma_lcs_splice(a, x, n, y);
        lemma_lcs_step(a, x + m + y);
    } else {
        assert(x + m + y =~= x + y);
    }
}

/// Sequences whose elements agree in the same places have as much in common.
pub proof fn lemma_lcs_same<S, T>(a: Seq<S>, b: Seq<S>, c: Seq<T>, d: Seq<T>)
    requires
        a.len() == c.len(),
        b.len() == d.len(),
        forall|i: int, j: int|
            #![trigger a[i], b[j]]
            0 <= i < a.len() && 0 <= j < b.len() ==> (a[i] == b[j] <==> c[i] == d[j]),
    ensures
        lcs(a, b) == lcs(c, d),
    decreases a.len() + b.len(),
{
    if a.len() > 0 && b.len() > 0 {
        assert(a[a.len() - 1] == b[b.len() - 1] <==> c[c.len() - 1] == d[d.len() - 1]);
        lemma_lcs_same(a.drop_last(), b.drop_last(), c.drop_last(), d.drop_last());
        lemma_lcs_same(a.drop_last(), b, c.drop_last(), d);
        lemma_lcs_same(a, b.drop_last(), c, d.drop_last());
    }
}

// ---------------------------------------------------------------------------
// Scripts
// ---------------------------------------------------------------------------

/// How many elements the first `k` steps delete and insert.
pub open spec fn changed_at(steps: Seq<EditStep>, k: int) -> int
    decreases k,
{
    if k <= 0 {
        0
    } else {
        changed_at(steps, k - 1) + if steps[k - 1].kind is Equal {
            0
        } else {
            steps[k - 1].old_len + steps[k - 1].new_len
        }
    }
}

/// How many elements the script deletes and inserts.
pub open spec fn changed(steps: Seq<EditStep>) -> int {
    changed_at(steps, steps.len() as int)
}

/// No edit script between the two sequences deletes and inserts fewer elements.
pub open spec fn fewest_changes<T>(steps: Seq<EditStep>, old: Seq<T>, new: Seq<T>) -> bool {
    forall|other: Seq<EditStep>| #[trigger]
        edit_script(other, old, new) ==> changed(steps) <= changed(other)
}

/// What steps cover, they keep, delete or insert.
proof fn lemma_changed<T>(steps: Seq<EditStep>, old: Seq<T>, new: Seq<T>, k: int)
    requires
        edit_script(steps, old, new),
        0 <= k <= steps.len(),
    ensures
        changed_at(steps, k) + 2 * kept_at(steps, k) == old_at(steps, k) + new_at(steps, k),
    decreases k,
{
    if k > 0 {
        lemma_changed(steps, old, new, k - 1);
        assert(steps[k - 1].shaped());
    }
}

/// Later steps change no less.
proof fn lemma_changed_grows(steps: Seq<EditStep>, k: int, l: int)
    requires
        0 <= k <= l <= steps.len(),
    ensures
        0 <= changed_at(steps, k) <= changed_at(steps, l),
    decreases l,
{
    if l > 0 {
        if k < l {
            lemma_changed_grows(steps, k, l - 1);
        } else {
            lemma_changed_grows(steps, k - 1, l - 1);
        }
    }
}

/// What the steps keep is common to what they cover.
pub proof fn lemma_kept_common<T>(steps: Seq<EditStep>, old: Seq<T>, new: Seq<T>, k: int)
    requires
        edit_script(steps, old, new),
        0 <= k <= steps.len(),
    ensures
        kept_at(steps, k) <= lcs(old.take(old_at(steps, k)), new.take(new_at(steps, k))),
    decreases k,
{
    if k == 0 {
        lemma_lcs_step(old.take(0), new.take(0));
    } else {
        lemma_kept_common(steps, old, new, k - 1);
        lemma_step_bounds(steps, old, new, k - 1);
        assert(steps[k - 1].shaped());
        assert(kept(steps, old, new, k - 1));
        let (o, p) = (old_at(steps, k - 1), old_at(steps, k));
        let (n, q) = (new_at(steps, k - 1), new_at(steps, k));
        if steps[k - 1].kind is Equal {
            let c = old.subrange(o, p);
            lemma_lcs_common(old.take(o), new.take(n), c);
            assert(old.take(o) + c =~= old.take(p));
            assert(new.take(n) + c =~= new.take(q));
        } else {
            lemma_lcs_prefix(old.take(p), new.take(q), o, n);
            assert(old.take(p).take(o) =~= old.take(o));
            assert(new.take(q).take(n) =~= new.take(n));
        }
    }
}

/// No edit script keeps more than a longest common subsequence.
pub proof fn law_kept_is_common<T>(steps: Seq<EditStep>, old: Seq<T>, new: Seq<T>)
    requires
        edit_script(steps, old, new),
    ensures
        kept_at(steps, steps.len() as int) <= lcs(old, new),
{
    lemma_kept_common(steps, old, new, steps.len() as int);
    assert(old.take(old.len() as int) =~= old);
    assert(new.take(new.len() as int) =~= new);
}

/// A script that keeps a longest common subsequence is a shortest one: no edit script
/// between the two sequences deletes and inserts fewer elements.
pub proof fn law_fewest_changes<T>(steps: Seq<EditStep>, old: Seq<T>, new: Seq<T>)
    requires
        edit_script(steps, old, new),
        longest(steps, old, new),
    ensures
        changed(steps) == old.len() + new.len() - 2 * lcs(old, new),
        fewest_changes(steps, old, new),
{
    lemma_changed(steps, old, new, steps.len() as int);
    assert forall|other: Seq<EditStep>| #[trigger] edit_script(other, old, new) implies changed(
        steps,
    ) <= changed(other) by {
        lemma_changed(other, old, new, other.len() as int);
        law_kept_is_common(other, old, new);
    }
}

/// A script that keeps a longest common subsequence changes nothing between equal
/// sequences, and where the last elements agree it does not end with a replacement.
pub open spec fn tight<T>(steps: Seq<EditStep>, old: Seq<T>, new: Seq<T>) -> bool {
    &&& old == new ==> forall|k: int| 0 <= k < steps.len() ==> (#[trigger] steps[k]).kind is Equal
    &&& old.len() > 0 && new.len() > 0 && old.last() == new.last() && steps.len() > 0 ==> !(
    steps.last().kind is Replace)
}

/// A script that keeps a longest common subsequence is tight.
pub proof fn law_tight<T>(steps: Seq<EditStep>, old: Seq<T>, new: Seq<T>)
    requires
        edit_script(steps, old, new),
        longest(steps, old, new),
    ensures
        tight(steps, old, new),
{
    let n = steps.len() as int;
    if old == new {
        lemma_lcs_common(Seq::<T>::empty(), Seq::<T>::empty(), old);
        assert(Seq::<T>::empty() + old =~= old);
        lemma_changed(steps, old, new, n);
        assert forall|k: int| 0 <= k < n implies (#[trigger] steps[k]).kind is Equal by {
            assert(steps[k].shaped());
            lemma_changed_grows(steps, 0, k);
            lemma_changed_grows(steps, k + 1, n);
        }
    }
    if old.len() > 0 && new.len() > 0 && old.last() == new.last() && n > 0
        && steps.last().kind is Replace {
        let (o, q) = (old_at(steps, n - 1), new_at(steps, n - 1));
        assert(steps[n - 1].shaped());
        lemma_step_bounds(steps, old, new, n - 1);
        lemma_kept_common(steps, old, new, n - 1);
        lemma_lcs_prefix(old.drop_last(), new.drop_last(), o, q);
        assert(old.drop_last().take(o) =~= old.take(o));
        assert(new.drop_last().take(q) =~= new.take(q));
        assert(false);
    }
}

// ---------------------------------------------------------------------------
// Requests
// ---------------------------------------------------------------------------

/// How much a request inserts or deletes.
pub open spec fn edit_len(r: RequestV) -> int {
    match r {
        RequestV::Insert { text, .. } => text.len() as int,
        RequestV::Delete { start, end } => end - start,
        _ => 0,
    }
}

/// How much the requests insert and delete.
pub open spec fn edit_size(rs: Seq<RequestV>) -> int
    decreases rs.len(),
{
    if rs.len() == 0 {
        0
    } else {
        edit_size(rs.drop_last()) + edit_len(rs.last())
    }
}

/// No requests that turn the old text into the new one insert and delete less.
pub open spec fn fewest_edits(rs: Seq<RequestV>, old: Seq<char>, new: Seq<char>) -> bool {
    forall|other: Seq<RequestV>|
        all_apply(old, other) && #[trigger] apply_all(old, other) == new ==> edit_size(rs)
            <= edit_size(other)
}

/// The size of two lists of requests.
proof fn lemma_size_add(a: Seq<RequestV>, b: Seq<RequestV>)
    ensures
        edit_size(a + b) == edit_size(a) + edit_size(b),
    decreases b.len(),
{
    if b.len() == 0 {
        assert(a + b =~= a);
    } else {
        lemma_size_add(a, b.drop_last());
        assert((a + b).drop_last() =~= a + b.drop_last());
    }
}

/// The requests of steps insert and delete what the steps change.
proof fn lemma_script_size(
    steps: Seq<EditStep>,
    old: Seq<char>,
    new: Seq<char>,
    k: int,
    m: int,
)
    requires
        edit_script(steps, old, new),
        bmp(old),
        0 <= k <= m <= steps.len(),
    ensures
        edit_size(script_requests(steps, old, new, k, m)) == changed_at(steps, m) - changed_at(
            steps,
            k,
        ),
    decreases m - k,
{
    if k < m {
        lemma_script_size(steps, old, new, k + 1, m);
        let rest = script_requests(steps, old, new, k + 1, m);
        let here = step_requests(steps, old, new, k);
        lemma_size_add(rest, here);
        lemma_step_bounds(steps, old, new, k);
        lemma_bmp_index(old, old_at(steps, k));
        lemma_bmp_index(old, old_at(steps, k + 1));
        assert(steps[k].shaped());
        assert(edit_size(here) == changed_at(steps, k + 1) - changed_at(steps, k)) by {
            reveal_with_fuel(edit_size, 3);
            match steps[k].kind {
                StepKind::Replace => {
                    assert(here.drop_last() =~= seq![here[0]]);
                    assert(here.drop_last().drop_last() =~= Seq::<RequestV>::empty());
                },
                StepKind::Equal => {},
                _ => {
                    assert(here.drop_last() =~= Seq::<RequestV>::empty());
                },
            }
        }
    }
}

/// What requests lead to differs from the text no more than they insert and delete.
proof fn lemma_size_bounds(text: Seq<char>, rs: Seq<RequestV>)
    requires
        all_apply(text, rs),
    ensures
        ({
            let t = apply_all(text, rs);
            text.len() + t.len() - 2 * lcs(text, t) <= edit_size(rs)
        }),
    decreases rs.len(),
{
    if rs.len() == 0 {
        lemma_lcs_common(Seq::<char>::empty(), Seq::<char>::empty(), text);
        assert(Seq::<char>::empty() + text =~= text);
    } else {
        let init = rs.drop_last();
        let n = rs.len() - 1;
        assert forall|i: int| 0 <= i < init.len() implies applies(
            apply_all(text, #[trigger] init.take(i)),
            init[i],
        ) by {
            assert(init.take(i) =~= rs.take(i));
        }
        lemma_size_bounds(text, init);
        assert(rs.take(n) =~= init);
        let mid = apply_all(text, init);
        assert(applies(mid, rs[n]));
        match rs[n] {
            RequestV::Insert { index, text: t } => {
                let (x, y) = (mid.take(index - 1), mid.skip(index - 1));
                lemma_lcs_splice(text, x, t, y);
                assert(x + y =~= mid);
                assert(applied(mid, rs[n]) =~= x + t + y);
            },
            RequestV::Delete { start, end } => {
                let (x, y) = (mid.take(start - 1), mid.skip(end - 1));
                let m = mid.subrange(start - 1, end - 1);
                lemma_lcs_splice(text, x, m, y);
                assert(x + m + y =~= mid);
                assert(applied(mid, rs[n]) =~= x + y);
            },
            _ => {},
        }
    }
}

/// The edits of a script that keeps a longest common subsequence are minimal: no requests
/// that turn the old text into the new one insert and delete fewer characters.
pub proof fn law_fewest_edits(steps: Seq<EditStep>, old: Seq<char>, new: Seq<char>)
    requires
        edit_script(steps, old, new),
        longest(steps, old, new),
        bmp(old),
    ensures
        edit_size(all_requests(steps, old, new)) == changed(steps),
        fewest_edits(all_requests(steps, old, new), old, new),
{
    lemma_script_size(steps, old, new, 0, steps.len() as int);
    law_fewest_changes(steps, old, new);
    let rs = all_requests(steps, old, new);
    assert forall|other: Seq<RequestV>|
        all_apply(old, other) && #[trigger] apply_all(old, other) == new implies edit_size(rs)
        <= edit_size(other) by {
        lemma_size_bounds(old, other);
    }
}

/// Fitting requests to an immovable final line feed makes them insert and delete no more.
pub proof fn lemma_fitted_size(rs: Seq<RequestV>, l: int)
    ensures
        edit_size(keep_final_all(rs, l)) <= edit_size(rs),
    decreases rs.len(),
{
    if rs.len() > 0 {
        lemma_fitted_size(rs.drop_last(), l);
        assert(keep_final_all(rs, l).drop_last() =~= keep_final_all(rs.drop_last(), l));
    }
}

} // verus!
