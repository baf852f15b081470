//! Offline simulator of the text semantics of `batchUpdate`.
//!
//! Requests apply in order, and each one's indices refer to the text as it stands at
//! that point. Document index `n` is the character at offset `n - 1`.
use crate::request::{request_views, Request, RequestV};
use crate::text::{push_chars, push_str, to_chars, to_text};
use vstd::prelude::*;
use vstd::slice::slice_subrange;

verus! {

/// `s` with `t` put in at `o`.
pub open spec fn splice_in<T>(s: Seq<T>, o: int, t: Seq<T>) -> Seq<T> {
    s.take(o) + t + s.skip(o)
}

/// `s` without what stands between `a` and `b`.
pub open spec fn cut_out<T>(s: Seq<T>, a: int, b: int) -> Seq<T> {
    s.take(a) + s.skip(b)
}

/// The request refers to places that the text has.
pub open spec fn applies(text: Seq<char>, r: RequestV) -> bool {
    match r {
        RequestV::Insert { index, .. } => 1 <= index <= text.len() + 1,
        RequestV::Delete { start, end } => 1 <= start <= end <= text.len() + 1,
        _ => true,
    }
}

/// The text after one request. Requests on styles and lists leave it as it is.
pub open spec fn applied(text: Seq<char>, r: RequestV) -> Seq<char> {
    match r {
        RequestV::Insert { index, text: t } => splice_in(text, index - 1, t),
        RequestV::Delete { start, end } => cut_out(text, start - 1, end - 1),
        _ => text,
    }
}

/// The text after the requests.
pub open spec fn apply_all(text: Seq<char>, rs: Seq<RequestV>) -> Seq<char>
    decreases rs.len(),
{
    if rs.len() == 0 {
        text
    } else {
        applied(apply_all(text, rs.drop_last()), rs.last())
    }
}

/// Each request refers to places that the text has when its turn comes.
pub open spec fn all_apply(text: Seq<char>, rs: Seq<RequestV>) -> bool {
    forall|i: int|
        0 <= i < rs.len() ==> applies(apply_all(text, #[trigger] rs.take(i)), rs[i])
}

/// Apply `requests` to `text` and return the resulting text.
pub fn apply(text: &str, requests: &[Request]) -> (r: String)
    requires
        all_apply(text@, request_views(requests@)),
    ensures
        r@ == apply_all(text@, request_views(requests@)),
{
    let mut chars = to_chars(text);
    let n: usize = requests.len();
    let ghost all = request_views(requests@);
    assert(all.take(0) =~= Seq::<RequestV>::empty());
    for i in 0..n
        invariant
            n == requests@.len(),
            all == request_views(requests@),
            all_apply(text@, all),
            chars@ == apply_all(text@, all.take(i as int)),
    {
        let ghost before = chars@;
        assert(applies(apply_all(text@, all.take(i as int)), all[i as int]));
        assert(all.take(i + 1).drop_last() =~= all.take(i as int));
        let len: usize = chars.len();
        match &requests[i] {
            Request::InsertText(it) => {
                let off: usize = it.location.index - 1;
                let mut out: Vec<char> = Vec::new();
                push_chars(&mut out, slice_subrange(chars.as_slice(), 0, off));
                push_str(&mut out, it.text.as_str());
                push_chars(&mut out, slice_subrange(chars.as_slice(), off, len));
                assert(out@ =~= splice_in(before, off as int, it.text@));
                chars = out;
            },
            Request::DeleteContentRange(d) => {
                let a: usize = d.range.start_index - 1;
                let b: usize = d.range.end_index - 1;
                let mut out: Vec<char> = Vec::new();
                push_chars(&mut out, slice_subrange(chars.as_slice(), 0, a));
                push_chars(&mut out, slice_subrange(chars.as_slice(), b, len));
                assert(out@ =~= cut_out(before, a as int, b as int));
                chars = out;
            },
            _ => {},
        }
        assert(chars@ == applied(before, all[i as int]));
    }
    assert(all.take(n as int) =~= all);
    to_text(chars.as_slice())
}

/// Applying two lists of requests in turn is applying them joined.
pub proof fn lemma_apply_add(text: Seq<char>, a: Seq<RequestV>, b: Seq<RequestV>)
    ensures
        apply_all(text, a + b) == apply_all(apply_all(text, a), b),
        all_apply(text, a) && all_apply(apply_all(text, a), b) ==> all_apply(text, a + b),
    decreases b.len(),
{
    if b.len() == 0 {
        assert(a + b =~= a);
    } else {
        lemma_apply_add(text, a, b.drop_last());
        assert((a + b).drop_last() =~= a + b.drop_last());
        if all_apply(text, a) && all_apply(apply_all(text, a), b) {
            let mid = apply_all(text, a);
            assert forall|i: int| 0 <= i < b.drop_last().len() implies applies(
                apply_all(mid, #[trigger] b.drop_last().take(i)),
                b.drop_last()[i],
            ) by {
                assert(b.drop_last().take(i) =~= b.take(i));
                assert(applies(apply_all(mid, b.take(i)), b[i]));
            }
            assert forall|i: int| 0 <= i < (a + b).len() implies applies(
                apply_all(text, #[trigger] (a + b).take(i)),
                (a + b)[i],
            ) by {
                if i < (a + b).len() - 1 {
                    assert((a + b).take(i) =~= (a + b.drop_last()).take(i));
                    assert(applies(
                        apply_all(text, (a + b.drop_last()).take(i)),
                        (a + b.drop_last())[i],
                    ));
                } else {
                    assert((a + b).take(i) =~= a + b.drop_last());
                    assert(b.take(b.len() - 1) =~= b.drop_last());
                    assert(applies(apply_all(mid, b.take(b.len() - 1)), b[b.len() - 1]));
                }
            }
        }
    }
}

/// One request applied is its effect.
pub proof fn lemma_apply_one(text: Seq<char>, r: RequestV)
    ensures
        apply_all(text, seq![r]) == applied(text, r),
        applies(text, r) ==> all_apply(text, seq![r]),
{
    reveal_with_fuel(apply_all, 2);
    assert(seq![r].drop_last() =~= Seq::<RequestV>::empty());
    assert(seq![r].take(0) =~= Seq::<RequestV>::empty());
}

} // verus!
