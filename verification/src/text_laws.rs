//! Laws of the text pass: applied to the old text, the edits give the new one.
use crate::apply::{
    all_apply, applied, apply_all, cut_out, lemma_apply_add, lemma_apply_one, splice_in,
};
use crate::diff::{
    alternating, edit_script, kept, lemma_step_bounds, new_at, old_at, EditStep, StepKind,
};
use crate::request::{all_within, indices_within, lemma_within_add, RequestV};
use crate::shortest::tight;
use crate::text::{lemma_utf16_len_prefix, units, utf16_len, white_space};
use crate::text_pass::{
    all_requests, edit_requests, ends_line, index_of, keep_final, keep_final_all, script_requests,
    step_requests,
};
use vstd::prelude::*;

verus! {

/// Every character of the text is one UTF-16 unit.
pub open spec fn bmp(s: Seq<char>) -> bool {
    forall|i: int| 0 <= i < s.len() ==> units(#[trigger] s[i]) == 1
}

/// In a text of one-unit characters, offsets count units.
pub proof fn lemma_bmp_index(s: Seq<char>, o: int)
    requires
        bmp(s),
        0 <= o <= s.len(),
    ensures
        index_of(s, o) == o + 1,
        utf16_len(s.take(o)) == o,
    decreases o,
{
    if o > 0 {
        lemma_bmp_index(s, o - 1);
        assert(s.take(o).drop_last() =~= s.take(o - 1));
        assert(s.take(o).last() == s[o - 1]);
    }
}

/// The text when the steps from the `k`-th on are carried out: the old text up to
/// there, and the new text from there on.
pub open spec fn between(steps: Seq<EditStep>, old: Seq<char>, new: Seq<char>, k: int) -> Seq<
    char,
> {
    old.take(old_at(steps, k)) + new.skip(new_at(steps, k))
}

/// One step's requests carry its part of the text over.
proof fn lemma_step_applies(steps: Seq<EditStep>, old: Seq<char>, new: Seq<char>, k: int)
    requires
        edit_script(steps, old, new),
        bmp(old),
        0 <= k < steps.len(),
    ensures
        all_apply(between(steps, old, new, k + 1), step_requests(steps, old, new, k)),
        apply_all(between(steps, old, new, k + 1), step_requests(steps, old, new, k)) == between(
            steps,
            old,
            new,
            k,
        ),
{
    lemma_step_bounds(steps, old, new, k);
    let o = old_at(steps, k);
    let p = old_at(steps, k + 1);
    let n = new_at(steps, k);
    let q = new_at(steps, k + 1);
    let text = between(steps, old, new, k + 1);
    let goal = between(steps, old, new, k);
    let mid = new.subrange(n, q);
    lemma_bmp_index(old, o);
    lemma_bmp_index(old, p);
    assert(steps[k].shaped());
    assert(kept(steps, old, new, k));
    let del = RequestV::Delete { start: o + 1, end: p + 1 };
    let ins = RequestV::Insert { index: o + 1, text: mid };
    let cut = old.take(o) + new.skip(q);
    assert(cut_out(text, o, p) =~= cut);
    match steps[k].kind {
        StepKind::Equal => {
            let same = old.subrange(o, p);
            assert(same == mid);
            assert(text =~= goal) by {
                assert(old.take(p) =~= old.take(o) + same);
                assert(new.skip(n) =~= mid + new.skip(q));
            }
        },
        StepKind::Delete => {
            lemma_apply_one(text, del);
        },
        StepKind::Insert => {
            lemma_apply_one(text, ins);
            assert(splice_in(text, o, mid) =~= goal);
        },
        StepKind::Replace => {
            lemma_apply_one(text, del);
            lemma_apply_one(cut, ins);
            lemma_apply_add(text, seq![del], seq![ins]);
            assert(seq![del] + seq![ins] =~= seq![del, ins]);
            assert(splice_in(cut, o, mid) =~= goal);
        },
    }
}

/// The requests of a part of the steps carry that part of the text over.
pub proof fn lemma_part_applies(
    steps: Seq<EditStep>,
    old: Seq<char>,
    new: Seq<char>,
    k: int,
    m: int,
)
    requires
        edit_script(steps, old, new),
        bmp(old),
        0 <= k <= m <= steps.len(),
    ensures
        all_apply(between(steps, old, new, m), script_requests(steps, old, new, k, m)),
        apply_all(between(steps, old, new, m), script_requests(steps, old, new, k, m)) == between(
            steps,
            old,
            new,
            k,
        ),
    decreases m - k,
{
    if k < m {
        lemma_part_applies(steps, old, new, k + 1, m);
        lemma_step_applies(steps, old, new, k);
        lemma_apply_add(
            between(steps, old, new, m),
            script_requests(steps, old, new, k + 1, m),
            step_requests(steps, old, new, k),
        );
    }
}

/// The requests of an edit script, applied to the old text, give the new one, and
/// each refers to places that the text has when its turn comes. The old text is one
/// of one-unit characters, so that its offsets are document indices.
pub proof fn law_edits_apply(steps: Seq<EditStep>, old: Seq<char>, new: Seq<char>)
    requires
        edit_script(steps, old, new),
        bmp(old),
    ensures
        all_apply(old, all_requests(steps, old, new)),
        apply_all(old, all_requests(steps, old, new)) == new,
{
    let m = steps.len() as int;
    lemma_part_applies(steps, old, new, 0, m);
    assert(between(steps, old, new, m) =~= old);
    assert(between(steps, old, new, 0) =~= new);
}

/// Steps that change nothing give no request.
pub proof fn law_no_edits(steps: Seq<EditStep>, old: Seq<char>, new: Seq<char>, k: int, m: int)
    requires
        forall|i: int| 0 <= i < steps.len() ==> (#[trigger] steps[i]).kind is Equal,
        0 <= k <= m <= steps.len(),
    ensures
        script_requests(steps, old, new, k, m) =~= Seq::<RequestV>::empty(),
    decreases m - k,
{
    if k < m {
        law_no_edits(steps, old, new, k + 1, m);
        assert(steps[k].kind is Equal);
    }
}

/// The requests of an edit script stay within the indices of the old text.
pub proof fn lemma_script_within(
    steps: Seq<EditStep>,
    old: Seq<char>,
    new: Seq<char>,
    k: int,
    m: int,
)
    requires
        edit_script(steps, old, new),
        0 <= k <= m <= steps.len(),
    ensures
        all_within(script_requests(steps, old, new, k, m), utf16_len(old) + 1int),
    decreases m - k,
{
    if k < m {
        lemma_script_within(steps, old, new, k + 1, m);
        lemma_step_bounds(steps, old, new, k);
        lemma_utf16_len_prefix(old, old_at(steps, k));
        lemma_utf16_len_prefix(old, old_at(steps, k + 1));
        lemma_within_add(
            script_requests(steps, old, new, k + 1, m),
            step_requests(steps, old, new, k),
            utf16_len(old) + 1int,
        );
    }
}

/// Fitting requests to the final line feed keeps them within the indices of the text.
pub proof fn lemma_fitted_within(rs: Seq<RequestV>, l: int)
    requires
        all_within(rs, l + 1),
        0 < l,
    ensures
        all_within(keep_final_all(rs, l), l + 1),
{
    assert forall|i: int| 0 <= i < rs.len() implies indices_within(
        #[trigger] keep_final_all(rs, l)[i],
        l + 1,
    ) by {
        assert(indices_within(rs[i], l + 1));
    }
}

/// The request does something, and inserts only characters that `new` holds.
pub open spec fn proper(r: RequestV, new: Seq<char>) -> bool {
    match r {
        RequestV::Insert { text, .. } => text.len() > 0 && forall|i: int|
            0 <= i < text.len() ==> new.contains(#[trigger] text[i]),
        RequestV::Delete { start, end } => start < end,
        _ => true,
    }
}

/// All requests do something and insert only characters that `new` holds.
pub open spec fn all_proper(rs: Seq<RequestV>, new: Seq<char>) -> bool {
    forall|i: int| 0 <= i < rs.len() ==> proper(#[trigger] rs[i], new)
}

/// No request of an edit script is idle.
pub proof fn lemma_script_proper(
    steps: Seq<EditStep>,
    old: Seq<char>,
    new: Seq<char>,
    k: int,
    m: int,
)
    requires
        edit_script(steps, old, new),
        0 <= k <= m <= steps.len(),
    ensures
        all_proper(script_requests(steps, old, new, k, m), new),
    decreases m - k,
{
    if k < m {
        lemma_script_proper(steps, old, new, k + 1, m);
        lemma_step_bounds(steps, old, new, k);
        assert(steps[k].shaped());
        if old_at(steps, k) < old_at(steps, k + 1) {
            lemma_units_grow(old, old_at(steps, k), old_at(steps, k + 1));
        }
        let a = script_requests(steps, old, new, k + 1, m);
        let b = step_requests(steps, old, new, k);
        let text = new.subrange(new_at(steps, k), new_at(steps, k + 1));
        assert forall|i: int| 0 <= i < text.len() implies new.contains(#[trigger] text[i]) by {
            assert(new[new_at(steps, k) + i] == text[i]);
        }
        assert forall|i: int| 0 <= i < (a + b).len() implies proper(#[trigger] (a + b)[i], new) by {
            if i < a.len() {
                assert(proper(a[i], new));
            } else {
                assert(proper(b[i - a.len()], new));
            }
        }
    }
}

/// Fitting requests to the final line feed leaves none idle, where every deletion
/// starts behind the first index.
pub proof fn lemma_fitted_proper(rs: Seq<RequestV>, new: Seq<char>, l: int)
    requires
        all_proper(rs, new),
        ends_line(new),
        forall|i: int|
            0 <= i < rs.len() ==> !((#[trigger] rs[i]) matches RequestV::Delete { start, end }
                && start <= 1 && end == l + 1),
    ensures
        all_proper(keep_final_all(rs, l), new),
{
    assert forall|i: int| 0 <= i < rs.len() implies proper(
        #[trigger] keep_final_all(rs, l)[i],
        new,
    ) by {
        assert(proper(rs[i], new));
        if let RequestV::Insert { index, text } = rs[i] {
            if index == l + 1 && ends_line(text) {
                let t = seq!['\n'] + text.drop_last();
                assert forall|j: int| 0 <= j < t.len() implies new.contains(#[trigger] t[j]) by {
                    if j == 0 {
                        assert(new[new.len() - 1] == '\n');
                    } else {
                        assert(new.contains(text[j - 1]));
                    }
                }
            }
        }
    }
}

// ---------------------------------------------------------------------------
// The same in UTF-16 units
// ---------------------------------------------------------------------------

/// The UTF-16 units of a character: itself, or a surrogate pair.
pub open spec fn char_units(c: char) -> Seq<u16> {
    let x = c as u32;
    if x >= 0x10000 {
        seq![
            (0xd800 + (x - 0x10000) / 0x400) as u16,
            (0xdc00 + (x - 0x10000) % 0x400) as u16,
        ]
    } else {
        seq![x as u16]
    }
}

/// A text in UTF-16.
pub open spec fn utf16(s: Seq<char>) -> Seq<u16>
    decreases s.len(),
{
    if s.len() == 0 {
        Seq::empty()
    } else {
        utf16(s.drop_last()) + char_units(s.last())
    }
}

/// A text takes up as many units as its length says.
pub proof fn lemma_utf16_length(s: Seq<char>)
    ensures
        utf16(s).len() == utf16_len(s),
    decreases s.len(),
{
    if s.len() > 0 {
        lemma_utf16_length(s.drop_last());
    }
}

/// A concatenation in UTF-16 is the concatenation of the parts.
pub proof fn lemma_utf16_add(a: Seq<char>, b: Seq<char>)
    ensures
        utf16(a + b) == utf16(a) + utf16(b),
    decreases b.len(),
{
    if b.len() == 0 {
        assert(a + b =~= a);
        assert(utf16(a) + utf16(b) =~= utf16(a));
    } else {
        assert((a + b).drop_last() =~= a + b.drop_last());
        lemma_utf16_add(a, b.drop_last());
        assert(utf16(a) + (utf16(b.drop_last()) + char_units(b.last())) =~= utf16(a) + utf16(
            b.drop_last(),
        ) + char_units(b.last()));
    }
}

/// The request refers to places that a body of these units has.
pub open spec fn applies16(body: Seq<u16>, r: RequestV) -> bool {
    match r {
        RequestV::Insert { index, .. } => 1 <= index <= body.len() + 1,
        RequestV::Delete { start, end } => 1 <= start <= end <= body.len() + 1,
        _ => true,
    }
}

/// The body after one request, in units.
pub open spec fn applied16(body: Seq<u16>, r: RequestV) -> Seq<u16> {
    match r {
        RequestV::Insert { index, text } => splice_in(body, index - 1, utf16(text)),
        RequestV::Delete { start, end } => cut_out(body, start - 1, end - 1),
        _ => body,
    }
}

/// The body after the requests, in units; `None` if one refers to a place that the
/// body does not have when its turn comes.
pub open spec fn apply_all16(body: Seq<u16>, rs: Seq<RequestV>) -> Option<Seq<u16>>
    decreases rs.len(),
{
    if rs.len() == 0 {
        Some(body)
    } else {
        match apply_all16(body, rs.drop_last()) {
            None => None,
            Some(b) => if applies16(b, rs.last()) {
                Some(applied16(b, rs.last()))
            } else {
                None
            },
        }
    }
}

/// Applying two lists of requests in turn is applying them joined.
pub proof fn lemma_apply_add16(body: Seq<u16>, a: Seq<RequestV>, b: Seq<RequestV>)
    ensures
        apply_all16(body, a + b) == match apply_all16(body, a) {
            None => None,
            Some(mid) => apply_all16(mid, b),
        },
    decreases b.len(),
{
    if b.len() == 0 {
        assert(a + b =~= a);
    } else {
        lemma_apply_add16(body, a, b.drop_last());
        assert((a + b).drop_last() =~= a + b.drop_last());
        assert((a + b).last() == b.last());
    }
}

/// One request applied is its effect.
pub proof fn lemma_apply_one16(body: Seq<u16>, r: RequestV)
    requires
        applies16(body, r),
    ensures
        apply_all16(body, seq![r]) == Some(applied16(body, r)),
{
    reveal_with_fuel(apply_all16, 2);
    assert(seq![r].drop_last() =~= Seq::<RequestV>::empty());
}

/// The requests of a step put `mid` in the place of the units `g`.
proof fn lemma_edit_applies16(
    kind: StepKind,
    h: Seq<u16>,
    g: Seq<u16>,
    mid: Seq<char>,
    t: Seq<u16>,
)
    requires
        kind is Equal ==> g == utf16(mid),
        kind is Delete ==> mid.len() == 0,
        kind is Insert ==> g.len() == 0,
    ensures
        apply_all16(
            h + g + t,
            edit_requests(kind, h.len() + 1int, h.len() + g.len() + 1int, mid),
        ) == Some(h + (utf16(mid) + t)),
{
    let body = h + g + t;
    let i = utf16(mid);
    let del = RequestV::Delete { start: h.len() + 1int, end: h.len() + g.len() + 1int };
    let ins = RequestV::Insert { index: h.len() + 1int, text: mid };
    match kind {
        StepKind::Equal => {
            assert(body =~= h + (i + t));
        },
        StepKind::Delete => {
            lemma_apply_one16(body, del);
            assert(applied16(body, del) =~= h + (i + t));
        },
        StepKind::Insert => {
            lemma_apply_one16(body, ins);
            assert(applied16(body, ins) =~= h + (i + t));
        },
        StepKind::Replace => {
            lemma_apply_one16(body, del);
            assert(applied16(body, del) =~= h + t);
            lemma_apply_one16(h + t, ins);
            lemma_apply_add16(body, seq![del], seq![ins]);
            assert(seq![del] + seq![ins] =~= seq![del, ins]);
            assert(applied16(h + t, ins) =~= h + (i + t));
        },
    }
}

/// One step's requests carry its part of the text over, in units.
proof fn lemma_step_applies16(steps: Seq<EditStep>, old: Seq<char>, new: Seq<char>, k: int)
    requires
        edit_script(steps, old, new),
        0 <= k < steps.len(),
    ensures
        apply_all16(
            utf16(between(steps, old, new, k + 1)),
            step_requests(steps, old, new, k),
        ) == Some(utf16(between(steps, old, new, k))),
{
    lemma_step_bounds(steps, old, new, k);
    let o = old_at(steps, k);
    let p = old_at(steps, k + 1);
    let n = new_at(steps, k);
    let q = new_at(steps, k + 1);
    let head = old.take(o);
    let gone = old.subrange(o, p);
    let mid = new.subrange(n, q);
    let tail = new.skip(q);
    assert(old.take(p) =~= head + gone);
    assert(new.skip(n) =~= mid + tail);
    lemma_utf16_add(head, gone);
    lemma_utf16_add(head + gone, tail);
    lemma_utf16_add(mid, tail);
    lemma_utf16_add(head, mid + tail);
    lemma_utf16_length(head);
    lemma_utf16_length(gone);
    lemma_utf16_length(old.take(p));
    assert(steps[k].shaped());
    assert(kept(steps, old, new, k));
    lemma_edit_applies16(steps[k].kind, utf16(head), utf16(gone), mid, utf16(tail));
}

/// The requests of a part of the steps carry that part of the text over, in units.
pub proof fn lemma_part_applies16(
    steps: Seq<EditStep>,
    old: Seq<char>,
    new: Seq<char>,
    k: int,
    m: int,
)
    requires
        edit_script(steps, old, new),
        0 <= k <= m <= steps.len(),
    ensures
        apply_all16(
            utf16(between(steps, old, new, m)),
            script_requests(steps, old, new, k, m),
        ) == Some(utf16(between(steps, old, new, k))),
    decreases m - k,
{
    if k < m {
        lemma_part_applies16(steps, old, new, k + 1, m);
        lemma_step_applies16(steps, old, new, k);
        lemma_apply_add16(
            utf16(between(steps, old, new, m)),
            script_requests(steps, old, new, k + 1, m),
            step_requests(steps, old, new, k),
        );
    }
}

/// The requests of an edit script, applied to the old text in UTF-16, give the new
/// text in UTF-16, whatever characters the two hold.
pub proof fn law_edits_apply16(steps: Seq<EditStep>, old: Seq<char>, new: Seq<char>)
    requires
        edit_script(steps, old, new),
    ensures
        apply_all16(utf16(old), all_requests(steps, old, new)) == Some(utf16(new)),
{
    let m = steps.len() as int;
    lemma_part_applies16(steps, old, new, 0, m);
    assert(between(steps, old, new, m) =~= old);
    assert(between(steps, old, new, 0) =~= new);
}

// ---------------------------------------------------------------------------
// The immovable final line feed
// ---------------------------------------------------------------------------

/// The request leaves a final line feed at index `l` alone: it inserts nothing behind
/// it and deletes nothing up to it.
pub open spec fn spares(r: RequestV, l: int) -> bool {
    match r {
        RequestV::Insert { index, .. } => index <= l,
        RequestV::Delete { end, .. } => end <= l,
        _ => true,
    }
}

/// All requests leave a final line feed at index `l` alone.
pub open spec fn all_spare(rs: Seq<RequestV>, l: int) -> bool {
    forall|i: int| 0 <= i < rs.len() ==> spares(#[trigger] rs[i], l)
}

/// A longer prefix takes up more units.
proof fn lemma_units_grow(s: Seq<char>, i: int, j: int)
    requires
        0 <= i < j <= s.len(),
    ensures
        utf16_len(s.take(i)) < utf16_len(s.take(j)),
{
    assert(s.take(j).take(i) =~= s.take(i));
    lemma_utf16_len_prefix(s.take(j), i);
    let rest = s.take(j).skip(i);
    assert(utf16_len(rest) == utf16_len(rest.drop_last()) + units(rest.last()));
}

/// The requests of a part of the steps, cut in two.
proof fn lemma_split_requests(
    steps: Seq<EditStep>,
    old: Seq<char>,
    new: Seq<char>,
    k: int,
    m: int,
    n: int,
)
    requires
        0 <= k <= m <= n,
    ensures
        script_requests(steps, old, new, k, n) == script_requests(steps, old, new, m, n)
            + script_requests(steps, old, new, k, m),
    decreases m - k,
{
    if k < m {
        lemma_split_requests(steps, old, new, k + 1, m, n);
        let a = script_requests(steps, old, new, m, n);
        let b = script_requests(steps, old, new, k + 1, m);
        let c = step_requests(steps, old, new, k);
        assert((a + b) + c =~= a + (b + c));
    } else {
        assert(script_requests(steps, old, new, m, n) + Seq::<RequestV>::empty()
            =~= script_requests(steps, old, new, m, n));
    }
}

/// No step but the last reaches the end of the old text.
proof fn lemma_inner_spares(
    steps: Seq<EditStep>,
    old: Seq<char>,
    new: Seq<char>,
    k: int,
    m: int,
)
    requires
        edit_script(steps, old, new),
        alternating(steps),
        0 <= k <= m < steps.len(),
    ensures
        all_spare(script_requests(steps, old, new, k, m), utf16_len(old) as int),
        keep_final_all(script_requests(steps, old, new, k, m), utf16_len(old) as int)
            == script_requests(steps, old, new, k, m),
    decreases m - k,
{
    let l = utf16_len(old) as int;
    let rs = script_requests(steps, old, new, k, m);
    if k < m {
        lemma_inner_spares(steps, old, new, k + 1, m);
        let a = script_requests(steps, old, new, k + 1, m);
        let b = step_requests(steps, old, new, k);
        if !(steps[k].kind is Equal) {
            let next = steps[k + 1];
            assert(next.kind is Equal);
            assert(next.shaped());
            lemma_step_bounds(steps, old, new, k);
            lemma_step_bounds(steps, old, new, k + 1);
            lemma_units_grow(old, old_at(steps, k + 1), old.len() as int);
            assert(old.take(old.len() as int) =~= old);
            if old_at(steps, k) < old_at(steps, k + 1) {
                lemma_units_grow(old, old_at(steps, k), old_at(steps, k + 1));
            }
        }
        assert forall|i: int| 0 <= i < rs.len() implies spares(#[trigger] rs[i], l) by {
            if i < a.len() {
                assert(spares(a[i], l));
            } else {
                assert(spares(b[i - a.len()], l));
            }
        }
    }
    assert forall|i: int| 0 <= i < rs.len() implies keep_final(rs[i], l) == rs[i] by {
        assert(spares(rs[i], l));
    }
    assert(keep_final_all(rs, l) =~= rs);
}

/// Fitting a list of requests is fitting its parts.
proof fn lemma_keep_final_add(a: Seq<RequestV>, b: Seq<RequestV>, l: int)
    ensures
        keep_final_all(a + b, l) == keep_final_all(a, l) + keep_final_all(b, l),
{
    assert(keep_final_all(a + b, l) =~= keep_final_all(a, l) + keep_final_all(b, l));
}

/// Where both texts end with a line feed and the last step deletes, the character
/// before what it deletes is a line feed.
proof fn lemma_delete_behind_line(steps: Seq<EditStep>, old: Seq<char>, new: Seq<char>)
    requires
        edit_script(steps, old, new),
        alternating(steps),
        ends_line(new),
        steps.len() > 0,
        steps.last().kind is Delete,
    ensures
        0 < old_at(steps, steps.len() - 1) < old.len(),
        old[old_at(steps, steps.len() - 1) - 1] == '\n',
{
    let n = steps.len() as int;
    lemma_step_bounds(steps, old, new, n - 1);
    assert(steps[n - 1].shaped());
    if n == 1 {
        assert(new_at(steps, 0) == 0);
        assert(false);
    }
    assert(steps[n - 2].kind is Equal);
    assert(steps[n - 2].shaped());
    lemma_step_bounds(steps, old, new, n - 2);
    assert(kept(steps, old, new, n - 2));
    let a = old_at(steps, n - 2);
    let b = old_at(steps, n - 1);
    let c = new_at(steps, n - 2);
    assert(new_at(steps, n - 1) == new.len());
    assert(old.subrange(a, b)[b - a - 1] == new.subrange(c, new.len() as int)[b - a - 1]);
}

/// The last step's requests, fitted to the final line feed, do to the old text what
/// they do without.
proof fn lemma_last_applies(steps: Seq<EditStep>, old: Seq<char>, new: Seq<char>)
    requires
        edit_script(steps, old, new),
        alternating(steps),
        tight(steps, old, new),
        bmp(old),
        ends_line(old),
        ends_line(new),
        steps.len() > 0,
    ensures
        ({
            let n = steps.len() - 1;
            let l = utf16_len(old) as int;
            let rs = keep_final_all(step_requests(steps, old, new, n), l);
            &&& all_apply(old, rs)
            &&& apply_all(old, rs) == between(steps, old, new, n)
            &&& all_spare(rs, l)
        }),
{
    let n = steps.len() - 1;
    let l = utf16_len(old) as int;
    let rs = keep_final_all(step_requests(steps, old, new, n), l);
    let o = old_at(steps, n);
    lemma_step_bounds(steps, old, new, n);
    lemma_bmp_index(old, o);
    lemma_bmp_index(old, old.len() as int);
    assert(old.take(old.len() as int) =~= old);
    assert(l == old.len());
    assert(steps[n].shaped());
    match steps[n].kind {
        StepKind::Equal => {
            assert(kept(steps, old, new, n));
            assert(rs =~= Seq::<RequestV>::empty());
            assert(old =~= old.take(o) + old.subrange(o, old.len() as int));
            assert(new.skip(new_at(steps, n)) =~= new.subrange(
                new_at(steps, n),
                new.len() as int,
            ));
        },
        StepKind::Insert => {
            let t = new.subrange(new_at(steps, n), new.len() as int);
            let fitted = RequestV::Insert { index: l, text: seq!['\n'] + t.drop_last() };
            assert(t.last() == new.last());
            assert(rs =~= seq![fitted]);
            lemma_apply_one(old, fitted);
            assert(applied(old, fitted) =~= old + t) by {
                assert(old =~= old.drop_last().push('\n'));
                assert(t =~= t.drop_last().push('\n'));
            }
            assert(between(steps, old, new, n) =~= old + t);
        },
        StepKind::Delete => {
            lemma_delete_behind_line(steps, old, new);
            let fitted = RequestV::Delete { start: o, end: l };
            assert(rs =~= seq![fitted]);
            lemma_apply_one(old, fitted);
            assert(applied(old, fitted) =~= old.take(o));
            assert(between(steps, old, new, n) =~= old.take(o));
        },
        StepKind::Replace => {
            assert(false);
        },
    }
}

/// The requests of an edit script, fitted to the final line feed that both texts end
/// with, still give the new text when applied to the old one, and none of them
/// touches the line feed.
pub proof fn law_body_edits_apply(steps: Seq<EditStep>, old: Seq<char>, new: Seq<char>)
    requires
        edit_script(steps, old, new),
        alternating(steps),
        tight(steps, old, new),
        bmp(old),
        ends_line(old),
        ends_line(new),
    ensures
        ({
            let l = utf16_len(old) as int;
            let rs = keep_final_all(all_requests(steps, old, new), l);
            &&& all_apply(old, rs)
            &&& apply_all(old, rs) == new
            &&& all_spare(rs, l)
        }),
{
    let n = steps.len() as int;
    let l = utf16_len(old) as int;
    assert(n > 0);
    let last = step_requests(steps, old, new, n - 1);
    let inner = script_requests(steps, old, new, 0, n - 1);
    lemma_split_requests(steps, old, new, 0, n - 1, n);
    assert(script_requests(steps, old, new, n, n) =~= Seq::<RequestV>::empty());
    assert(script_requests(steps, old, new, n - 1, n) =~= last);
    lemma_keep_final_add(last, inner, l);
    lemma_inner_spares(steps, old, new, 0, n - 1);
    lemma_last_applies(steps, old, new);
    lemma_part_applies(steps, old, new, 0, n - 1);
    lemma_apply_add(old, keep_final_all(last, l), inner);
    assert(between(steps, old, new, 0) =~= new);
    let rs = keep_final_all(all_requests(steps, old, new), l);
    assert forall|i: int| 0 <= i < rs.len() implies spares(#[trigger] rs[i], l) by {
        let fitted = keep_final_all(last, l);
        if i < fitted.len() {
            assert(spares(fitted[i], l));
        } else {
            assert(spares(inner[i - fitted.len()], l));
        }
    }
}

/// The last step's requests, fitted to the final line feed, do to the old text what
/// they do without, in units.
proof fn lemma_last_applies16(steps: Seq<EditStep>, old: Seq<char>, new: Seq<char>)
    requires
        edit_script(steps, old, new),
        alternating(steps),
        tight(steps, old, new),
        ends_line(old),
        ends_line(new),
        steps.len() > 0,
    ensures
        ({
            let n = steps.len() - 1;
            let l = utf16_len(old) as int;
            let rs = keep_final_all(step_requests(steps, old, new, n), l);
            &&& apply_all16(utf16(old), rs) == Some(utf16(between(steps, old, new, n)))
            &&& all_spare(rs, l)
        }),
{
    let n = steps.len() - 1;
    let l = utf16_len(old) as int;
    let rs = keep_final_all(step_requests(steps, old, new, n), l);
    let o = old_at(steps, n);
    let lf = seq!['\n'];
    lemma_step_bounds(steps, old, new, n);
    assert(steps[n].shaped());
    lemma_utf16_length(old);
    lemma_utf16_length(old.take(o));
    let body = old.drop_last();
    assert(old =~= body + lf);
    lemma_utf16_add(body, lf);
    lemma_utf16_length(lf);
    lemma_utf16_length(body);
    assert(utf16_len(lf) == 1) by {
        assert(lf.drop_last() =~= Seq::<char>::empty());
    }
    assert(old.take(old.len() as int) =~= old);
    match steps[n].kind {
        StepKind::Equal => {
            assert(kept(steps, old, new, n));
            assert(rs =~= Seq::<RequestV>::empty());
            assert(old =~= old.take(o) + old.subrange(o, old.len() as int));
            assert(new.skip(new_at(steps, n)) =~= new.subrange(
                new_at(steps, n),
                new.len() as int,
            ));
        },
        StepKind::Insert => {
            let t = new.subrange(new_at(steps, n), new.len() as int);
            let inner = t.drop_last();
            let fitted = RequestV::Insert { index: l, text: lf + inner };
            assert(t.last() == new.last());
            assert(rs =~= seq![fitted]);
            lemma_apply_one16(utf16(old), fitted);
            assert(t =~= inner + lf);
            lemma_utf16_add(lf, inner);
            lemma_utf16_add(inner, lf);
            lemma_utf16_add(old, t);
            assert(applied16(utf16(old), fitted) =~= utf16(old) + utf16(t));
            assert(between(steps, old, new, n) =~= old + t);
        },
        StepKind::Delete => {
            lemma_delete_behind_line(steps, old, new);
            let head = old.take(o - 1);
            assert(old.take(o) =~= head + lf);
            lemma_utf16_add(head, lf);
            lemma_utf16_length(head);
            let a = index_of(old, o);
            lemma_units_grow(old, o, old.len() as int);
            let fitted = RequestV::Delete { start: a - 1, end: l };
            assert(rs =~= seq![fitted]);
            lemma_apply_one16(utf16(old), fitted);
            assert(old =~= head + old.skip(o - 1));
            lemma_utf16_add(head, old.skip(o - 1));
            assert(applied16(utf16(old), fitted) =~= utf16(head) + utf16(lf));
            assert(between(steps, old, new, n) =~= old.take(o));
        },
        StepKind::Replace => {
            assert(false);
        },
    }
}

/// As [`law_body_edits_apply`], in UTF-16 and for texts of any characters.
pub proof fn law_body_edits_apply16(steps: Seq<EditStep>, old: Seq<char>, new: Seq<char>)
    requires
        edit_script(steps, old, new),
        alternating(steps),
        tight(steps, old, new),
        ends_line(old),
        ends_line(new),
    ensures
        ({
            let l = utf16_len(old) as int;
            let rs = keep_final_all(all_requests(steps, old, new), l);
            &&& apply_all16(utf16(old), rs) == Some(utf16(new))
            &&& all_spare(rs, l)
            &&& all_proper(rs, new)
        }),
{
    let n = steps.len() as int;
    let l = utf16_len(old) as int;
    assert(n > 0);
    let last = step_requests(steps, old, new, n - 1);
    let inner = script_requests(steps, old, new, 0, n - 1);
    lemma_split_requests(steps, old, new, 0, n - 1, n);
    assert(script_requests(steps, old, new, n, n) =~= Seq::<RequestV>::empty());
    assert(script_requests(steps, old, new, n - 1, n) =~= last);
    lemma_keep_final_add(last, inner, l);
    lemma_inner_spares(steps, old, new, 0, n - 1);
    lemma_last_applies16(steps, old, new);
    lemma_part_applies16(steps, old, new, 0, n - 1);
    lemma_apply_add16(utf16(old), keep_final_all(last, l), inner);
    assert(between(steps, old, new, 0) =~= new);
    lemma_script_proper(steps, old, new, 0, n);
    let raw = all_requests(steps, old, new);
    assert forall|i: int| 0 <= i < raw.len() implies !((#[trigger] raw[i]) matches RequestV::Delete {
        start,
        end,
    } && start <= 1 && end == l + 1) by {
        if i < last.len() {
            assert(raw[i] == last[i]);
            if steps[n - 1].kind is Delete {
                lemma_delete_behind_line(steps, old, new);
                lemma_units_grow(old, 0, old_at(steps, n - 1));
            }
        } else {
            assert(raw[i] == inner[i - last.len()]);
            assert(spares(inner[i - last.len()], l));
        }
    }
    lemma_fitted_proper(raw, new, l);
    let rs = keep_final_all(all_requests(steps, old, new), l);
    assert forall|i: int| 0 <= i < rs.len() implies spares(#[trigger] rs[i], l) by {
        let fitted = keep_final_all(last, l);
        if i < fitted.len() {
            assert(spares(fitted[i], l));
        } else {
            assert(spares(inner[i - fitted.len()], l));
        }
    }
}

/// Where the new text is empty, the edits of a body leave its final line feed and nothing
/// else.
pub proof fn law_body_cleared(steps: Seq<EditStep>, old: Seq<char>, new: Seq<char>)
    requires
        edit_script(steps, old, new),
        alternating(steps),
        ends_line(old),
        new.len() == 0,
    ensures
        ({
            let l = utf16_len(old) as int;
            let rs = keep_final_all(all_requests(steps, old, new), l);
            &&& rs == seq![RequestV::Delete { start: 1, end: l }]
            &&& apply_all16(utf16(old), rs) == Some(utf16(seq!['\n']))
            &&& all_spare(rs, l)
        }),
{
    let n = steps.len() as int;
    let l = utf16_len(old) as int;
    assert forall|k: int| 0 <= k < n implies (#[trigger] steps[k]).kind is Delete by {
        lemma_step_bounds(steps, old, new, k);
        assert(steps[k].shaped());
    }
    assert(n > 0);
    if n > 1 {
        assert(steps[0].kind is Delete && steps[1].kind is Delete);
    }
    assert(n == 1);
    reveal_with_fuel(old_at, 2);
    reveal_with_fuel(script_requests, 2);
    assert(old.take(0) =~= Seq::<char>::empty());
    assert(old.take(old.len() as int) =~= old);
    let raw = all_requests(steps, old, new);
    assert(raw =~= seq![RequestV::Delete { start: 1, end: l + 1 }]);
    let rs = keep_final_all(raw, l);
    let cut = RequestV::Delete { start: 1, end: l };
    assert(rs =~= seq![cut]);
    let init = old.drop_last();
    assert(old =~= init + seq!['\n']);
    lemma_utf16_add(init, seq!['\n']);
    lemma_utf16_length(init);
    lemma_utf16_length(old);
    assert(utf16(seq!['\n']).len() == 1) by {
        lemma_utf16_length(seq!['\n']);
        reveal_with_fuel(utf16_len, 2);
        assert(seq!['\n'].drop_last() =~= Seq::<char>::empty());
    }
    assert(utf16(old).len() == l);
    lemma_apply_one16(utf16(old), cut);
    assert(applied16(utf16(old), cut) =~= utf16(seq!['\n']));
}

/// A character takes up one unit, its code, or two that make up its code: one that begins a
/// pair and one that ends it.
pub proof fn law_units(c: char)
    ensures
        ({
            let s = seq![c];
            let u = utf16(s);
            &&& c as u32 <= 0xFFFF ==> utf16_len(s) == 1 && u.len() == 1 && u[0] == c as u32
            &&& c as u32 > 0xFFFF ==> {
                &&& utf16_len(s) == 2
                &&& u.len() == 2
                &&& 0xD800 <= u[0] <= 0xDBFF
                &&& 0xDC00 <= u[1] <= 0xDFFF
                &&& 0x1_0000 + (u[0] - 0xD800) * 0x400 + (u[1] - 0xDC00) == c as u32
            }
        }),
{
    let s = seq![c];
    let none = Seq::<char>::empty();
    assert(s.drop_last() =~= none);
    reveal_with_fuel(utf16, 2);
    reveal_with_fuel(utf16_len, 2);
    assert(utf16(s) =~= char_units(c));
}

/// White space is the tab, the line breaks, the space, and the spaces and separators that
/// Unicode has beside them.
pub proof fn law_white_space(c: char)
    ensures
        white_space(c) <==> ({
            ||| c == '\t' || c == '\n' || c == '\u{b}' || c == '\u{c}' || c == '\r' || c == ' '
            ||| c == '\u{85}' || c == '\u{a0}' || c == '\u{1680}'
            ||| c == '\u{2000}' || c == '\u{2001}' || c == '\u{2002}' || c == '\u{2003}'
            ||| c == '\u{2004}' || c == '\u{2005}' || c == '\u{2006}' || c == '\u{2007}'
            ||| c == '\u{2008}' || c == '\u{2009}' || c == '\u{200a}'
            ||| c == '\u{2028}' || c == '\u{2029}' || c == '\u{202f}' || c == '\u{205f}'
            ||| c == '\u{3000}'
        }),
{
}

} // verus!
