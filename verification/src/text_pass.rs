//! The text pass: the edits that turn one text into another.
use crate::apply::{all_apply, apply_all};
use crate::diff::{
    char_script, diff_chars, edit_script, lemma_step_bounds, new_at, old_at, EditStep, StepKind,
};
use crate::object_laws::{edits_around, inserts_none, law_edited_around};
use crate::request::{all_within, delete_range, insert_text, request_views, Request, RequestV};
use crate::shortest::{
    fewest_changes, fewest_edits, law_fewest_changes, law_fewest_edits, law_tight,
    lemma_fitted_size,
};
use crate::text::{
    lemma_utf16_len_prefix, push_chars, to_chars, to_text, u16_len, utf16_len, utf16_prefix,
};
use crate::text_laws::{
    all_proper, all_spare, apply_all16, bmp, law_body_cleared, law_body_edits_apply,
    law_body_edits_apply16, law_edits_apply, law_edits_apply16, law_no_edits, lemma_fitted_within,
    lemma_script_proper, lemma_script_within, utf16,
};
use vstd::prelude::*;
use vstd::slice::slice_subrange;

verus! {

/// The document index of the character offset `o` of a text that starts at index 1.
pub open spec fn index_of(text: Seq<char>, o: int) -> int {
    utf16_len(text.take(o)) + 1int
}

/// The requests of a step: the range is deleted, and the text inserted where it
/// starts.
pub open spec fn edit_requests(kind: StepKind, start: int, end: int, text: Seq<char>) -> Seq<
    RequestV,
> {
    match kind {
        StepKind::Equal => Seq::empty(),
        StepKind::Delete => seq![RequestV::Delete { start, end }],
        StepKind::Insert => seq![RequestV::Insert { index: start, text }],
        StepKind::Replace => seq![
            RequestV::Delete { start, end },
            RequestV::Insert { index: start, text },
        ],
    }
}

/// The requests of the `k`-th step: what it covers of the old text is deleted, and
/// what it covers of the new one is inserted there.
pub open spec fn step_requests(
    steps: Seq<EditStep>,
    old: Seq<char>,
    new: Seq<char>,
    k: int,
) -> Seq<RequestV> {
    edit_requests(
        steps[k].kind,
        index_of(old, old_at(steps, k)),
        index_of(old, old_at(steps, k + 1)),
        new.subrange(new_at(steps, k), new_at(steps, k + 1)),
    )
}

/// The requests of the steps from the `k`-th to the `m`-th, the last step first.
pub open spec fn script_requests(
    steps: Seq<EditStep>,
    old: Seq<char>,
    new: Seq<char>,
    k: int,
    m: int,
) -> Seq<RequestV>
    decreases m - k,
{
    if k >= m {
        Seq::empty()
    } else {
        script_requests(steps, old, new, k + 1, m) + step_requests(steps, old, new, k)
    }
}

/// The requests of all steps.
pub open spec fn all_requests(steps: Seq<EditStep>, old: Seq<char>, new: Seq<char>) -> Seq<
    RequestV,
> {
    script_requests(steps, old, new, 0, steps.len() as int)
}

/// The edits from `old` to `new`.
pub open spec fn text_requests(old: Seq<char>, new: Seq<char>) -> Seq<RequestV> {
    all_requests(char_script(old, new), old, new)
}

/// Append the requests of a step.
fn push_edit(out: &mut Vec<Request>, kind: StepKind, start: usize, end: usize, text: &[char])
    ensures
        request_views(final(out)@) == request_views(old(out)@) + edit_requests(
            kind,
            start as int,
            end as int,
            text@,
        ),
{
    match kind {
        StepKind::Equal => {},
        StepKind::Delete => {
            out.push(delete_range(start, end));
        },
        StepKind::Insert => {
            out.push(insert_text(start, to_text(text)));
        },
        StepKind::Replace => {
            out.push(delete_range(start, end));
            out.push(insert_text(start, to_text(text)));
        },
    }
    assert(request_views(out@) =~= request_views(old(out)@) + edit_requests(
        kind,
        start as int,
        end as int,
        text@,
    ));
}

/// The requests that carry out the steps of an edit script, the last step first, so
/// that no request moves what a later one refers to.
pub fn requests_for(old: &str, new: &str, steps: &[EditStep]) -> (r: Vec<Request>)
    requires
        edit_script(steps@, old@, new@),
        utf16_len(old@) < usize::MAX,
    ensures
        request_views(r@) == all_requests(steps@, old@, new@),
{
    let old_chars = to_chars(old);
    let new_chars = to_chars(new);
    let off = utf16_prefix(old_chars.as_slice());
    let mut o: usize = old_chars.len();
    let mut n: usize = new_chars.len();
    let mut k: usize = steps.len();
    let mut reqs: Vec<Request> = Vec::new();
    assert(request_views(reqs@) =~= Seq::<RequestV>::empty());
    while k > 0
        invariant
            k <= steps@.len(),
            old_chars@ == old@,
            new_chars@ == new@,
            edit_script(steps@, old@, new@),
            utf16_len(old@) < usize::MAX,
            off@.len() == old@.len() + 1,
            forall|i: int| 0 <= i <= old@.len() ==> #[trigger] off@[i] == utf16_len(old@.take(i)),
            o == old_at(steps@, k as int),
            n == new_at(steps@, k as int),
            0 <= o <= old@.len(),
            0 <= n <= new@.len(),
            request_views(reqs@) == script_requests(
                steps@,
                old@,
                new@,
                k as int,
                steps@.len() as int,
            ),
        decreases k,
    {
        let step = steps[k - 1];
        proof {
            lemma_step_bounds(steps@, old@, new@, k - 1);
            lemma_utf16_len_prefix(old@, o as int);
            lemma_utf16_len_prefix(old@, o - step.old_len);
            assert(steps@[k - 1].shaped());
        }
        let to: usize = off[o] + 1;
        o = o - step.old_len;
        let m: usize = n;
        n = n - step.new_len;
        let from: usize = off[o] + 1;
        push_edit(&mut reqs, step.kind, from, to, slice_subrange(new_chars.as_slice(), n, m));
        k = k - 1;
    }
    reqs
}

/// Minimal text edits from `old` to `new` for a text that starts at index 1, the
/// highest index first. Every edit is an insertion or a deletion.
pub fn diff_to_requests(old: &str, new: &str) -> (r: Vec<Request>)
    requires
        utf16_len(old@) < usize::MAX,
    ensures
        request_views(r@) == text_requests(old@, new@),
        // Applied to the old text, the requests give the new one.
        apply_all16(utf16(old@), request_views(r@)) == Some(utf16(new@)),
        bmp(old@) ==> all_apply(old@, request_views(r@)) && apply_all(old@, request_views(r@))
            == new@,
        // They are minimal: no edit script deletes and inserts fewer characters, and no
        // requests that lead to the new text do.
        fewest_changes(char_script(old@, new@), old@, new@),
        bmp(old@) ==> fewest_edits(request_views(r@), old@, new@),
        // Text can be edited around inline objects.
        edits_around(old@, new@) ==> inserts_none(request_views(r@)),
        old@ == new@ ==> r@.len() == 0,
        all_within(request_views(r@), utf16_len(old@) + 1int),
        all_proper(request_views(r@), new@),
{
    let steps = diff_chars(old, new);
    proof {
        law_tight(steps@, old@, new@);
        if edits_around(old@, new@) {
            law_edited_around(steps@, old@, new@);
        }
        law_fewest_changes(steps@, old@, new@);
        lemma_script_proper(steps@, old@, new@, 0, steps@.len() as int);
        lemma_script_within(steps@, old@, new@, 0, steps@.len() as int);
        law_edits_apply16(steps@, old@, new@);
        if bmp(old@) {
            law_edits_apply(steps@, old@, new@);
            law_fewest_edits(steps@, old@, new@);
        }
        if old@ == new@ {
            law_no_edits(steps@, old@, new@, 0, steps@.len() as int);
        }
    }
    requests_for(old, new, steps.as_slice())
}

/// The text ends with a line feed.
pub open spec fn ends_line(s: Seq<char>) -> bool {
    s.len() > 0 && s.last() == '\n'
}

/// A request fitted to a text of `l` units whose final line feed cannot be moved: an
/// insertion behind it goes before it, with its own final line feed in front; a
/// deletion that reaches it takes the character before its range instead, or, where
/// there is none, ends before the line feed.
pub open spec fn keep_final(r: RequestV, l: int) -> RequestV {
    match r {
        RequestV::Insert { index, text } => if index == l + 1 {
            RequestV::Insert {
                index: l,
                text: if ends_line(text) {
                    seq!['\n'] + text.drop_last()
                } else {
                    text
                },
            }
        } else {
            r
        },
        RequestV::Delete { start, end } => if end == l + 1 {
            if start > 1 {
                RequestV::Delete { start: start - 1, end: end - 1 }
            } else {
                RequestV::Delete { start, end: l }
            }
        } else {
            r
        },
        _ => r,
    }
}

/// The requests fitted to an immovable final line feed.
pub open spec fn keep_final_all(rs: Seq<RequestV>, l: int) -> Seq<RequestV> {
    Seq::new(rs.len(), |i: int| keep_final(rs[i], l))
}

/// The edits of a document body from `old` to `new`.
pub open spec fn body_requests(old: Seq<char>, new: Seq<char>) -> Seq<RequestV> {
    let rs = text_requests(old, new);
    if ends_line(old) {
        keep_final_all(rs, utf16_len(old) as int)
    } else {
        rs
    }
}

/// The request fitted to an immovable final line feed at index `l`.
fn fit_request(r: Request, l: usize) -> (s: Request)
    requires
        0 < l < usize::MAX,
    ensures
        s@ == keep_final(r@, l as int),
{
    match r {
        Request::InsertText(it) => if it.location.index == l + 1 {
            let cs = to_chars(it.text.as_str());
            let n: usize = cs.len();
            if n > 0 && cs[n - 1] == '\n' {
                let mut out: Vec<char> = Vec::new();
                out.push('\n');
                push_chars(&mut out, slice_subrange(cs.as_slice(), 0, n - 1));
                assert(out@ =~= seq!['\n'] + it.text@.drop_last());
                insert_text(l, to_text(out.as_slice()))
            } else {
                insert_text(l, it.text)
            }
        } else {
            Request::InsertText(it)
        },
        Request::DeleteContentRange(d) => if d.range.end_index == l + 1 {
            if d.range.start_index > 1 {
                delete_range(d.range.start_index - 1, l)
            } else {
                delete_range(d.range.start_index, l)
            }
        } else {
            Request::DeleteContentRange(d)
        },
        other => other,
    }
}

/// Text edits for a document body, whose final line feed cannot be moved: nothing is
/// inserted behind it and no deletion reaches it.
pub fn doc_text_requests(old: &str, new: &str) -> (r: Vec<Request>)
    requires
        utf16_len(old@) < usize::MAX,
    ensures
        request_views(r@) == body_requests(old@, new@),
        // Whatever the new text is, a final line feed of the old one is spared.
        ends_line(old@) ==> all_spare(request_views(r@), utf16_len(old@) as int),
        // Applied to the old text, the requests give the new one, and no others that do
        // insert and delete less.
        ends_line(old@) && ends_line(new@) ==> {
            &&& apply_all16(utf16(old@), request_views(r@)) == Some(utf16(new@))
            &&& bmp(old@) ==> all_apply(old@, request_views(r@)) && apply_all(
                old@,
                request_views(r@),
            ) == new@ && fewest_edits(request_views(r@), old@, new@)
            &&& all_proper(request_views(r@), new@)
        },
        // Where the new text is empty, the final line feed stays and nothing else.
        ends_line(old@) && new@.len() == 0 ==> {
            &&& apply_all16(utf16(old@), request_views(r@)) == Some(utf16(seq!['\n']))
            &&& request_views(r@) == seq![
                RequestV::Delete { start: 1, end: utf16_len(old@) as int },
            ]
        },
        // A text without a final line feed has none to spare.
        !ends_line(old@) ==> {
            &&& apply_all16(utf16(old@), request_views(r@)) == Some(utf16(new@))
            &&& all_proper(request_views(r@), new@)
        },
        // Text can be edited around inline objects.
        edits_around(old@, new@) ==> inserts_none(request_views(r@)),
        old@ == new@ ==> r@.len() == 0,
        all_within(request_views(r@), utf16_len(old@) + 1int),
{
    let steps = diff_chars(old, new);
    let reqs = requests_for(old, new, steps.as_slice());
    proof {
        law_tight(steps@, old@, new@);
        if edits_around(old@, new@) {
            law_edited_around(steps@, old@, new@);
        }
        lemma_script_within(steps@, old@, new@, 0, steps@.len() as int);
        if ends_line(old@) && new@.len() == 0 {
            law_body_cleared(steps@, old@, new@);
        }
        if !ends_line(old@) {
            lemma_script_proper(steps@, old@, new@, 0, steps@.len() as int);
            law_edits_apply16(steps@, old@, new@);
        }
        if ends_line(old@) && ends_line(new@) {
            law_body_edits_apply16(steps@, old@, new@);
            if bmp(old@) {
                law_body_edits_apply(steps@, old@, new@);
                law_fewest_edits(steps@, old@, new@);
                lemma_fitted_size(request_views(reqs@), utf16_len(old@) as int);
            }
        }
        if old@ == new@ {
            law_no_edits(steps@, old@, new@, 0, steps@.len() as int);
        }
    }
    let cs = to_chars(old);
    let n: usize = cs.len();
    if n == 0 || cs[n - 1] != '\n' {
        return reqs;
    }
    let l: usize = u16_len(old);
    proof {
        lemma_utf16_len_prefix(old@, n - 1);
        assert(old@.skip(n - 1).drop_last() =~= Seq::<char>::empty());
    }
    let ghost all = reqs@;
    let mut out: Vec<Request> = Vec::new();
    for r in it: reqs
        invariant
            0 < l < usize::MAX,
            it.seq() == all,
            out@.len() == it.index(),
            forall|k: int|
                0 <= k < it.index() ==> #[trigger] out@[k]@ == keep_final(all[k]@, l as int),
    {
        out.push(fit_request(r, l));
    }
    assert(request_views(out@) =~= keep_final_all(request_views(all), l as int));
    proof {
        lemma_fitted_within(request_views(all), l as int);
    }
    out
}

} // verus!
