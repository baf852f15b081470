//! Laws of the style passes: what is inserted is styled afresh, and what is kept is left
//! alone.
use crate::blocks::{
    dirty, flags, lemma_flags_len, lemma_para_start, needs_work, para_start, step_flags, Pass,
};
use crate::diff::{lemma_at_monotonic, new_at, old_at, EditStep};
use crate::model::{plain_style, runs_text, BlockKind, BlockV, RunV, TextStyle};
use crate::request::{style_request, RequestV, TEXT_FIELDS};
use crate::style_pass::{inline_from, list_end, restyle_requests, run_requests};
use crate::text::{lemma_utf16_len_add, utf16_len};
use crate::wire_laws::{law_masks, masked};
use vstd::prelude::*;

verus! {

/// The flag of a block is the one that its step gives.
proof fn lemma_flag(
    pass: Pass,
    steps: Seq<EditStep>,
    cur: Seq<BlockV>,
    des: Seq<BlockV>,
    k: int,
    t: int,
    n: int,
)
    requires
        0 <= k < n <= steps.len(),
        0 <= t < steps[k].new_len,
    ensures
        new_at(steps, k) + t < flags(pass, steps, cur, des, n).len(),
        flags(pass, steps, cur, des, n)[new_at(steps, k) + t] == step_flags(
            pass,
            steps,
            cur,
            des,
            k,
        )[t],
    decreases n,
{
    lemma_flags_len(pass, steps, cur, des, n - 1);
    lemma_at_monotonic(steps, 0, k);
    if k < n - 1 {
        lemma_flag(pass, steps, cur, des, k, t, n - 1);
    }
}

/// No run is set off from plain text by a mark or a link.
pub open spec fn plain_runs(runs: Seq<RunV>) -> bool {
    forall|i: int|
        0 <= i < runs.len() ==> !(#[trigger] runs[i]).style.bold && !runs[i].style.italic
            && !runs[i].style.strikethrough && runs[i].link is None
}

/// Every block that was inserted needs work, and none that was kept does.
pub proof fn law_flags(
    pass: Pass,
    steps: Seq<EditStep>,
    cur: Seq<BlockV>,
    des: Seq<BlockV>,
    k: int,
    t: int,
)
    requires
        0 <= k < steps.len(),
        0 <= t < steps[k].new_len,
    ensures
        steps[k].kind is Insert ==> dirty(pass, steps, cur, des)[new_at(steps, k) + t],
        steps[k].kind is Equal ==> !dirty(pass, steps, cur, des)[new_at(steps, k) + t],
        // A block that replaces another needs none only where the two agree in what the
        // pass looks at.
        steps[k].kind is Replace && !dirty(pass, steps, cur, des)[new_at(steps, k) + t] ==> t
            < steps[k].old_len && !needs_work(
            pass,
            cur[old_at(steps, k) + t],
            des[new_at(steps, k) + t],
        ),
        steps[k].kind is Replace && t < steps[k].old_len ==> ({
            let c = cur[old_at(steps, k) + t];
            let d = des[new_at(steps, k) + t];
            let flag = dirty(pass, steps, cur, des)[new_at(steps, k) + t];
            &&& pass is Paragraph ==> (!flag <==> c.kind == d.kind && c.depth == d.depth)
            &&& pass is Inline ==> (!flag <==> plain_runs(c.runs) && plain_runs(d.runs))
        }),
{
    lemma_flag(pass, steps, cur, des, k, t, steps.len() as int);
}

/// The blocks of a list are of one kind.
pub proof fn lemma_list_kind(bs: Seq<BlockV>, kind: BlockKind, j: int, i: int)
    requires
        0 <= j <= i < list_end(bs, kind, j),
    ensures
        bs[i].kind == kind,
    decreases i - j,
{
    if j < i {
        lemma_list_kind(bs, kind, j + 1, i);
    }
}

// ---------------------------------------------------------------------------
// Marks
// ---------------------------------------------------------------------------

/// The marks and the link of a UTF-16 unit.
pub struct Mark {
    pub style: TextStyle,
    pub link: Option<Seq<char>>,
}

/// No mark and no link.
pub open spec fn no_mark() -> Mark {
    Mark { style: plain_style(), link: None }
}

/// A mark after a request on it: the service changes what the field mask names and leaves
/// the rest.
pub open spec fn restyled_mark(
    m: Mark,
    style: TextStyle,
    link: Option<Seq<char>>,
    fields: Seq<char>,
) -> Mark {
    Mark {
        style: TextStyle {
            bold: if masked(fields, "bold"@) {
                style.bold
            } else {
                m.style.bold
            },
            italic: if masked(fields, "italic"@) {
                style.italic
            } else {
                m.style.italic
            },
            strikethrough: if masked(fields, "strikethrough"@) {
                style.strikethrough
            } else {
                m.style.strikethrough
            },
        },
        link: if masked(fields, "link"@) {
            link
        } else {
            m.link
        },
    }
}

/// The marks of the units of a text from index 1 on, after a request.
pub open spec fn marked_by(marks: Seq<Mark>, r: RequestV) -> Seq<Mark> {
    match r {
        RequestV::Style { start, end, style, link, fields } => Seq::new(
            marks.len(),
            |i: int|
                if start - 1 <= i < end - 1 {
                    restyled_mark(marks[i], style, link, fields)
                } else {
                    marks[i]
                },
        ),
        _ => marks,
    }
}

/// The marks after the requests.
pub open spec fn all_marked(marks: Seq<Mark>, rs: Seq<RequestV>) -> Seq<Mark>
    decreases rs.len(),
{
    if rs.len() == 0 {
        marks
    } else {
        marked_by(all_marked(marks, rs.drop_last()), rs.last())
    }
}

/// The marks of the units of the runs.
pub open spec fn run_marks(runs: Seq<RunV>) -> Seq<Mark>
    decreases runs.len(),
{
    if runs.len() == 0 {
        Seq::empty()
    } else {
        let r = runs.last();
        run_marks(runs.drop_last()) + Seq::new(
            utf16_len(r.text),
            |i: int| Mark { style: r.style, link: r.link },
        )
    }
}

pub proof fn lemma_marked_add(marks: Seq<Mark>, a: Seq<RequestV>, b: Seq<RequestV>)
    ensures
        all_marked(marks, a + b) == all_marked(all_marked(marks, a), b),
    decreases b.len(),
{
    if b.len() == 0 {
        assert(a + b =~= a);
    } else {
        lemma_marked_add(marks, a, b.drop_last());
        assert((a + b).drop_last() =~= a + b.drop_last());
    }
}

proof fn lemma_marked_one(marks: Seq<Mark>, r: RequestV)
    ensures
        all_marked(marks, seq![r]) == marked_by(marks, r),
        // The requests of the library name every field.
        r matches RequestV::Style { start, end, style, link, fields } ==> (fields == TEXT_FIELDS@
            ==> forall|i: int|
            0 <= i < marks.len() ==> (#[trigger] marked_by(marks, r)[i]) == if start - 1 <= i < end
                - 1 {
                Mark { style, link }
            } else {
                marks[i]
            }),
{
    law_masks();
    reveal_with_fuel(all_marked, 2);
    assert(seq![r].drop_last() =~= Seq::<RequestV>::empty());
}

proof fn lemma_run_marks_len(runs: Seq<RunV>)
    ensures
        run_marks(runs).len() == utf16_len(runs_text(runs)),
    decreases runs.len(),
{
    if runs.len() > 0 {
        lemma_run_marks_len(runs.drop_last());
        lemma_utf16_len_add(runs_text(runs.drop_last()), runs.last().text);
    }
}

/// The marks of some runs begin those of all.
proof fn lemma_run_marks_take(runs: Seq<RunV>, i: int)
    requires
        0 <= i <= runs.len(),
    ensures
        run_marks(runs.take(i)).len() <= run_marks(runs).len(),
        run_marks(runs).take(run_marks(runs.take(i)).len() as int) == run_marks(runs.take(i)),
    decreases runs.len(),
{
    if i < runs.len() {
        lemma_run_marks_take(runs.drop_last(), i);
        assert(runs.drop_last().take(i) =~= runs.take(i));
        let n = run_marks(runs.take(i)).len() as int;
        assert(run_marks(runs).take(n) =~= run_marks(runs.drop_last()).take(n));
    } else {
        assert(runs.take(i) =~= runs);
        assert(run_marks(runs).take(run_marks(runs).len() as int) =~= run_marks(runs));
    }
}

/// Setting the runs from the `i`-th on gives them their marks, where they have none yet.
proof fn lemma_runs_marked(runs: Seq<RunV>, start: int, i: int, marks: Seq<Mark>)
    requires
        1 <= start,
        0 <= i <= runs.len(),
        start - 1 + run_marks(runs).len() <= marks.len(),
        forall|q: int|
            0 <= q < run_marks(runs.take(i)).len() ==> (#[trigger] marks[start - 1 + q])
                == run_marks(runs)[q],
        forall|q: int|
            run_marks(runs.take(i)).len() <= q < run_marks(runs).len() ==> (#[trigger] marks[start
                - 1 + q]) == no_mark(),
    ensures
        ({
            let out = all_marked(marks, run_requests(runs, start, i));
            &&& out.len() == marks.len()
            &&& forall|q: int|
                0 <= q < marks.len() ==> (#[trigger] out[q]) == if start - 1 <= q < start - 1
                    + run_marks(runs).len() {
                    run_marks(runs)[q - (start - 1)]
                } else {
                    marks[q]
                }
        }),
    decreases runs.len() - i,
{
    let all = run_marks(runs);
    lemma_run_marks_take(runs, i);
    if i < runs.len() {
        lemma_run_marks_take(runs, i + 1);
        let a = runs.take(i);
        let b = runs.take(i + 1);
        assert(b.drop_last() =~= a);
        assert(b.last() == runs[i]);
        lemma_run_marks_len(a);
        lemma_run_marks_len(b);
        let r = runs[i];
        let from = start + utf16_len(runs_text(a));
        let to = start + utf16_len(runs_text(b));
        let own = Mark { style: r.style, link: r.link };
        assert forall|q: int| run_marks(a).len() <= q < run_marks(b).len() implies #[trigger] all[q]
            == own by {
            assert(all.take(run_marks(b).len() as int)[q] == run_marks(b)[q]);
        }
        let first = if from < to && !r.plain() {
            seq![style_request(from, to, r.style, r.link)]
        } else {
            Seq::empty()
        };
        let mid = all_marked(marks, first);
        if first.len() > 0 {
            lemma_marked_one(marks, first[0]);
        }
        lemma_marked_add(marks, first, run_requests(runs, start, i + 1));
        assert forall|q: int| 0 <= q < run_marks(b).len() implies (#[trigger] mid[start - 1 + q])
            == all[q] by {
            if q >= run_marks(a).len() {
                assert(marks[start - 1 + q] == no_mark());
                assert(all[q] == own);
            } else {
                assert(marks[start - 1 + q] == all[q]);
            }
        }
        assert forall|q: int| run_marks(b).len() <= q < all.len() implies (#[trigger] mid[start - 1
            + q]) == no_mark() by {
            assert(marks[start - 1 + q] == no_mark());
        }
        lemma_runs_marked(runs, start, i + 1, mid);
    } else {
        assert(runs.take(i) =~= runs);
        let out = all_marked(marks, run_requests(runs, start, i));
        assert forall|q: int| 0 <= q < marks.len() implies (#[trigger] out[q]) == if start - 1 <= q
            < start - 1 + all.len() {
            all[q - (start - 1)]
        } else {
            marks[q]
        } by {
            if start - 1 <= q < start - 1 + all.len() {
                assert(marks[start - 1 + (q - (start - 1))] == all[q - (start - 1)]);
            }
        }
    }
}

/// Restyling a paragraph gives its text the marks of its runs, whatever marks it had, and
/// leaves the rest alone.
pub proof fn law_restyled(b: BlockV, start: int, marks: Seq<Mark>)
    requires
        1 <= start,
        start - 1 + utf16_len(b.text()) <= marks.len(),
    ensures
        ({
            let out = all_marked(marks, restyle_requests(b, start));
            &&& out.len() == marks.len()
            &&& forall|q: int|
                0 <= q < marks.len() ==> (#[trigger] out[q]) == if start - 1 <= q < start - 1
                    + utf16_len(b.text()) {
                    run_marks(b.runs)[q - (start - 1)]
                } else {
                    marks[q]
                }
        }),
{
    let len = utf16_len(b.text());
    lemma_run_marks_len(b.runs);
    if len > 0 {
        let clear = style_request(start, start + len, plain_style(), None);
        let mid = marked_by(marks, clear);
        lemma_marked_one(marks, clear);
        lemma_marked_add(marks, seq![clear], run_requests(b.runs, start, 0));
        assert(b.runs.take(0) =~= Seq::<RunV>::empty());
        lemma_runs_marked(b.runs, start, 0, mid);
    }
}

/// The marks that the units of the `i`-th paragraph have among those of the whole text.
pub open spec fn marks_of(marks: Seq<Mark>, bs: Seq<BlockV>, i: int) -> Seq<Mark> {
    marks.subrange(para_start(bs, i) - 1, para_start(bs, i) - 1 + utf16_len(bs[i].text()))
}

proof fn lemma_inline_marks(bs: Seq<BlockV>, set: Seq<bool>, i: int, marks: Seq<Mark>)
    requires
        0 <= i <= bs.len(),
        marks.len() == para_start(bs, bs.len() as int) - 1,
    ensures
        ({
            let out = all_marked(marks, inline_from(bs, set, i));
            &&& out.len() == marks.len()
            &&& forall|q: int| 0 <= q < para_start(bs, i) - 1 ==> (#[trigger] out[q]) == marks[q]
            &&& forall|k: int|
                i <= k < bs.len() ==> #[trigger] marks_of(out, bs, k) == if set[k] {
                    run_marks(bs[k].runs)
                } else {
                    marks_of(marks, bs, k)
                }
        }),
    decreases bs.len() - i,
{
    let n = bs.len() as int;
    if i < n {
        let start = para_start(bs, i);
        let len = utf16_len(bs[i].text());
        lemma_para_start(bs, i, i);
        lemma_para_start(bs, i + 1, n);
        lemma_run_marks_len(bs[i].runs);
        let first = if set[i] {
            restyle_requests(bs[i], start)
        } else {
            Seq::empty()
        };
        let mid = all_marked(marks, first);
        if set[i] {
            law_restyled(bs[i], start, marks);
        }
        lemma_marked_add(marks, first, inline_from(bs, set, i + 1));
        lemma_inline_marks(bs, set, i + 1, mid);
        let out = all_marked(mid, inline_from(bs, set, i + 1));
        assert(para_start(bs, i + 1) == start + len + 1);
        assert forall|k: int| i <= k < n implies #[trigger] marks_of(out, bs, k) == if set[k] {
            run_marks(bs[k].runs)
        } else {
            marks_of(marks, bs, k)
        } by {
            lemma_para_start(bs, k, k);
            lemma_para_start(bs, k + 1, n);
            if k == i {
                assert(marks_of(out, bs, i) =~= marks_of(mid, bs, i));
                if set[i] {
                    assert(marks_of(mid, bs, i) =~= run_marks(bs[i].runs));
                }
            } else {
                lemma_para_start(bs, i + 1, k);
                assert(marks_of(mid, bs, k) =~= marks_of(marks, bs, k));
            }
        }
    }
}

/// After the inline pass every paragraph that needed work has the marks of its runs and
/// no others, and every other paragraph has those that it had.
pub proof fn law_inline_marks(bs: Seq<BlockV>, set: Seq<bool>, marks: Seq<Mark>, i: int)
    requires
        marks.len() == para_start(bs, bs.len() as int) - 1,
        0 <= i < bs.len(),
    ensures
        marks_of(all_marked(marks, inline_from(bs, set, 0)), bs, i) == if set[i] {
            run_marks(bs[i].runs)
        } else {
            marks_of(marks, bs, i)
        },
{
    lemma_inline_marks(bs, set, 0, marks);
}

} // verus!
