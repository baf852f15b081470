//! What the style passes share: the alignment of two lists of blocks, the blocks that
//! need work, and the index ranges of paragraphs.
use crate::diff::{
    alternating, diff_slices, edit_script, kept, lemma_step_bounds, longest, new_at, old_at,
    slice_script, EditStep, StepKind,
};
use crate::model::{block_views, same_block, Block, BlockV};
use crate::request::Range;
use crate::shortest::{law_tight, lemma_lcs_same, tight};
use crate::text::{u16_len, utf16_len};
use vstd::prelude::*;

verus! {

/// The first position from `i` on that holds `x`.
pub open spec fn first_index<T>(s: Seq<T>, x: T, i: int) -> int
    decreases s.len() - i,
{
    if i < 0 || i >= s.len() {
        s.len() as int
    } else if s[i] == x {
        i
    } else {
        first_index(s, x, i + 1)
    }
}

/// `first_index` finds the value where it is.
pub proof fn lemma_first_index<T>(s: Seq<T>, x: T, i: int)
    requires
        0 <= i <= s.len(),
    ensures
        i <= first_index(s, x, i) <= s.len(),
        first_index(s, x, i) < s.len() ==> s[first_index(s, x, i)] == x,
        forall|j: int| i <= j < s.len() && s[j] == x ==> first_index(s, x, i) <= j,
    decreases s.len() - i,
{
    if i < s.len() && s[i] != x {
        lemma_first_index(s, x, i + 1);
    }
}

/// A number for each block of `bs`, by which blocks of `all` are told apart: where the
/// block first stands in `all`.
pub open spec fn block_numbers(all: Seq<BlockV>, bs: Seq<BlockV>) -> Seq<u128> {
    Seq::new(bs.len(), |i: int| first_index(all, bs[i], 0) as u128)
}

/// The edit script from the blocks `cur` to the blocks `des`.
pub open spec fn block_script(cur: Seq<BlockV>, des: Seq<BlockV>) -> Seq<EditStep> {
    slice_script(block_numbers(cur + des, cur), block_numbers(cur + des, des))
}

/// Where the block `b` first stands in `cur` and then `des`.
fn number_of(cur: &[Block], des: &[Block], b: &Block) -> (r: u128)
    ensures
        r == first_index(block_views(cur@) + block_views(des@), b@, 0),
{
    let ghost all = block_views(cur@) + block_views(des@);
    let n: usize = cur.len();
    let m: usize = des.len();
    for i in 0..n
        invariant
            n == cur@.len(),
            all == block_views(cur@) + block_views(des@),
            first_index(all, b@, 0) == first_index(all, b@, i as int),
    {
        assert(all[i as int] == cur@[i as int]@);
        if same_block(&cur[i], b) {
            return i as u128;
        }
    }
    for j in 0..m
        invariant
            n == cur@.len(),
            m == des@.len(),
            all == block_views(cur@) + block_views(des@),
            first_index(all, b@, 0) == first_index(all, b@, n + j),
    {
        assert(all[n + j] == des@[j as int]@);
        if same_block(&des[j], b) {
            return n as u128 + j as u128;
        }
    }
    n as u128 + m as u128
}

/// The number of each block of `bs`.
fn number_blocks(cur: &[Block], des: &[Block], bs: &[Block]) -> (r: Vec<u128>)
    ensures
        r@ == block_numbers(block_views(cur@) + block_views(des@), block_views(bs@)),
        forall|k: int|
            0 <= k < r@.len() ==> #[trigger] r@[k] == first_index(
                block_views(cur@) + block_views(des@),
                block_views(bs@)[k],
                0,
            ),
{
    let ghost all = block_views(cur@) + block_views(des@);
    let ghost v = block_views(bs@);
    let n: usize = bs.len();
    let mut out: Vec<u128> = Vec::new();
    for i in 0..n
        invariant
            n == bs@.len(),
            all == block_views(cur@) + block_views(des@),
            v == block_views(bs@),
            out@.len() == i,
            forall|k: int| 0 <= k < i ==> #[trigger] out@[k] == first_index(all, v[k], 0),
    {
        let x: u128 = number_of(cur, des, &bs[i]);
        assert(v[i as int] == bs@[i as int]@);
        out.push(x);
    }
    assert(out@ =~= block_numbers(all, v));
    out
}

/// The edit script from the blocks `cur` to the blocks `des`.
pub fn diff_blocks(cur: &[Block], des: &[Block]) -> (r: Vec<EditStep>)
    ensures
        r@ == block_script(block_views(cur@), block_views(des@)),
        edit_script(r@, block_views(cur@), block_views(des@)),
        alternating(r@),
        longest(r@, block_views(cur@), block_views(des@)),
        tight(r@, block_views(cur@), block_views(des@)),
{
    let ghost c = block_views(cur@);
    let ghost d = block_views(des@);
    let a = number_blocks(cur, des, cur);
    let b = number_blocks(cur, des, des);
    let r = diff_slices(a.as_slice(), b.as_slice());
    proof {
        assert forall|i: int, j: int| 0 <= i < c.len() && 0 <= j < d.len() implies (a@[i] == b@[j]
            <==> c[i] == d[j]) by {
            lemma_first_index(c + d, c[i], 0);
            lemma_first_index(c + d, d[j], 0);
            assert((c + d)[i] == c[i]);
            assert((c + d)[c.len() + j] == d[j]);
        }
        assert forall|k: int| 0 <= k < r@.len() implies #[trigger] kept(r@, c, d, k) by {
            assert(kept(r@, a@, b@, k));
            lemma_step_bounds(r@, a@, b@, k);
            if r@[k].kind is Equal {
                let (o, p) = (old_at(r@, k), old_at(r@, k + 1));
                let (q, s) = (new_at(r@, k), new_at(r@, k + 1));
                assert(r@[k].shaped());
                assert forall|t: int| 0 <= t < p - o implies c.subrange(o, p)[t] == d.subrange(
                    q,
                    s,
                )[t] by {
                    assert(a@.subrange(o, p)[t] == b@.subrange(q, s)[t]);
                    assert(a@[o + t] == b@[q + t]);
                }
                assert(c.subrange(o, p) =~= d.subrange(q, s));
            }
        }
        lemma_lcs_same(a@, b@, c, d);
        law_tight(r@, c, d);
    }
    r
}

/// The two passes over paragraphs.
#[derive(Debug, Clone, Copy, PartialEq, Eq, Structural)]
pub enum Pass {
    /// Headings and lists.
    Paragraph,
    /// Marks and links.
    Inline,
}

/// A paragraph `c` that was rewritten as `d` needs work in the pass: its kind or level
/// changed, or one of the two carries marks.
pub open spec fn needs_work(pass: Pass, c: BlockV, d: BlockV) -> bool {
    match pass {
        Pass::Paragraph => c.kind != d.kind || c.depth != d.depth,
        Pass::Inline => c.marked() || d.marked(),
    }
}

/// Which of the new blocks that the `k`-th step covers need work: inserted ones do,
/// those that replace another where the two differ in what the pass looks at.
pub open spec fn step_flags(
    pass: Pass,
    steps: Seq<EditStep>,
    cur: Seq<BlockV>,
    des: Seq<BlockV>,
    k: int,
) -> Seq<bool> {
    Seq::new(
        steps[k].new_len as nat,
        |t: int|
            match steps[k].kind {
                StepKind::Insert => true,
                StepKind::Replace => t >= steps[k].old_len || needs_work(
                    pass,
                    cur[old_at(steps, k) + t],
                    des[new_at(steps, k) + t],
                ),
                _ => false,
            },
    )
}

/// Which of the new blocks that the first `k` steps cover need work.
pub open spec fn flags(
    pass: Pass,
    steps: Seq<EditStep>,
    cur: Seq<BlockV>,
    des: Seq<BlockV>,
    k: int,
) -> Seq<bool>
    decreases k,
{
    if k <= 0 {
        Seq::empty()
    } else {
        flags(pass, steps, cur, des, k - 1) + step_flags(pass, steps, cur, des, k - 1)
    }
}

/// Which blocks of `des` need work.
pub open spec fn dirty(pass: Pass, steps: Seq<EditStep>, cur: Seq<BlockV>, des: Seq<BlockV>) -> Seq<
    bool,
> {
    flags(pass, steps, cur, des, steps.len() as int)
}

/// There is a flag for each block covered.
pub proof fn lemma_flags_len(
    pass: Pass,
    steps: Seq<EditStep>,
    cur: Seq<BlockV>,
    des: Seq<BlockV>,
    k: int,
)
    requires
        0 <= k <= steps.len(),
    ensures
        flags(pass, steps, cur, des, k).len() == new_at(steps, k),
    decreases k,
{
    if k > 0 {
        lemma_flags_len(pass, steps, cur, des, k - 1);
    }
}

/// Where no step changes anything, no block needs work.
pub proof fn lemma_no_flags(
    pass: Pass,
    steps: Seq<EditStep>,
    cur: Seq<BlockV>,
    des: Seq<BlockV>,
    k: int,
)
    requires
        forall|i: int| 0 <= i < steps.len() ==> (#[trigger] steps[i]).kind is Equal,
        0 <= k <= steps.len(),
    ensures
        forall|i: int|
            0 <= i < flags(pass, steps, cur, des, k).len() ==> !(#[trigger] flags(
                pass,
                steps,
                cur,
                des,
                k,
            )[i]),
    decreases k,
{
    if k > 0 {
        lemma_no_flags(pass, steps, cur, des, k - 1);
        assert(steps[k - 1].kind is Equal);
        let a = flags(pass, steps, cur, des, k - 1);
        let b = step_flags(pass, steps, cur, des, k - 1);
        assert forall|i: int| 0 <= i < (a + b).len() implies !(#[trigger] (a + b)[i]) by {
            if i < a.len() {
                assert(!a[i]);
            }
        }
    }
}

/// Whether a paragraph `c` that was rewritten as `d` needs work in the pass.
fn wants_work(pass: Pass, c: &Block, d: &Block) -> (r: bool)
    ensures
        r == needs_work(pass, c@, d@),
{
    match pass {
        Pass::Paragraph => c.kind != d.kind || c.depth != d.depth,
        Pass::Inline => c.has_marks() || d.has_marks(),
    }
}

/// Which blocks of `des` need work in the pass, when the steps lead from `cur` to
/// `des`.
pub fn dirty_blocks(pass: Pass, steps: &[EditStep], cur: &[Block], des: &[Block]) -> (r: Vec<bool>)
    requires
        edit_script(steps@, block_views(cur@), block_views(des@)),
    ensures
        r@ == dirty(pass, steps@, block_views(cur@), block_views(des@)),
        r@.len() == des@.len(),
{
    let ghost c = block_views(cur@);
    let ghost d = block_views(des@);
    let n: usize = steps.len();
    let cur_len: usize = cur.len();
    let des_len: usize = des.len();
    let mut out: Vec<bool> = Vec::new();
    let mut o: usize = 0;
    let mut q: usize = 0;
    for k in 0..n
        invariant
            n == steps@.len(),
            cur_len == cur@.len(),
            des_len == des@.len(),
            c == block_views(cur@),
            d == block_views(des@),
            edit_script(steps@, c, d),
            o == old_at(steps@, k as int),
            q == new_at(steps@, k as int),
            out@ == flags(pass, steps@, c, d, k as int),
    {
        let step = steps[k];
        proof {
            lemma_step_bounds(steps@, c, d, k as int);
        }
        let ghost before = out@;
        let len: usize = step.new_len;
        let old_len: usize = step.old_len;
        for t in 0..len
            invariant
                k < steps@.len(),
                step == steps@[k as int],
                len == step.new_len,
                old_len == step.old_len,
                c == block_views(cur@),
                d == block_views(des@),
                o == old_at(steps@, k as int),
                q == new_at(steps@, k as int),
                cur_len == cur@.len(),
                des_len == des@.len(),
                o + old_len <= cur_len,
                q + len <= des_len,
                out@ =~= before + step_flags(pass, steps@, c, d, k as int).take(t as int),
        {
            let flag = match step.kind {
                StepKind::Insert => true,
                StepKind::Replace => t >= old_len || wants_work(pass, &cur[o + t], &des[q + t]),
                _ => false,
            };
            out.push(flag);
            assert(step_flags(pass, steps@, c, d, k as int)[t as int] == flag);
            assert(step_flags(pass, steps@, c, d, k as int).take(t + 1) =~= step_flags(
                pass,
                steps@,
                c,
                d,
                k as int,
            ).take(t as int).push(flag));
        }
        assert(out@ =~= before + step_flags(pass, steps@, c, d, k as int));
        o = o + old_len;
        q = q + len;
    }
    proof {
        lemma_flags_len(pass, steps@, c, d, n as int);
    }
    out
}

/// The index at which the `i`-th of the paragraphs starts, the first at index 1: each
/// takes up its text and a line feed.
pub open spec fn para_start(bs: Seq<BlockV>, i: int) -> int
    decreases i,
{
    if i <= 0 {
        1
    } else {
        para_start(bs, i - 1) + utf16_len(bs[i - 1].text()) + 1
    }
}

/// Later paragraphs start further on.
pub proof fn lemma_para_start(bs: Seq<BlockV>, i: int, j: int)
    requires
        0 <= i <= j,
    ensures
        1 <= para_start(bs, i) <= para_start(bs, j),
    decreases j,
{
    if i < j {
        lemma_para_start(bs, i, j - 1);
    } else if j > 0 {
        lemma_para_start(bs, i - 1, j - 1);
    }
}

/// The index ranges of the paragraphs, from index 1 on; each reaches over its line
/// feed.
pub fn paragraph_ranges(desired: &[Block]) -> (r: Vec<Range>)
    requires
        para_start(block_views(desired@), desired@.len() as int) <= usize::MAX,
    ensures
        r@.len() == desired@.len(),
        forall|i: int|
            0 <= i < r@.len() ==> (#[trigger] r@[i]).start_index == para_start(
                block_views(desired@),
                i,
            ) && r@[i].end_index == para_start(block_views(desired@), i + 1),
{
    let ghost bs = block_views(desired@);
    let n: usize = desired.len();
    let mut ranges: Vec<Range> = Vec::new();
    let mut idx: usize = 1;
    for i in 0..n
        invariant
            n == desired@.len(),
            bs == block_views(desired@),
            para_start(bs, n as int) <= usize::MAX,
            idx == para_start(bs, i as int),
            ranges@.len() == i,
            forall|k: int|
                0 <= k < i ==> (#[trigger] ranges@[k]).start_index == para_start(bs, k)
                    && ranges@[k].end_index == para_start(bs, k + 1),
    {
        proof {
            lemma_para_start(bs, i + 1, n as int);
            lemma_para_start(bs, i as int, i as int);
            assert(bs[i as int] == desired@[i as int]@);
        }
        let text = desired[i].text();
        let len: usize = u16_len(text.as_str());
        ranges.push(Range { start_index: idx, end_index: idx + len + 1 });
        idx = idx + len + 1;
    }
    ranges
}

} // verus!
