//! Edit scripts between two sequences.
//!
//! The scripts come from the `similar` crate. A step here holds what it does and how
//! many elements of either sequence it covers; where it stands follows from the
//! steps before it.
use similar::{capture_diff_slices, Algorithm, DiffTag, TextDiff};
use vstd::prelude::*;

verus! {

/// What a step of an edit script does.
#[derive(Debug, Clone, Copy, PartialEq, Eq, Structural)]
pub enum StepKind {
    Equal,
    Delete,
    Insert,
    Replace,
}

/// A step of an edit script: it covers the next `old_len` elements of the old
/// sequence and the next `new_len` elements of the new one.
#[derive(Debug, Clone, Copy, PartialEq, Eq, Structural)]
pub struct EditStep {
    pub kind: StepKind,
    pub old_len: usize,
    pub new_len: usize,
}

/// How many old elements the first `k` steps cover.
pub open spec fn old_at(steps: Seq<EditStep>, k: int) -> int
    decreases k,
{
    if k <= 0 {
        0
    } else {
        old_at(steps, k - 1) + steps[k - 1].old_len
    }
}

/// How many new elements the first `k` steps cover.
pub open spec fn new_at(steps: Seq<EditStep>, k: int) -> int
    decreases k,
{
    if k <= 0 {
        0
    } else {
        new_at(steps, k - 1) + steps[k - 1].new_len
    }
}

impl EditStep {
    /// The lengths fit the kind: an equal step covers as many elements on both sides,
    /// and no step is empty.
    pub open spec fn shaped(self) -> bool {
        match self.kind {
            StepKind::Equal => self.old_len == self.new_len && self.old_len > 0,
            StepKind::Delete => self.old_len > 0 && self.new_len == 0,
            StepKind::Insert => self.old_len == 0 && self.new_len > 0,
            StepKind::Replace => self.old_len > 0 && self.new_len > 0,
        }
    }
}

/// Where the `k`-th step is an equal step, it covers the same on both sides.
pub open spec fn kept<T>(steps: Seq<EditStep>, old: Seq<T>, new: Seq<T>, k: int) -> bool {
    steps[k].kind is Equal ==> old.subrange(old_at(steps, k), old_at(steps, k + 1))
        == new.subrange(new_at(steps, k), new_at(steps, k + 1))
}

/// The steps lead from `old` to `new`: together they cover both, and what an equal
/// step covers on the two sides is the same.
pub open spec fn edit_script<T>(steps: Seq<EditStep>, old: Seq<T>, new: Seq<T>) -> bool {
    &&& old_at(steps, steps.len() as int) == old.len()
    &&& new_at(steps, steps.len() as int) == new.len()
    &&& forall|k: int| 0 <= k < steps.len() ==> (#[trigger] steps[k]).shaped()
    &&& forall|k: int| 0 <= k < steps.len() ==> #[trigger] kept(steps, old, new, k)
}

/// Of two steps in a row, one is an equal step and one is not.
pub open spec fn alternating(steps: Seq<EditStep>) -> bool {
    forall|k: int, l: int|
        0 <= k && l == k + 1 && l < steps.len() ==> ((#[trigger] steps[k]).kind is Equal) != ((
        #[trigger] steps[l]).kind is Equal)
}

/// How many elements the equal steps among the first `k` cover.
pub open spec fn kept_at(steps: Seq<EditStep>, k: int) -> int
    decreases k,
{
    if k <= 0 {
        0
    } else {
        kept_at(steps, k - 1) + if steps[k - 1].kind is Equal {
            steps[k - 1].old_len as int
        } else {
            0
        }
    }
}

/// The length of a longest common subsequence.
pub open spec fn lcs<T>(a: Seq<T>, b: Seq<T>) -> int
    decreases a.len() + b.len(),
{
    if a.len() == 0 || b.len() == 0 {
        0
    } else if a.last() == b.last() {
        lcs(a.drop_last(), b.drop_last()) + 1
    } else {
        let (x, y) = (lcs(a.drop_last(), b), lcs(a, b.drop_last()));
        if x < y {
            y
        } else {
            x
        }
    }
}

/// The equal steps cover a longest common subsequence of the two sequences.
pub open spec fn longest<T>(steps: Seq<EditStep>, old: Seq<T>, new: Seq<T>) -> bool {
    kept_at(steps, steps.len() as int) == lcs(old, new)
}

/// The edit script between two texts, character by character.
pub uninterp spec fn char_script(old: Seq<char>, new: Seq<char>) -> Seq<EditStep>;

/// `TextDiff::from_chars` of the `similar` crate and its `ops`: the operations that
/// Myers' algorithm finds between the characters of the two texts, after adjacent
/// deletions and insertions are joined into replacements. They depend on the texts
/// alone. They cover both texts in order, equal operations cover equal characters,
/// equal operations and changes alternate, and the equal ones cover a longest common
/// subsequence: the algorithm looks for the shortest script, it runs without a
/// deadline, and moving and joining operations keeps how much the equal ones cover.
#[verifier::external_body]
pub(crate) fn diff_chars(old: &str, new: &str) -> (r: Vec<EditStep>)
    ensures
        r@ == char_script(old@, new@),
        edit_script(r@, old@, new@),
        alternating(r@),
        longest(r@, old@, new@),
{
    let mut steps = Vec::new();
    for op in TextDiff::from_chars(old, new).ops() {
        let (tag, from, to) = op.as_tag_tuple();
        let kind = match tag {
            DiffTag::Equal => StepKind::Equal,
            DiffTag::Delete => StepKind::Delete,
            DiffTag::Insert => StepKind::Insert,
            DiffTag::Replace => StepKind::Replace,
        };
        steps.push(EditStep { kind, old_len: from.len(), new_len: to.len() });
    }
    steps
}

/// The edit script between two sequences of numbers.
pub uninterp spec fn slice_script(old: Seq<u128>, new: Seq<u128>) -> Seq<EditStep>;

/// `capture_diff_slices` of the `similar` crate with Myers' algorithm. The operations
/// depend on the elements alone. They cover both sequences in order, equal operations
/// cover equal elements, equal operations and changes alternate, and the equal ones
/// cover a longest common subsequence.
#[verifier::external_body]
pub(crate) fn diff_slices(old: &[u128], new: &[u128]) -> (r: Vec<EditStep>)
    ensures
        r@ == slice_script(old@, new@),
        edit_script(r@, old@, new@),
        alternating(r@),
        longest(r@, old@, new@),
{
    let mut steps = Vec::new();
    for op in capture_diff_slices(Algorithm::Myers, old, new) {
        let (tag, from, to) = op.as_tag_tuple();
        let kind = match tag {
            DiffTag::Equal => StepKind::Equal,
            DiffTag::Delete => StepKind::Delete,
            DiffTag::Insert => StepKind::Insert,
            DiffTag::Replace => StepKind::Replace,
        };
        steps.push(EditStep { kind, old_len: from.len(), new_len: to.len() });
    }
    steps
}

/// Later steps stand further on.
pub proof fn lemma_at_monotonic(steps: Seq<EditStep>, k: int, l: int)
    requires
        0 <= k <= l <= steps.len(),
    ensures
        0 <= old_at(steps, k) <= old_at(steps, l),
        0 <= new_at(steps, k) <= new_at(steps, l),
    decreases l,
{
    if l > 0 {
        if k < l {
            lemma_at_monotonic(steps, k, l - 1);
        } else {
            lemma_at_monotonic(steps, k - 1, l - 1);
        }
    }
}

/// Where a step stands, both sides of it lie inside the sequences.
pub proof fn lemma_step_bounds<T>(steps: Seq<EditStep>, old: Seq<T>, new: Seq<T>, k: int)
    requires
        edit_script(steps, old, new),
        0 <= k < steps.len(),
    ensures
        0 <= old_at(steps, k) <= old_at(steps, k + 1) <= old.len(),
        0 <= new_at(steps, k) <= new_at(steps, k + 1) <= new.len(),
        old_at(steps, k + 1) == old_at(steps, k) + steps[k].old_len,
        new_at(steps, k + 1) == new_at(steps, k) + steps[k].new_len,
{
    lemma_at_monotonic(steps, k, k + 1);
    lemma_at_monotonic(steps, k + 1, steps.len() as int);
}

} // verus!
