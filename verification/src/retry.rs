//! Retrying after a concurrent edit.
use crate::text::{contains_str, holds, lemma_find_from, occurs_at};
use vstd::prelude::*;

verus! {

/// How many times a write is tried when the document is edited meanwhile.
pub const MAX_CONFLICT_RETRIES: usize = 5;

/// What the service says when the document is not at the required revision.
pub const CONFLICT_TEXT: &'static str = "does not match the latest revision";

/// The error text is the refusal of a write to a document that has moved on.
pub open spec fn conflict(err: Seq<char>) -> bool {
    holds(err, CONFLICT_TEXT@)
}

/// The result is such a refusal.
pub open spec fn is_conflict<T>(r: Result<T, String>) -> bool {
    r matches Err(e) && conflict(e@)
}

/// Whether the error text is the refusal of a write to a document that was modified
/// between the read and the write.
pub fn is_revision_conflict(err: &str) -> (r: bool)
    ensures
        r == conflict(err@),
{
    contains_str(err, CONFLICT_TEXT)
}

/// Whether another attempt follows the `attempts`-th, which ended so.
pub open spec fn goes_on<T>(attempts: int, r: Result<T, String>) -> bool {
    attempts < MAX_CONFLICT_RETRIES && is_conflict(r)
}

/// Whether to try again after this many attempts, of which the last ended so.
pub fn try_again<T>(attempts: usize, r: &Result<T, String>) -> (again: bool)
    ensures
        again == goes_on(attempts as int, *r),
{
    attempts < MAX_CONFLICT_RETRIES && match r {
        Err(e) => is_revision_conflict(e.as_str()),
        Ok(_) => false,
    }
}

/// The results of the attempts: each is one that `op` gave, each but the last was followed
/// by another attempt, and the last was not.
pub open spec fn attempts_of<T, F: FnMut() -> Result<T, String>>(
    op: F,
    rs: Seq<Result<T, String>>,
) -> bool {
    &&& rs.len() > 0
    &&& forall|i: int| 0 <= i < rs.len() ==> call_ensures(op, (), #[trigger] rs[i])
    &&& forall|i: int| 0 <= i < rs.len() - 1 ==> goes_on(i + 1, #[trigger] rs[i])
    &&& !goes_on(rs.len() as int, rs.last())
}

/// Run a step that reads, computes and writes, and run it again while it is refused
/// because the document moved on meanwhile. `op` must read the document anew each time.
/// Other errors, and the refusal of the last attempt, are returned as they are.
pub fn retry_on_conflict<T, F>(mut op: F) -> (r: Result<T, String>)
    where F: FnMut() -> Result<T, String>,
    requires
        call_requires(op, ()),
    ensures
        exists|rs: Seq<Result<T, String>>| #[trigger] attempts_of(op, rs) && r == rs.last(),
{
    let ghost given = op;
    let mut result = op();
    let ghost mut rs = seq![result];
    let mut attempts: usize = 1;
    while try_again(attempts, &result)
        invariant
            op == given,
            call_requires(op, ()),
            1 <= attempts <= MAX_CONFLICT_RETRIES,
            rs.len() == attempts,
            rs.last() == result,
            forall|i: int| 0 <= i < rs.len() ==> call_ensures(op, (), #[trigger] rs[i]),
            forall|i: int| 0 <= i < rs.len() - 1 ==> goes_on(i + 1, #[trigger] rs[i]),
        decreases MAX_CONFLICT_RETRIES - attempts,
    {
        let ghost before = rs;
        result = op();
        proof {
            rs = before.push(result);
            assert forall|i: int| 0 <= i < rs.len() - 1 implies goes_on(i + 1, #[trigger] rs[i]) by {
                assert(rs[i] == before[i]);
            }
            assert forall|i: int| 0 <= i < rs.len() implies call_ensures(
                op,
                (),
                #[trigger] rs[i],
            ) by {
                if i < before.len() {
                    assert(rs[i] == before[i]);
                }
            }
        }
        attempts = attempts + 1;
    }
    assert(attempts_of(op, rs));
    result
}

/// The service refused a write because the document is at a later revision: its error holds
/// these words.
pub open spec fn refused<T>(r: Result<T, String>) -> bool {
    r matches Err(e) && exists|i: int|
        #[trigger] occurs_at(e@, "does not match the latest revision"@, i)
}

/// There is at least one attempt and there are no more than the limit.
pub proof fn law_attempts<T, F: FnMut() -> Result<T, String>>(op: F, rs: Seq<Result<T, String>>)
    requires
        attempts_of(op, rs),
    ensures
        1 <= rs.len() <= 5,
        1 <= rs.len() <= MAX_CONFLICT_RETRIES,
        // What was returned is no refusal, unless every attempt allowed was refused.
        is_conflict(rs.last()) ==> rs.len() == MAX_CONFLICT_RETRIES,
        refused(rs.last()) ==> rs.len() == 5,
        forall|i: int| 0 <= i < rs.len() - 1 ==> is_conflict(#[trigger] rs[i]),
        forall|i: int| 0 <= i < rs.len() - 1 ==> refused(#[trigger] rs[i]),
{
    reveal_strlit("does not match the latest revision");
    assert(CONFLICT_TEXT@ == "does not match the latest revision"@);
    assert forall|r: Result<T, String>| #[trigger] is_conflict(r) == refused(r) by {
        if let Err(e) = r {
            lemma_find_from(e@, CONFLICT_TEXT@, 0);
        }
    }
    assert forall|i: int| 0 <= i < rs.len() - 1 implies refused(#[trigger] rs[i]) by {
        assert(is_conflict(rs[i]));
    }
    if rs.len() > MAX_CONFLICT_RETRIES {
        let i = MAX_CONFLICT_RETRIES as int - 1;
        assert(goes_on(i + 1, rs[i]));
    }
}

} // verus!
