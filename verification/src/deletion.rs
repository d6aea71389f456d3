//! The batch report of a deletion pass.
//!
//! The matched roots are removed independently — by the calling program,
//! since removal is filesystem I/O — and each root's outcome is handed back
//! as a plain value. This module builds the aggregate report: per-root
//! outcomes in the order the roots were given, plus exact counts of
//! successes and failures, so that one root's failure never hides another's
//! result.

use vstd::prelude::*;

verus! {

/// The result of removing one matched root.
pub enum DeletionOutcome {
    /// The root and everything beneath it was removed.
    Removed,
    /// The root could not be removed; holds a description of the cause.
    Failed(String),
}

impl DeletionOutcome {
    /// True iff this outcome is a successful removal.
    pub open spec fn is_removed(self) -> bool {
        self is Removed
    }
}

/// How many of the first `k` outcomes are removals.
pub open spec fn count_removed_upto(s: Seq<DeletionOutcome>, k: int) -> int
    decreases k,
{
    if k <= 0 {
        0
    } else {
        count_removed_upto(s, k - 1) + if s[k - 1].is_removed() {
            1int
        } else {
            0int
        }
    }
}

/// How many outcomes are removals.
pub open spec fn count_removed(s: Seq<DeletionOutcome>) -> int {
    count_removed_upto(s, s.len() as int)
}

/// Aggregate result of one deletion batch.
pub struct BatchReport {
    /// Outcome of each root, in the order the roots were given.
    pub outcomes: Vec<DeletionOutcome>,
    /// Number of roots that were removed.
    pub removed: usize,
    /// Number of roots whose removal failed.
    pub failed: usize,
}

/// Builds the report of a deletion batch from the per-root outcomes: the
/// outcomes are kept as given, and the counts are exactly the number of
/// removals and of failures among them.
pub fn build_batch_report(outcomes: Vec<DeletionOutcome>) -> (r: BatchReport)
    ensures
        r.outcomes@ == outcomes@,
        r.removed == count_removed(outcomes@),
        r.failed == outcomes@.len() - count_removed(outcomes@),
        r.removed + r.failed == outcomes@.len(),
{
    let n = outcomes.len();
    let mut removed: usize = 0;
    let mut k: usize = 0;
    while k < n
        invariant
            n == outcomes@.len(),
            k <= n,
            removed <= k,
            removed == count_removed_upto(outcomes@, k as int),
        decreases n - k,
    {
        let is_ok = match &outcomes[k] {
            DeletionOutcome::Removed => true,
            DeletionOutcome::Failed(_) => false,
        };
        if is_ok {
            removed += 1;
        }
        k += 1;
    }
    let failed = n - removed;
    BatchReport { outcomes, removed, failed }
}

} // verus!
