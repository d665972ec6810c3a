//! What is to run once a write transaction was committed.

use vstd::prelude::*;

verus! {

/// What is to run after a write transaction was committed, and only if it
/// was: the changes to the cache of nodes become visible, and the blocks
/// that the transaction removed are no longer tracked for expiration.
#[derive(Clone, Copy, Debug, PartialEq, Eq, Structural)]
pub struct CommitPlan {
    /// Whether anything is to run at all: if not, the commit needs no hook.
    pub needs_hook: bool,
    /// Whether to commit the cache.
    pub commit_cache: bool,
    /// Whether to stop tracking the removed blocks.
    pub untrack_blocks: bool,
}

/// The plan for a commit, given whether the cache was changed and
/// whether blocks were removed, and whether the caller has something to
/// run after the commit as well.
pub fn plan_commit(cache_dirty: bool, has_untracked_blocks: bool, has_then: bool) -> (plan:
    CommitPlan)
    ensures
        plan == (CommitPlan {
            needs_hook: cache_dirty || has_untracked_blocks || has_then,
            commit_cache: cache_dirty,
            untrack_blocks: has_untracked_blocks,
        }),
{
    match (cache_dirty, has_untracked_blocks) {
        (true, true) => CommitPlan { needs_hook: true, commit_cache: true, untrack_blocks: true },
        (false, true) => CommitPlan { needs_hook: true, commit_cache: false, untrack_blocks: true },
        (true, false) => CommitPlan { needs_hook: true, commit_cache: true, untrack_blocks: false },
        (false, false) => CommitPlan {
            needs_hook: has_then,
            commit_cache: false,
            untrack_blocks: false,
        },
    }
}

} // verus!
