//! How the source branch is brought up to date with upstream and the
//! patches.

use vstd::prelude::*;

use crate::text::chars_of;

verus! {

/// The two ways of recording upstream plus the patches on a branch.
#[derive(Debug, Clone, Copy, PartialEq, Eq, Structural)]
pub enum SyncStrategy {
    /// Sync by creating a new commit using the tree of the new source.
    /// This records the current state as a single update, extending the
    /// history without modifying past commits.
    Snapshot,
    /// Sync by fetching the upstream repository and replaying the patches
    /// to reconstruct the commit history. Requires a force push if the
    /// existing history is modified.
    Reconstruct,
}

/// The branch that each strategy writes to.
pub open spec fn branch_name(strategy: SyncStrategy) -> Seq<char> {
    match strategy {
        SyncStrategy::Snapshot => "git-patcher/snapshot"@,
        SyncStrategy::Reconstruct => "git-patcher/reconstructed"@,
    }
}

/// The lower-case name of each strategy.
pub open spec fn strategy_name(strategy: SyncStrategy) -> Seq<char> {
    match strategy {
        SyncStrategy::Snapshot => "snapshot"@,
        SyncStrategy::Reconstruct => "reconstruct"@,
    }
}

/// The strategy with lower-case name `name`, if any.
pub open spec fn strategy_of_name(name: Seq<char>) -> Option<SyncStrategy> {
    if name == strategy_name(SyncStrategy::Snapshot) {
        Some(SyncStrategy::Snapshot)
    } else if name == strategy_name(SyncStrategy::Reconstruct) {
        Some(SyncStrategy::Reconstruct)
    } else {
        None
    }
}

/// Reading the lower-case name of a strategy gives the strategy back.
pub proof fn lemma_strategy_name_roundtrip(strategy: SyncStrategy)
    ensures
        strategy_of_name(strategy_name(strategy)) == Some(strategy),
{
    reveal_strlit("snapshot");
    reveal_strlit("reconstruct");
    assert("snapshot"@.len() != "reconstruct"@.len());
}

/// A name that is not the lower-case name of a strategy.
#[derive(Debug, PartialEq, Eq, Clone, Copy)]
pub struct UnknownStrategy;

impl Default for SyncStrategy {
    fn default() -> (res: SyncStrategy)
        ensures
            res == SyncStrategy::Snapshot,
    {
        SyncStrategy::Snapshot
    }
}

/// Whether two character vectors hold the same characters.
fn same_chars(a: &Vec<char>, b: &Vec<char>) -> (res: bool)
    ensures
        res == (a@ == b@),
{
    if a.len() != b.len() {
        return false;
    }
    let mut i: usize = 0;
    while i < a.len()
        invariant
            a@.len() == b@.len(),
            0 <= i <= a@.len(),
            forall|k: int| 0 <= k < i ==> a@[k] == b@[k],
        decreases a@.len() - i,
    {
        if a[i] != b[i] {
            return false;
        }
        i = i + 1;
    }
    assert(a@ =~= b@);
    true
}

impl SyncStrategy {
    /// The branch that this strategy writes to.
    pub fn get_branch_name(&self) -> (res: &'static str)
        ensures
            res@ == branch_name(*self),
    {
        match self {
            SyncStrategy::Snapshot => "git-patcher/snapshot",
            SyncStrategy::Reconstruct => "git-patcher/reconstructed",
        }
    }

    /// The strategy with this lower-case name.
    pub fn from_name(name: &str) -> (res: Result<SyncStrategy, UnknownStrategy>)
        ensures
            match strategy_of_name(name@) {
                Some(s) => res == Ok::<SyncStrategy, UnknownStrategy>(s),
                None => res == Err::<SyncStrategy, UnknownStrategy>(UnknownStrategy),
            },
    {
        proof {
            reveal_strlit("snapshot");
            reveal_strlit("reconstruct");
            assert("snapshot"@.len() != "reconstruct"@.len());
        }
        let v = chars_of(name);
        if same_chars(&v, &chars_of("snapshot")) {
            Ok(SyncStrategy::Snapshot)
        } else if same_chars(&v, &chars_of("reconstruct")) {
            Ok(SyncStrategy::Reconstruct)
        } else {
            Err(UnknownStrategy)
        }
    }

    /// The lower-case name of the strategy.
    pub fn name(&self) -> (res: &'static str)
        ensures
            res@ == strategy_name(*self),
    {
        match self {
            SyncStrategy::Snapshot => "snapshot",
            SyncStrategy::Reconstruct => "reconstruct",
        }
    }
}

impl std::str::FromStr for SyncStrategy {
    type Err = UnknownStrategy;

    fn from_str(s: &str) -> (res: Result<SyncStrategy, UnknownStrategy>)
        ensures
            match strategy_of_name(s@) {
                Some(st) => res == Ok::<SyncStrategy, UnknownStrategy>(st),
                None => res == Err::<SyncStrategy, UnknownStrategy>(UnknownStrategy),
            },
    {
        SyncStrategy::from_name(s)
    }
}

} // verus!
