//! User configuration of the patcher.

use vstd::prelude::*;

use crate::sync_strategy::SyncStrategy;

verus! {

/// The configuration: how `source sync` records the source branch.
#[derive(Debug, Clone, Copy, PartialEq, Eq, Structural)]
pub struct Config {
    pub sync_strategy: SyncStrategy,
}

impl Default for Config {
    fn default() -> (res: Config)
        ensures
            res.sync_strategy == SyncStrategy::Snapshot,
    {
        Config { sync_strategy: SyncStrategy::Snapshot }
    }
}

impl Config {
    /// The configuration read from a file, or the default one when no file
    /// was given.
    pub fn or_default(read: Option<Config>) -> (res: Config)
        ensures
            read matches Some(c) ==> res == c,
            read is None ==> res.sync_strategy == SyncStrategy::Snapshot,
    {
        match read {
            Some(c) => c,
            None => Config::default(),
        }
    }
}

} // verus!
