//! The patcher's own state, kept between runs: the upstream revision that
//! the patches were last pushed onto.

use vstd::prelude::*;

verus! {

/// The saved state and the directory it is saved in.
pub struct InternalState {
    /// The upstream revision that `push` applied the patches onto, until
    /// `pop` takes them off again.
    pub target_revision: Option<String>,
    path: Option<String>,
}

/// Why a state operation failed.
#[derive(Debug, PartialEq, Eq, Clone, Copy)]
pub enum StateError {
    /// The state has no directory to be saved in.
    PathNotSet,
    /// `pop` needs the revision that `push` recorded, and there is none.
    NoTargetRevision,
}

/// What `pop_target` gives for a recorded revision.
pub open spec fn pop_result(target: Option<Seq<char>>) -> Result<Seq<char>, StateError> {
    match target {
        Some(t) => Ok(t),
        None => Err(StateError::NoTargetRevision),
    }
}

impl InternalState {
    /// The recorded revision.
    pub closed spec fn target(&self) -> Option<Seq<char>> {
        match self.target_revision {
            Some(t) => Some(t@),
            None => None,
        }
    }

    /// The directory the state is saved in, if any.
    pub closed spec fn dir(&self) -> Option<Seq<char>> {
        match self.path {
            Some(p) => Some(p@),
            None => None,
        }
    }

    /// A fresh state, saved in `path`, with no recorded revision.
    pub fn new(path: String) -> (res: InternalState)
        ensures
            res.target() is None,
            res.dir() == Some(path@),
    {
        InternalState { target_revision: None, path: Some(path) }
    }

    /// A state read back from disk: the saved revision, and the directory
    /// it was read from.
    pub fn restored(target_revision: Option<String>, path: String) -> (res: InternalState)
        ensures
            res.target() == (match target_revision {
                Some(t) => Some(t@),
                None => None,
            }),
            res.dir() == Some(path@),
    {
        InternalState { target_revision, path: Some(path) }
    }

    /// The directory to save the state in.
    pub fn save_dir(&self) -> (res: Result<&String, StateError>)
        ensures
            match self.dir() {
                Some(p) => res matches Ok(q) && q@ == p,
                None => res == Err::<&String, StateError>(StateError::PathNotSet),
            },
    {
        match &self.path {
            Some(p) => Ok(p),
            None => Err(StateError::PathNotSet),
        }
    }

    /// The recorded revision, as saved: `None` when there is none.
    pub fn target_revision(&self) -> (res: Option<&String>)
        ensures
            match self.target() {
                Some(t) => res matches Some(q) && q@ == t,
                None => res is None,
            },
    {
        match &self.target_revision {
            Some(t) => Some(t),
            None => None,
        }
    }

    /// Records the upstream revision that the patches are pushed onto.
    pub fn record_target(&mut self, revision: String)
        ensures
            final(self).target() == Some(revision@),
            final(self).dir() == old(self).dir(),
    {
        self.target_revision = Some(revision);
    }

    /// The recorded revision that `pop` goes back to; `pop` cannot run
    /// without one.
    pub fn pop_target(&self) -> (res: Result<&String, StateError>)
        ensures
            match pop_result(self.target()) {
                Ok(t) => res matches Ok(q) && q@ == t,
                Err(e) => res == Err::<&String, StateError>(e),
            },
    {
        match &self.target_revision {
            Some(t) => Ok(t),
            None => Err(StateError::NoTargetRevision),
        }
    }

    /// Forgets the recorded revision once the patches are popped.
    pub fn clear_target(&mut self)
        ensures
            final(self).target() is None,
            final(self).dir() == old(self).dir(),
    {
        self.target_revision = None;
    }
}

/// A revision that `record_target` recorded is what `pop_target` gives;
/// once `clear_target` has run, `pop_target` is refused.
pub proof fn lemma_record_then_pop(recorded: InternalState, cleared: InternalState, revision: Seq<char>)
    requires
        recorded.target() == Some(revision),
        cleared.target() is None,
    ensures
        pop_result(recorded.target()) == Ok::<Seq<char>, StateError>(revision),
        pop_result(cleared.target()) == Err::<Seq<char>, StateError>(StateError::NoTargetRevision),
{
}

} // verus!
