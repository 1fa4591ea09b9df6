//! The decisions of the patcher's commands: which commits `pop` turns into
//! patches and how they are numbered, whether a replayed commit kept its
//! hashes, which parent `patch get` diffs against, where `source sync`
//! writes, and how the outermost repository is found. The repository work
//! itself is done by the caller.

use vstd::prelude::*;

use crate::git::{canonical_object_id, object_id_text};
use crate::state::InternalState;
use crate::text::push_str;

verus! {

/// The commits that `pop` turns into patches: those of `walk` (newest
/// first, as a walk from the head gives them) before the first occurrence
/// of `target`, oldest first.
pub open spec fn is_export_list(walk: Seq<Seq<char>>, target: Seq<char>, list: Seq<Seq<char>>) -> bool {
    let k = list.len() as int;
    &&& k <= walk.len()
    &&& (k == walk.len() || walk[k] == target)
    &&& forall|i: int| 0 <= i < k ==> walk[i] != target
    &&& forall|i: int| 0 <= i < k ==> #[trigger] list[i] == walk[k - 1 - i]
}

/// The plan of a `pop`: the commits to write as patches, oldest first, the
/// number of the first new patch and the number of patches the series will
/// then hold.
pub struct PopPlan {
    pub commits: Vec<String>,
    pub first_index: usize,
    pub patch_count: usize,
}

/// Plans the export of the commits from the head down to (not including)
/// `target`, oldest first; the new patches are numbered on after the
/// `series_len` patches already in the series.
pub fn export_plan(walk: &Vec<String>, target: &String, series_len: usize) -> (res: PopPlan)
    requires
        walk@.len() + series_len <= usize::MAX,
    ensures
        is_export_list(
            walk@.map_values(|c: String| c@),
            target@,
            res.commits@.map_values(|c: String| c@),
        ),
        res.first_index == series_len,
        res.patch_count == res.commits@.len() + series_len,
{
    let ghost w = walk@.map_values(|c: String| c@);
    let mut k: usize = 0;
    while k < walk.len() && !string_eq(&walk[k], target)
        invariant
            0 <= k <= walk@.len(),
            w == walk@.map_values(|c: String| c@),
            forall|i: int| 0 <= i < k ==> w[i] != target@,
        decreases walk@.len() - k,
    {
        k = k + 1;
    }
    let mut commits: Vec<String> = Vec::new();
    let mut i: usize = k;
    while i > 0
        invariant
            0 <= i <= k <= walk@.len(),
            w == walk@.map_values(|c: String| c@),
            commits@.len() == k - i,
            forall|m: int| 0 <= m < k - i ==> #[trigger] commits@[m]@ == w[k - 1 - m],
        decreases i,
    {
        i = i - 1;
        commits.push(walk[i].clone());
    }
    let ghost list = commits@.map_values(|c: String| c@);
    assert forall|m: int| 0 <= m < k implies #[trigger] list[m] == w[k - 1 - m] by {
        assert(commits@[m]@ == w[k - 1 - m]);
    }
    let patch_count = k + series_len;
    PopPlan { commits, first_index: series_len, patch_count }
}

/// Whether two strings are equal.
fn string_eq(a: &String, b: &String) -> (res: bool)
    ensures
        res == (a@ == b@),
{
    *a == *b
}

/// The newest commit, the head, is the last patch `pop` writes; and no
/// commit before the target is the target itself.
pub proof fn lemma_export_list_ends_at_head(
    walk: Seq<Seq<char>>,
    target: Seq<char>,
    list: Seq<Seq<char>>,
)
    requires
        is_export_list(walk, target, list),
        list.len() > 0,
    ensures
        list.last() == walk[0],
        list[0] == walk[list.len() - 1],
        forall|i: int| 0 <= i < list.len() ==> list[i] != target,
{
    let k = list.len() as int;
    assert(list[k - 1] == walk[k - 1 - (k - 1)]);
    assert(list[0] == walk[k - 1]);
    assert forall|i: int| 0 <= i < list.len() implies list[i] != target by {
        assert(list[i] == walk[k - 1 - i]);
    }
}

/// The export list of a walk is unique.
pub proof fn lemma_export_list_unique(
    walk: Seq<Seq<char>>,
    target: Seq<char>,
    l1: Seq<Seq<char>>,
    l2: Seq<Seq<char>>,
)
    requires
        is_export_list(walk, target, l1),
        is_export_list(walk, target, l2),
    ensures
        l1 == l2,
{
    if l1.len() < l2.len() {
        assert(walk[l1.len() as int] != target);
        assert(l1.len() as int == walk.len() || walk[l1.len() as int] == target);
    } else if l2.len() < l1.len() {
        assert(walk[l2.len() as int] != target);
    }
    assert(l1.len() == l2.len());
    assert forall|i: int| 0 <= i < l1.len() implies l1[i] == l2[i] by {
        assert(l1[i] == walk[l1.len() - 1 - i]);
        assert(l2[i] == walk[l2.len() - 1 - i]);
    }
    assert(l1 =~= l2);
}

/// How a replayed commit compares with the hashes its patch recorded.
#[derive(Debug, PartialEq, Eq, Clone, Copy)]
pub enum HashCheck {
    /// Parent and commit are the ones the patch was made from.
    Match,
    /// The commit was replayed onto another parent, so its integrity cannot
    /// be vouched for.
    ParentMismatch,
    /// Same parent, but the commit differs: the patch was changed after it
    /// was made.
    CommitMismatch,
}

/// Compares a replayed commit and its parent with the hashes that its
/// patch recorded; a parent that differs is reported first.
pub fn check_hashes(parent: &String, parent_expected: &String, commit: &String, commit_expected: &String) -> (res: HashCheck)
    ensures
        res == check_hashes_spec(parent@, parent_expected@, commit@, commit_expected@),
        (res is ParentMismatch) <==> parent@ != parent_expected@,
        (res is CommitMismatch) <==> (parent@ == parent_expected@ && commit@ != commit_expected@),
        (res is Match) <==> (parent@ == parent_expected@ && commit@ == commit_expected@),
{
    proof {
        lemma_hash_check_meaning(parent@, parent_expected@, commit@, commit_expected@);
    }
    if !string_eq(parent, parent_expected) {
        HashCheck::ParentMismatch
    } else if !string_eq(commit, commit_expected) {
        HashCheck::CommitMismatch
    } else {
        HashCheck::Match
    }
}

/// The parent that `patch get` diffs a commit against.
#[derive(Debug, PartialEq, Eq, Clone)]
pub enum ParentChoice {
    /// The parent named on the command line.
    Given(String),
    /// The commit's only parent.
    OnlyParent,
}

/// Why no parent could be chosen.
#[derive(Debug, PartialEq, Eq, Clone, Copy)]
pub enum ParentError {
    /// The commit has no parent.
    NoParent,
    /// The commit has several parents and none was named.
    MultipleParents,
}

/// Chooses the parent to diff against: the one given, else the commit's
/// only parent; a root commit, or a merge with no parent given, is refused.
pub fn choose_parent(given: Option<String>, parent_count: usize) -> (res: Result<ParentChoice, ParentError>)
    ensures
        given matches Some(p) ==> (res matches Ok(ParentChoice::Given(q)) && q == p),
        given is None && parent_count == 0 ==> res == Err::<ParentChoice, ParentError>(
            ParentError::NoParent,
        ),
        given is None && parent_count == 1 ==> res == Ok::<ParentChoice, ParentError>(
            ParentChoice::OnlyParent,
        ),
        given is None && parent_count > 1 ==> res == Err::<ParentChoice, ParentError>(
            ParentError::MultipleParents,
        ),
{
    match given {
        Some(p) => Ok(ParentChoice::Given(p)),
        None => if parent_count == 0 {
            Err(ParentError::NoParent)
        } else if parent_count == 1 {
            Ok(ParentChoice::OnlyParent)
        } else {
            Err(ParentError::MultipleParents)
        },
    }
}

/// The full reference of a local branch.
pub fn branch_ref(branch_name: &str) -> (res: String)
    ensures
        res@ == "refs/heads/"@ + branch_name@,
{
    let mut out = String::new();
    push_str(&mut out, "refs/heads/");
    push_str(&mut out, branch_name);
    out
}

/// The message of a snapshot commit taken while the root repository is at
/// `head`.
pub fn snapshot_message(head: &str) -> (res: String)
    ensures
        res@ == "snapshot for "@ + head@,
{
    let mut out = String::new();
    push_str(&mut out, "snapshot for ");
    push_str(&mut out, head);
    out
}

/// One step of the search for the outermost repository.
#[derive(Debug, PartialEq, Eq, Clone)]
pub enum RootStep {
    /// The start lies in no repository.
    NotFound,
    /// The working directory found is the outermost one.
    Found(String),
    /// The working directory lies inside another repository: search again
    /// from its parent directory.
    Climb(String),
}

/// Decides one step of the search: `workdir` is the working directory of
/// the repository found from the current start (`None` when there is
/// none), `parent` its parent directory, and `parent_in_repo` whether a
/// repository is found from that parent.
pub fn root_search_step(workdir: Option<String>, parent: Option<String>, parent_in_repo: bool) -> (res: RootStep)
    ensures
        workdir is None ==> res == RootStep::NotFound,
        workdir matches Some(w) ==> match parent {
            Some(p) => if parent_in_repo {
                res == RootStep::Climb(p)
            } else {
                res == RootStep::Found(w)
            },
            None => res == RootStep::Found(w),
        },
{
    match workdir {
        None => RootStep::NotFound,
        Some(w) => match parent {
            Some(p) => if parent_in_repo {
                RootStep::Climb(p)
            } else {
                RootStep::Found(w)
            },
            None => RootStep::Found(w),
        },
    }
}

/// The progress of a `push`: how many patches were applied so far.
pub struct PushProgress {
    applied: usize,
}

impl PushProgress {
    /// The number of patches applied so far.
    pub closed spec fn applied_count(&self) -> nat {
        self.applied as nat
    }

    /// A `push` that has applied nothing yet.
    pub fn new() -> (res: PushProgress)
        ensures
            res.applied_count() == 0,
    {
        PushProgress { applied: 0 }
    }

    /// Records a patch replayed as a commit and compares the commit with the
    /// hashes its patch recorded.
    pub fn patch_applied(
        &mut self,
        parent: &String,
        parent_expected: &String,
        commit: &String,
        commit_expected: &String,
    ) -> (res: HashCheck)
        requires
            old(self).applied_count() < usize::MAX,
        ensures
            final(self).applied_count() == old(self).applied_count() + 1,
            res == check_hashes_spec(parent@, parent_expected@, commit@, commit_expected@),
            (res is ParentMismatch) <==> parent@ != parent_expected@,
            (res is CommitMismatch) <==> (parent@ == parent_expected@ && commit@
                != commit_expected@),
            (res is Match) <==> (parent@ == parent_expected@ && commit@ == commit_expected@),
    {
        self.applied = self.applied + 1;
        check_hashes(parent, parent_expected, commit, commit_expected)
    }

    /// The number of patches applied so far.
    pub fn applied(&self) -> (res: usize)
        ensures
            res == self.applied_count(),
    {
        self.applied
    }

    /// Whether the series and the working tree must be written after the
    /// `push`: exactly when some patch was applied.
    pub fn needs_write(&self) -> (res: bool)
        ensures
            res == (self.applied_count() > 0),
    {
        self.applied > 0
    }
}

/// The outcome of comparing a replayed commit with its recorded hashes.
pub open spec fn check_hashes_spec(
    parent: Seq<char>,
    parent_expected: Seq<char>,
    commit: Seq<char>,
    commit_expected: Seq<char>,
) -> HashCheck {
    if parent != parent_expected {
        HashCheck::ParentMismatch
    } else if commit != commit_expected {
        HashCheck::CommitMismatch
    } else {
        HashCheck::Match
    }
}

/// A replayed commit matches its patch exactly when both its parent and
/// itself are, character for character, the ones the patch recorded; a
/// parent that differs anywhere is reported first, and a commit that differs
/// anywhere on the recorded parent is reported next.
pub proof fn lemma_hash_check_meaning(
    parent: Seq<char>,
    parent_expected: Seq<char>,
    commit: Seq<char>,
    commit_expected: Seq<char>,
)
    ensures
        (check_hashes_spec(parent, parent_expected, commit, commit_expected) is ParentMismatch)
            <==> parent != parent_expected,
        (check_hashes_spec(parent, parent_expected, commit, commit_expected) is CommitMismatch)
            <==> (parent == parent_expected && commit != commit_expected),
        (check_hashes_spec(parent, parent_expected, commit, commit_expected) is Match) <==> (parent
            == parent_expected && commit == commit_expected),
{
}

/// Why a `pop` cannot be planned.
#[derive(Debug)]
pub enum PopError {
    /// `push` recorded no revision to go back to.
    NoTargetRevision,
    /// The recorded revision is not an object id.
    InvalidRevision(git2::Error),
}

/// The revision that `pop` goes back to, read from the saved state as an
/// object id and given in canonical form (forty lower-case hexadecimal
/// digits), as the walk from the head names commits.
pub fn pop_target_id(state: &InternalState) -> (res: Result<String, PopError>)
    ensures
        match state.target() {
            None => res matches Err(PopError::NoTargetRevision),
            Some(t) => match object_id_text(t) {
                None => res matches Err(PopError::InvalidRevision(_)),
                Some(h) => res matches Ok(id) && id@ == h,
            },
        },
{
    let target = match state.pop_target() {
        Ok(t) => t,
        Err(_) => return Err(PopError::NoTargetRevision),
    };
    match canonical_object_id(target.as_str()) {
        Ok(h) => Ok(h),
        Err(e) => Err(PopError::InvalidRevision(e)),
    }
}

} // verus!
