use git_patcher::config::Config;
use git_patcher::patcher::{
    branch_ref, check_hashes, choose_parent, export_plan, pop_target_id, root_search_step,
    snapshot_message, HashCheck, ParentChoice, ParentError, PopError, PushProgress, RootStep,
};
use git_patcher::state::{InternalState, StateError};
use git_patcher::sync_strategy::{SyncStrategy, UnknownStrategy};

fn strings(v: &[&str]) -> Vec<String> {
    v.iter().map(|s| s.to_string()).collect()
}

#[test]
fn branch_names() {
    assert_eq!(SyncStrategy::Snapshot.get_branch_name(), "git-patcher/snapshot");
    assert_eq!(SyncStrategy::Reconstruct.get_branch_name(), "git-patcher/reconstructed");
}

#[test]
fn default_strategy_is_snapshot() {
    assert_eq!(SyncStrategy::default(), SyncStrategy::Snapshot);
    assert_eq!(Config::default().sync_strategy, SyncStrategy::Snapshot);
    assert_eq!(Config::or_default(None).sync_strategy, SyncStrategy::Snapshot);
    let c = Config { sync_strategy: SyncStrategy::Reconstruct };
    assert_eq!(Config::or_default(Some(c)), c);
}

#[test]
fn strategy_names() {
    assert_eq!(SyncStrategy::from_name("snapshot"), Ok(SyncStrategy::Snapshot));
    assert_eq!(SyncStrategy::from_name("reconstruct"), Ok(SyncStrategy::Reconstruct));
    assert_eq!(SyncStrategy::from_name("Snapshot"), Err(UnknownStrategy));
    assert_eq!(SyncStrategy::from_name(""), Err(UnknownStrategy));
    assert_eq!("reconstruct".parse::<SyncStrategy>(), Ok(SyncStrategy::Reconstruct));
    assert_eq!(SyncStrategy::Reconstruct.name(), "reconstruct");
    for s in [SyncStrategy::Snapshot, SyncStrategy::Reconstruct] {
        assert_eq!(SyncStrategy::from_name(s.name()), Ok(s));
    }
}

#[test]
fn state_push_pop_cycle() {
    let mut st = InternalState::new("/r/.git-patcher".to_string());
    assert_eq!(st.pop_target().err(), Some(StateError::NoTargetRevision));
    assert_eq!(st.save_dir().unwrap(), "/r/.git-patcher");
    st.record_target("abc".to_string());
    assert_eq!(st.pop_target().unwrap(), "abc");
    assert_eq!(st.target_revision(), Some(&"abc".to_string()));
    st.clear_target();
    assert_eq!(st.pop_target().err(), Some(StateError::NoTargetRevision));
    assert_eq!(st.save_dir().unwrap(), "/r/.git-patcher");
    let back = InternalState::restored(Some("def".to_string()), "/s".to_string());
    assert_eq!(back.pop_target().unwrap(), "def");
    assert_eq!(back.save_dir().unwrap(), "/s");
}

#[test]
fn pop_plan_exports_oldest_first() {
    let walk = strings(&["c3", "c2", "c1", "base", "c0"]);
    let plan = export_plan(&walk, &"base".to_string(), 2);
    assert_eq!(plan.commits, strings(&["c1", "c2", "c3"]));
    assert_eq!(plan.first_index, 2);
    assert_eq!(plan.patch_count, 5);
}

#[test]
fn pop_plan_when_head_is_target() {
    let walk = strings(&["base", "c0"]);
    let plan = export_plan(&walk, &"base".to_string(), 0);
    assert!(plan.commits.is_empty());
    assert_eq!(plan.patch_count, 0);
}

#[test]
fn pop_plan_without_target_in_walk_takes_all() {
    let walk = strings(&["b", "a"]);
    let plan = export_plan(&walk, &"zz".to_string(), 1);
    assert_eq!(plan.commits, strings(&["a", "b"]));
    assert_eq!(plan.patch_count, 3);
}

#[test]
fn hash_checks() {
    let (p, q, c, d) = ("p".to_string(), "q".to_string(), "c".to_string(), "d".to_string());
    assert_eq!(check_hashes(&p, &p, &c, &c), HashCheck::Match);
    assert_eq!(check_hashes(&p, &p, &c, &d), HashCheck::CommitMismatch);
    assert_eq!(check_hashes(&p, &q, &c, &d), HashCheck::ParentMismatch);
    assert_eq!(check_hashes(&p, &q, &c, &c), HashCheck::ParentMismatch);
}

#[test]
fn parent_choice() {
    assert_eq!(choose_parent(Some("x".to_string()), 0), Ok(ParentChoice::Given("x".to_string())));
    assert_eq!(choose_parent(None, 0), Err(ParentError::NoParent));
    assert_eq!(choose_parent(None, 1), Ok(ParentChoice::OnlyParent));
    assert_eq!(choose_parent(None, 2), Err(ParentError::MultipleParents));
}

#[test]
fn refs_and_messages() {
    assert_eq!(branch_ref("git-patcher/snapshot"), "refs/heads/git-patcher/snapshot");
    assert_eq!(snapshot_message("abc123"), "snapshot for abc123");
}

#[test]
fn root_search_steps() {
    assert_eq!(root_search_step(None, None, false), RootStep::NotFound);
    assert_eq!(
        root_search_step(Some("/a/b/".to_string()), Some("/a".to_string()), true),
        RootStep::Climb("/a".to_string())
    );
    assert_eq!(
        root_search_step(Some("/a/b/".to_string()), Some("/a".to_string()), false),
        RootStep::Found("/a/b/".to_string())
    );
    assert_eq!(
        root_search_step(Some("/".to_string()), None, true),
        RootStep::Found("/".to_string())
    );
}

#[test]
fn pop_target_is_read_as_an_object_id() {
    let mut st = InternalState::new("/s".to_string());
    assert!(matches!(pop_target_id(&st), Err(PopError::NoTargetRevision)));
    st.record_target("0123456789ABCDEF0123456789abcdef01234567".to_string());
    assert_eq!(pop_target_id(&st).unwrap(), "0123456789abcdef0123456789abcdef01234567");
    st.record_target("abc".to_string());
    assert_eq!(pop_target_id(&st).unwrap(), "abc0000000000000000000000000000000000000");
    for bad in ["", "xyz", "0123456789abcdef0123456789abcdef012345678"] {
        st.record_target(bad.to_string());
        assert!(matches!(pop_target_id(&st), Err(PopError::InvalidRevision(_))), "{:?}", bad);
    }
}

#[test]
fn push_progress_counts_applied_patches() {
    let mut p = PushProgress::new();
    assert!(!p.needs_write());
    let (a, b) = ("a".to_string(), "b".to_string());
    assert_eq!(p.patch_applied(&a, &a, &b, &b), HashCheck::Match);
    assert_eq!(p.patch_applied(&a, &b, &b, &b), HashCheck::ParentMismatch);
    assert_eq!(p.applied(), 2);
    assert!(p.needs_write());
}
