use lazydot::args::DisableLinkArgs;
use lazydot::config::{Config, Defaults, DuplicateBehavior, OnDelinkBehavior};
use lazydot::engine::{
    classify_link, resolve_conflict, selection_choices, DelinkOutcome, DotManager, FsOp,
    LinkHealth, LinkOutcome, PairProbe,
};
use lazydot::state::CurrentState;

const HOME: &str = "/home/tester";
const H: &str = "/home/tester/.bashrc";
const D: &str = "/home/tester/mydotfolder/.bashrc";

fn strings(v: &[&str]) -> Vec<String> {
    v.iter().map(|s| s.to_string()).collect()
}

fn manager(on_duplicate: DuplicateBehavior, on_delink: OnDelinkBehavior, paths: &[&str], snapshot: &[&str]) -> DotManager {
    let config = Config {
        defaults: Defaults { on_duplicate, on_delink },
        dotfolder_path: "~/mydotfolder".to_string(),
        paths: strings(paths),
    };
    DotManager::new(config, CurrentState { paths: strings(snapshot) }, HOME.to_string(), HOME.to_string())
}

fn probe(home_is_symlink: bool, home_exists: bool, dot_exists: bool, home_resolves_to_dot: bool) -> PairProbe {
    PairProbe {
        home_is_symlink,
        home_exists,
        home_is_dir: false,
        dot_exists,
        dot_is_dir: false,
        home_resolves_to_dot,
    }
}

fn rm(p: &str) -> FsOp {
    FsOp::RemoveEntry { path: p.to_string() }
}

fn cp(from: &str, to: &str) -> FsOp {
    FsOp::CopyAll { from: from.to_string(), to: to.to_string() }
}

fn ln(target: &str, link: &str) -> FsOp {
    FsOp::Symlink { target: target.to_string(), link: link.to_string() }
}

const BOTH_PLAIN: (bool, bool, bool, bool) = (false, true, true, false);
const LINKED: (bool, bool, bool, bool) = (true, true, true, true);

fn from_flags(t: (bool, bool, bool, bool)) -> PairProbe {
    probe(t.0, t.1, t.2, t.3)
}

#[test]
fn test_delink() {}

#[test]
fn test_sync_with_default_behavior() {
    let m = manager(DuplicateBehavior::Ask, OnDelinkBehavior::Remove, &["~/.bashrc"], &[]);
    let (h, d) = m.pair_for("~/.bashrc").unwrap();
    assert_eq!((h.as_str(), d.as_str()), (H, D));
    let first = m.plan_link(H, D, probe(false, true, false, false));
    assert_eq!(first.outcome, LinkOutcome::Linked);
    assert_eq!(first.ops, vec![cp(H, D), rm(H), ln(D, H)]);
    let plan = m.plan_link(H, D, from_flags(BOTH_PLAIN));
    assert_eq!(plan.outcome, LinkOutcome::Deferred);
    assert!(plan.ops.is_empty());
}

#[test]
fn test_resync_with_overwrite_home() {
    let m = manager(DuplicateBehavior::OverwriteHome, OnDelinkBehavior::Remove, &["~/.bashrc"], &[]);
    let plan = m.plan_link(H, D, from_flags(BOTH_PLAIN));
    assert_eq!(plan.outcome, LinkOutcome::Linked);
    assert_eq!(plan.ops, vec![rm(H), ln(D, H)]);
    assert!(!plan.ops.iter().any(|op| matches!(op, FsOp::Rename { .. })));
}

#[test]
fn test_resync_with_overwrite_dotfolder() {
    let m = manager(DuplicateBehavior::OverwriteDotfile, OnDelinkBehavior::Keep, &["~/.bashrc"], &[]);
    let plan = m.plan_link(H, D, from_flags(BOTH_PLAIN));
    assert_eq!(plan.outcome, LinkOutcome::Linked);
    assert_eq!(plan.ops, vec![rm(D), cp(H, D), rm(H), ln(D, H)]);
}

#[test]
fn test_sync_with_skip() {
    let m = manager(DuplicateBehavior::Skip, OnDelinkBehavior::Remove, &["~/.bashrc"], &[]);
    let plan = m.plan_link(H, D, from_flags(BOTH_PLAIN));
    assert_eq!(plan.outcome, LinkOutcome::Skipped);
    assert!(plan.ops.is_empty());
}

#[test]
fn backup_home_scenario() {
    let m = manager(DuplicateBehavior::BackupHome, OnDelinkBehavior::Remove, &["~/.bashrc"], &[]);
    let plan = m.plan_link(H, D, from_flags(BOTH_PLAIN));
    assert_eq!(plan.outcome, LinkOutcome::Linked);
    assert_eq!(
        plan.ops,
        vec![
            FsOp::Rename { from: H.to_string(), to: "/home/tester/.bashrc.bak".to_string() },
            ln(D, H)
        ]
    );
}

#[test]
fn linked_path_is_left_alone_under_every_policy() {
    for policy in [
        DuplicateBehavior::Ask,
        DuplicateBehavior::OverwriteHome,
        DuplicateBehavior::OverwriteDotfile,
        DuplicateBehavior::BackupHome,
        DuplicateBehavior::Skip,
    ] {
        let m = manager(policy, OnDelinkBehavior::Remove, &["~/.bashrc"], &[]);
        let plan = m.plan_link(H, D, from_flags(LINKED));
        assert_eq!(plan.outcome, LinkOutcome::AlreadyLinked);
        assert!(plan.ops.is_empty());
    }
}

#[test]
fn test_delink_removes_symlinks_with_default_behavior_remove() {
    let m = manager(DuplicateBehavior::Ask, OnDelinkBehavior::Remove, &["~/.bashrc"], &[]);
    let plan = m.plan_delink(H, D, from_flags(LINKED));
    assert_eq!(plan.outcome, DelinkOutcome::Restored);
    assert_eq!(plan.ops, vec![rm(H), cp(D, H), rm(D)]);
}

#[test]
fn test_delink_removes_symlinks_with_default_behavior_keep() {
    let m = manager(DuplicateBehavior::Ask, OnDelinkBehavior::Keep, &["~/.bashrc"], &[]);
    let plan = m.plan_delink(H, D, from_flags(LINKED));
    assert_eq!(plan.outcome, DelinkOutcome::Restored);
    assert_eq!(plan.ops, vec![rm(H), cp(D, H)]);
}

#[test]
fn delink_skips_what_it_cannot_restore() {
    let m = manager(DuplicateBehavior::Ask, OnDelinkBehavior::Remove, &["~/.bashrc"], &[]);
    assert_eq!(m.plan_delink(H, D, from_flags(BOTH_PLAIN)).outcome, DelinkOutcome::NotSymlink);
    assert_eq!(m.plan_delink(H, D, probe(true, false, false, false)).outcome, DelinkOutcome::MissingInDotfolder);
    let foreign = m.plan_delink(H, D, probe(true, true, true, false));
    assert_eq!(foreign.outcome, DelinkOutcome::ForeignLink);
    assert!(foreign.ops.is_empty());
}

#[test]
fn test_resync_with_deleted_symlinks() {
    let m = manager(DuplicateBehavior::Ask, OnDelinkBehavior::Remove, &["~/.bashrc"], &["~/.bashrc"]);
    let delink = m.plan_delink(H, D, probe(false, false, true, false));
    assert_eq!(delink.outcome, DelinkOutcome::NotSymlink);
    let plan = m.plan_link(H, D, probe(false, false, true, false));
    assert_eq!(plan.outcome, LinkOutcome::Linked);
    assert_eq!(plan.ops, vec![ln(D, H)]);
}

#[test]
fn test_resync_with_existing_broken_symlinks() {
    let m = manager(DuplicateBehavior::Ask, OnDelinkBehavior::Remove, &["~/.bashrc"], &[]);
    let plan = m.plan_link(H, D, probe(true, false, true, false));
    assert_eq!(plan.outcome, LinkOutcome::Linked);
    assert_eq!(plan.ops, vec![rm(H), ln(D, H)]);
    let gone = m.plan_link(H, D, probe(true, false, false, false));
    assert_eq!(gone.outcome, LinkOutcome::Missing);
    assert_eq!(gone.ops, vec![rm(H)]);
}

#[test]
fn missing_everywhere_is_only_reported() {
    let m = manager(DuplicateBehavior::OverwriteHome, OnDelinkBehavior::Remove, &["~/.bashrc"], &[]);
    let plan = m.plan_link(H, D, probe(false, false, false, false));
    assert_eq!(plan.outcome, LinkOutcome::Missing);
    assert!(plan.ops.is_empty());
}

#[test]
fn test_resync_after_editing_the_config() {
    let m = manager(
        DuplicateBehavior::Ask,
        OnDelinkBehavior::Remove,
        &["~/.config/app1"],
        &["~/.bashrc", "~/.config/app1"],
    );
    assert_eq!(m.paths_to_unlink(), vec!["~/.bashrc"]);
    let (added, removed) = m.status();
    assert!(added.is_empty());
    assert_eq!(removed, vec!["~/.bashrc"]);
}

#[test]
fn removal_reconciliation_by_policy() {
    let remove = manager(DuplicateBehavior::Ask, OnDelinkBehavior::Remove, &["~/a"], &["~/a", "~/.bashrc"]);
    assert_eq!(remove.paths_to_unlink(), vec!["~/.bashrc"]);
    assert_eq!(remove.plan_delink(H, D, from_flags(LINKED)).ops, vec![rm(H), cp(D, H), rm(D)]);
    let keep = manager(DuplicateBehavior::Ask, OnDelinkBehavior::Keep, &["~/a"], &["~/a", "~/.bashrc"]);
    assert_eq!(keep.plan_delink(H, D, from_flags(LINKED)).ops, vec![rm(H), cp(D, H)]);
}

#[test]
fn test_multiple_sync_and_delink_cycles() {
    let m = manager(DuplicateBehavior::OverwriteHome, OnDelinkBehavior::Keep, &["~/.bashrc"], &["~/.bashrc"]);
    for _ in 0..4 {
        assert!(m.paths_to_unlink().is_empty());
        let delink = m.plan_delink(H, D, from_flags(LINKED));
        assert_eq!(delink.ops, vec![rm(H), cp(D, H)]);
        let relink = m.plan_link(H, D, from_flags(BOTH_PLAIN));
        assert_eq!(relink.ops, vec![rm(H), ln(D, H)]);
    }
}

#[test]
fn status_lists_pending_changes_in_order() {
    let m = manager(DuplicateBehavior::Ask, OnDelinkBehavior::Remove, &["~/b", "~/c", "~/a"], &["~/a", "~/d"]);
    let (added, removed) = m.status();
    assert_eq!(added, vec!["~/b", "~/c"]);
    assert_eq!(removed, vec!["~/d"]);
    assert_eq!(DotManager::find_paths_to_be_added(&strings(&["~/x"]), &strings(&["~/x"])), Vec::<String>::new());
}

#[test]
fn clean_targets_all_or_given() {
    let m = manager(DuplicateBehavior::Ask, OnDelinkBehavior::Remove, &["~/a", "~/b"], &[]);
    let all = DisableLinkArgs { all: true, paths: vec![] };
    assert_eq!(m.clean_targets(&all), vec!["~/a", "~/b"]);
    let some = DisableLinkArgs { all: false, paths: strings(&["~/b"]) };
    assert_eq!(m.clean_targets(&some), vec!["~/b"]);
}

#[test]
fn selection_with_all_sentinel() {
    assert_eq!(selection_choices(3, &vec![0]), vec![true, true, true]);
    assert_eq!(selection_choices(3, &vec![0, 2]), vec![true, true, true]);
    assert_eq!(selection_choices(3, &vec![1, 3]), vec![true, false, true]);
    assert_eq!(selection_choices(2, &vec![]), vec![false, false]);
    assert_eq!(selection_choices(3, &vec![2, 0]), vec![true, true, true]);
}

#[test]
fn conflicts_follow_the_pick() {
    let pairs = vec![
        (H.to_string(), D.to_string()),
        ("/home/tester/.vimrc".to_string(), "/home/tester/mydotfolder/.vimrc".to_string()),
    ];
    let plans = DotManager::process_duplicated(&pairs, &vec![2]);
    assert_eq!(plans[0], vec![rm(H), ln(D, H)]);
    assert_eq!(
        plans[1],
        vec![
            rm("/home/tester/mydotfolder/.vimrc"),
            cp("/home/tester/.vimrc", "/home/tester/mydotfolder/.vimrc"),
            rm("/home/tester/.vimrc"),
            ln("/home/tester/mydotfolder/.vimrc", "/home/tester/.vimrc")
        ]
    );
    assert_eq!(resolve_conflict(H, D, true), vec![rm(D), cp(H, D), rm(H), ln(D, H)]);
}

#[test]
fn check_labels() {
    assert_eq!(classify_link(from_flags(LINKED)), LinkHealth::Linked);
    assert_eq!(classify_link(probe(true, true, true, false)), LinkHealth::WrongTarget);
    assert_eq!(classify_link(probe(true, false, true, false)), LinkHealth::BrokenLink);
    assert_eq!(classify_link(from_flags(BOTH_PLAIN)), LinkHealth::Disabled);
    let mut mism = from_flags(BOTH_PLAIN);
    mism.home_is_dir = true;
    assert_eq!(classify_link(mism), LinkHealth::TypeMismatch);
    assert_eq!(classify_link(probe(false, true, false, false)), LinkHealth::Unlinked);
    assert_eq!(classify_link(probe(false, false, false, false)), LinkHealth::BothMissing);
}

#[test]
fn snapshot_after_sync_is_the_declared_list() {
    let m = manager(DuplicateBehavior::Ask, OnDelinkBehavior::Remove, &["~/a", "~/b"], &["~/c"]);
    let snap = CurrentState::of_config(&m.config);
    assert_eq!(snap.paths, vec!["~/a", "~/b"]);
    let next = DotManager::new(m.config.clone(), snap, HOME.to_string(), HOME.to_string());
    assert!(next.paths_to_unlink().is_empty());
    assert!(CurrentState::empty().paths.is_empty());
}

#[test]
fn removed_paths_are_listed_once() {
    let removed = DotManager::find_paths_to_removed(&strings(&["~/a", "~/b", "~/a"]), &strings(&["~/b"]));
    assert_eq!(removed, vec!["~/a"]);
    let removed = DotManager::find_paths_to_removed(&strings(&["~/a", "~/a"]), &vec![]);
    assert_eq!(removed, vec!["~/a"]);
}
