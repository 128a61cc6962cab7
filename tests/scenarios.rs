use lazydot::config::{Config, Defaults, DuplicateBehavior, OnDelinkBehavior};
use lazydot::engine::{DotManager, FsOp, LinkOutcome, PairProbe};
use lazydot::state::CurrentState;
use std::collections::BTreeMap;

const HOME: &str = "/home/tester";

#[derive(Debug, Clone, PartialEq, Eq)]
enum Entry {
    File(String),
    Link(String),
}

/// A filesystem of whole files and links, enough to run plans on.
#[derive(Debug, Clone, PartialEq, Eq, Default)]
struct Disk(BTreeMap<String, Entry>);

impl Disk {
    fn read(&self, p: &str) -> Option<String> {
        match self.0.get(p)? {
            Entry::File(c) => Some(c.clone()),
            Entry::Link(t) => match self.0.get(t)? {
                Entry::File(c) => Some(c.clone()),
                Entry::Link(_) => None,
            },
        }
    }

    fn probe(&self, h: &str, d: &str) -> PairProbe {
        PairProbe {
            home_is_symlink: matches!(self.0.get(h), Some(Entry::Link(_))),
            home_exists: self.read(h).is_some(),
            home_is_dir: false,
            dot_exists: self.read(d).is_some(),
            dot_is_dir: false,
            home_resolves_to_dot: self.0.get(h) == Some(&Entry::Link(d.to_string()))
                && matches!(self.0.get(d), Some(Entry::File(_))),
        }
    }

    fn perform(&mut self, op: &FsOp) {
        match op {
            FsOp::RemoveEntry { path } => {
                assert!(self.0.remove(path).is_some(), "removing a missing entry");
            }
            FsOp::CopyAll { from, to } => {
                let c = self.read(from).expect("copying a missing source");
                self.0.insert(to.clone(), Entry::File(c));
            }
            FsOp::Symlink { target, link } => {
                assert!(!self.0.contains_key(link), "linking over an entry");
                self.0.insert(link.clone(), Entry::Link(target.clone()));
            }
            FsOp::Rename { from, to } => {
                let e = self.0.remove(from).expect("moving a missing entry");
                self.0.insert(to.clone(), e);
            }
        }
    }

    fn perform_all(&mut self, ops: &[FsOp]) {
        ops.iter().for_each(|op| self.perform(op));
    }
}

fn manager(policy: DuplicateBehavior, on_delink: OnDelinkBehavior, paths: &[&str], snapshot: &[&str]) -> DotManager {
    let config = Config {
        defaults: Defaults { on_duplicate: policy, on_delink },
        dotfolder_path: "~/dots".to_string(),
        paths: paths.iter().map(|s| s.to_string()).collect(),
    };
    let state = CurrentState { paths: snapshot.iter().map(|s| s.to_string()).collect() };
    DotManager::new(config, state, HOME.to_string(), HOME.to_string())
}

/// One whole sync: delink what left the declaration, link every declared
/// path, then settle deferred conflicts by `pick`. Gives the next snapshot.
fn sync(m: &DotManager, disk: &mut Disk, pick: &Vec<usize>) -> CurrentState {
    for path in m.paths_to_unlink() {
        let (h, d) = m.pair_for(&path).unwrap();
        let plan = m.plan_delink(&h, &d, disk.probe(&h, &d));
        disk.perform_all(&plan.ops);
    }
    let mut deferred = Vec::new();
    for path in &m.config.paths {
        let (h, d) = m.pair_for(path).unwrap();
        let plan = m.plan_link(&h, &d, disk.probe(&h, &d));
        disk.perform_all(&plan.ops);
        if plan.outcome == LinkOutcome::Deferred {
            deferred.push((h, d));
        }
    }
    for ops in DotManager::process_duplicated(&deferred, pick) {
        disk.perform_all(&ops);
    }
    CurrentState::of_config(&m.config)
}

fn file(disk: &mut Disk, p: &str, c: &str) {
    disk.0.insert(p.to_string(), Entry::File(c.to_string()));
}

const BASHRC: &str = "/home/tester/.bashrc";
const DOT_BASHRC: &str = "/home/tester/dots/.bashrc";

fn conflict_disk() -> Disk {
    let mut disk = Disk::default();
    file(&mut disk, BASHRC, "home-version");
    file(&mut disk, DOT_BASHRC, "dot-version");
    disk
}

#[test]
fn overwrite_home_scenario() {
    let m = manager(DuplicateBehavior::OverwriteHome, OnDelinkBehavior::Remove, &["~/.bashrc"], &[]);
    let mut disk = conflict_disk();
    sync(&m, &mut disk, &vec![]);
    assert_eq!(disk.read(BASHRC).unwrap(), "dot-version");
    assert_eq!(disk.0.get(BASHRC), Some(&Entry::Link(DOT_BASHRC.to_string())));
    assert_eq!(disk.0.len(), 2);
    assert!(!disk.0.contains_key("/home/tester/.bashrc.bak"));
}

#[test]
fn backup_home_keeps_home_version_aside() {
    let m = manager(DuplicateBehavior::BackupHome, OnDelinkBehavior::Remove, &["~/.bashrc"], &[]);
    let mut disk = conflict_disk();
    sync(&m, &mut disk, &vec![]);
    assert_eq!(disk.read("/home/tester/.bashrc.bak").unwrap(), "home-version");
    assert_eq!(disk.read(BASHRC).unwrap(), "dot-version");
    assert_eq!(disk.0.get(BASHRC), Some(&Entry::Link(DOT_BASHRC.to_string())));
}

#[test]
fn ask_policy_follows_the_pick() {
    let m = manager(DuplicateBehavior::Ask, OnDelinkBehavior::Remove, &["~/.bashrc"], &[]);
    let mut keep_home = conflict_disk();
    sync(&m, &mut keep_home, &vec![0]);
    assert_eq!(keep_home.read(BASHRC).unwrap(), "home-version");
    assert_eq!(keep_home.read(DOT_BASHRC).unwrap(), "home-version");
    let mut keep_dot = conflict_disk();
    sync(&m, &mut keep_dot, &vec![]);
    assert_eq!(keep_dot.read(BASHRC).unwrap(), "dot-version");
}

#[test]
fn first_adoption_keeps_content() {
    let m = manager(DuplicateBehavior::Ask, OnDelinkBehavior::Remove, &["~/.bashrc"], &[]);
    let mut disk = Disk::default();
    file(&mut disk, BASHRC, "C");
    sync(&m, &mut disk, &vec![]);
    assert_eq!(disk.0.get(DOT_BASHRC), Some(&Entry::File("C".to_string())));
    assert_eq!(disk.read(BASHRC).unwrap(), "C");
}

#[test]
fn second_sync_changes_nothing() {
    for policy in [
        DuplicateBehavior::Ask,
        DuplicateBehavior::OverwriteHome,
        DuplicateBehavior::OverwriteDotfile,
        DuplicateBehavior::BackupHome,
        DuplicateBehavior::Skip,
    ] {
        let m = manager(policy, OnDelinkBehavior::Remove, &["~/.bashrc", "~/.vimrc", "~/.zshrc"], &[]);
        let mut disk = conflict_disk();
        file(&mut disk, "/home/tester/.vimrc", "vim");
        sync(&m, &mut disk, &vec![0]);
        let after_first = disk.clone();
        sync(&m, &mut disk, &vec![]);
        assert_eq!(disk, after_first);
    }
}

#[test]
fn delink_then_sync_relinks_with_same_content() {
    for on_delink in [OnDelinkBehavior::Remove, OnDelinkBehavior::Keep] {
        let m = manager(DuplicateBehavior::OverwriteHome, on_delink, &["~/.bashrc"], &[]);
        let mut disk = Disk::default();
        file(&mut disk, BASHRC, "C");
        sync(&m, &mut disk, &vec![]);
        let plan = m.plan_delink(BASHRC, DOT_BASHRC, disk.probe(BASHRC, DOT_BASHRC));
        disk.perform_all(&plan.ops);
        assert_eq!(disk.0.get(BASHRC), Some(&Entry::File("C".to_string())));
        sync(&m, &mut disk, &vec![]);
        assert_eq!(disk.0.get(BASHRC), Some(&Entry::Link(DOT_BASHRC.to_string())));
        assert_eq!(disk.read(BASHRC).unwrap(), "C");
    }
}

#[test]
fn removal_reconciliation_scenario() {
    for on_delink in [OnDelinkBehavior::Remove, OnDelinkBehavior::Keep] {
        let both = manager(DuplicateBehavior::Ask, on_delink, &["~/a", "~/.bashrc"], &[]);
        let mut disk = Disk::default();
        file(&mut disk, "/home/tester/a", "A");
        file(&mut disk, BASHRC, "B");
        let snapshot = sync(&both, &mut disk, &vec![]);
        assert_eq!(snapshot.paths, vec!["~/a", "~/.bashrc"]);

        let snap: Vec<&str> = snapshot.paths.iter().map(|s| s.as_str()).collect();
        let only_a = manager(DuplicateBehavior::Ask, on_delink, &["~/a"], &snap);
        sync(&only_a, &mut disk, &vec![]);
        assert_eq!(disk.0.get(BASHRC), Some(&Entry::File("B".to_string())));
        assert_eq!(disk.0.contains_key(DOT_BASHRC), on_delink == OnDelinkBehavior::Keep);
        assert_eq!(disk.read("/home/tester/a").unwrap(), "A");
        assert_eq!(
            disk.0.get("/home/tester/a"),
            Some(&Entry::Link("/home/tester/dots/a".to_string()))
        );
    }
}
