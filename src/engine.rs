use vstd::prelude::*;
use crate::args::DisableLinkArgs;
use crate::config::{Config, DuplicateBehavior, OnDelinkBehavior};
use crate::paths::{backup_of, backup_path, dot_counterpart, expand, get_home_and_dot_path, place, views, within};
use crate::state::{copy_strings, difference, not_in, CurrentState};

verus! {

/// What a filesystem operation does, over paths as character sequences.
pub enum Op {
    Remove(Seq<char>),
    Copy(Seq<char>, Seq<char>),
    Link(Seq<char>, Seq<char>),
    Move(Seq<char>, Seq<char>),
}

/// One filesystem operation for the caller to perform, in order.
#[derive(Debug, Clone, PartialEq, Eq)]
pub enum FsOp {
    /// Delete a file or link, or a directory with all it holds.
    RemoveEntry { path: String },
    /// Copy a file or a whole directory, creating parents as needed.
    CopyAll { from: String, to: String },
    /// Create a symbolic link at `link` pointing at `target`.
    Symlink { target: String, link: String },
    /// Move an entry to another name.
    Rename { from: String, to: String },
}

impl View for FsOp {
    type V = Op;

    open spec fn view(&self) -> Op {
        match self {
            FsOp::RemoveEntry { path } => Op::Remove(path@),
            FsOp::CopyAll { from, to } => Op::Copy(from@, to@),
            FsOp::Symlink { target, link } => Op::Link(target@, link@),
            FsOp::Rename { from, to } => Op::Move(from@, to@),
        }
    }
}

pub open spec fn ops_view(v: Seq<FsOp>) -> Seq<Op> {
    v.map_values(|o: FsOp| o@)
}

/// What the caller observed of a managed path's pair just before deciding.
#[derive(Debug, Clone, Copy, PartialEq, Eq, Structural)]
pub struct PairProbe {
    /// The home side is itself a symbolic link.
    pub home_is_symlink: bool,
    /// The home side exists, following links.
    pub home_exists: bool,
    /// The home side is a directory, following links.
    pub home_is_dir: bool,
    /// The dotfolder side exists, following links.
    pub dot_exists: bool,
    /// The dotfolder side is a directory, following links.
    pub dot_is_dir: bool,
    /// The home side, resolved, is the dotfolder side.
    pub home_resolves_to_dot: bool,
}

/// What linking did for one path.
#[derive(Debug, Clone, Copy, PartialEq, Eq, Structural)]
pub enum LinkOutcome {
    /// Home already resolves to the dotfolder copy.
    AlreadyLinked,
    /// Operations were planned that end with the link in place.
    Linked,
    /// Both sides hold content and the user is to choose, with the others.
    Deferred,
    /// Both sides hold content and the policy leaves them.
    Skipped,
    /// Neither side exists.
    Missing,
}

pub struct LinkPlan {
    pub ops: Vec<FsOp>,
    pub outcome: LinkOutcome,
}

/// What delinking did for one path.
#[derive(Debug, Clone, Copy, PartialEq, Eq, Structural)]
pub enum DelinkOutcome {
    Restored,
    NotSymlink,
    MissingInDotfolder,
    ForeignLink,
}

pub struct DelinkPlan {
    pub ops: Vec<FsOp>,
    pub outcome: DelinkOutcome,
}

/// The state of one managed path, as `check` reports it.
#[derive(Debug, Clone, Copy, PartialEq, Eq, Structural)]
pub enum LinkHealth {
    Linked,
    WrongTarget,
    BrokenLink,
    TypeMismatch,
    Disabled,
    Unlinked,
    BothMissing,
}

pub open spec fn is_broken_link(p: PairProbe) -> bool {
    p.home_is_symlink && !p.home_exists
}

pub open spec fn is_duplicate(p: PairProbe) -> bool {
    p.home_exists && p.dot_exists && !p.home_resolves_to_dot
}

/// Home's content replaces the dotfolder copy, then home links to it.
pub open spec fn home_wins_ops(h: Seq<char>, d: Seq<char>) -> Seq<Op> {
    seq![Op::Remove(d), Op::Copy(h, d), Op::Remove(h), Op::Link(d, h)]
}

/// Home's content is dropped and home links to the dotfolder copy.
pub open spec fn dot_wins_ops(h: Seq<char>, d: Seq<char>) -> Seq<Op> {
    seq![Op::Remove(h), Op::Link(d, h)]
}

/// Home's content moves to its backup name and home links to the dotfolder copy.
pub open spec fn backup_ops(h: Seq<char>, d: Seq<char>) -> Seq<Op> {
    seq![Op::Move(h, backup_of(h)), Op::Link(d, h)]
}

/// First adoption: the dotfolder takes home's content, home links to it.
pub open spec fn adopt_ops(h: Seq<char>, d: Seq<char>) -> Seq<Op> {
    seq![Op::Copy(h, d), Op::Remove(h), Op::Link(d, h)]
}

pub open spec fn link_outcome(p: PairProbe, policy: DuplicateBehavior) -> LinkOutcome {
    if p.home_exists && !p.dot_exists {
        LinkOutcome::Linked
    } else if !p.home_exists && p.dot_exists {
        LinkOutcome::Linked
    } else if !p.home_exists {
        LinkOutcome::Missing
    } else if p.home_resolves_to_dot {
        LinkOutcome::AlreadyLinked
    } else {
        match policy {
            DuplicateBehavior::Ask => LinkOutcome::Deferred,
            DuplicateBehavior::Skip => LinkOutcome::Skipped,
            _ => LinkOutcome::Linked,
        }
    }
}

/// The operations that bring the pair `(h, d)` to a link, by the case that
/// the probe shows and the duplicate policy; a broken home link goes first.
pub open spec fn link_ops(h: Seq<char>, d: Seq<char>, p: PairProbe, policy: DuplicateBehavior) -> Seq<Op> {
    let clear: Seq<Op> = if is_broken_link(p) {
        seq![Op::Remove(h)]
    } else {
        Seq::empty()
    };
    let rest: Seq<Op> = if p.home_exists && !p.dot_exists {
        adopt_ops(h, d)
    } else if !p.home_exists && p.dot_exists {
        seq![Op::Link(d, h)]
    } else if is_duplicate(p) {
        match policy {
            DuplicateBehavior::OverwriteHome => dot_wins_ops(h, d),
            DuplicateBehavior::OverwriteDotfile => home_wins_ops(h, d),
            DuplicateBehavior::BackupHome => backup_ops(h, d),
            _ => Seq::empty(),
        }
    } else {
        Seq::empty()
    };
    clear + rest
}

pub open spec fn delink_outcome(p: PairProbe) -> DelinkOutcome {
    if !p.home_is_symlink {
        DelinkOutcome::NotSymlink
    } else if !p.dot_exists {
        DelinkOutcome::MissingInDotfolder
    } else if !p.home_resolves_to_dot {
        DelinkOutcome::ForeignLink
    } else {
        DelinkOutcome::Restored
    }
}

/// Delinking replaces home's link by a copy of the dotfolder content, then
/// applies the delink policy to the dotfolder copy.
pub open spec fn delink_ops(h: Seq<char>, d: Seq<char>, p: PairProbe, on_delink: OnDelinkBehavior) -> Seq<Op> {
    if delink_outcome(p) != DelinkOutcome::Restored {
        Seq::empty()
    } else if on_delink == OnDelinkBehavior::Remove {
        seq![Op::Remove(h), Op::Copy(d, h), Op::Remove(d)]
    } else {
        seq![Op::Remove(h), Op::Copy(d, h)]
    }
}

pub open spec fn health_of(p: PairProbe) -> LinkHealth {
    if p.home_is_symlink {
        if !p.home_exists {
            LinkHealth::BrokenLink
        } else if p.home_resolves_to_dot {
            LinkHealth::Linked
        } else {
            LinkHealth::WrongTarget
        }
    } else if p.dot_exists && p.home_exists {
        if p.dot_is_dir != p.home_is_dir {
            LinkHealth::TypeMismatch
        } else {
            LinkHealth::Disabled
        }
    } else if p.dot_exists || p.home_exists {
        LinkHealth::Unlinked
    } else {
        LinkHealth::BothMissing
    }
}

/// Whether the user keeps the home version of the `i`th conflicting path,
/// given the indices they picked from a list whose entry 0 means "all".
pub open spec fn keeps_home(selected: Seq<usize>, i: int) -> bool {
    selected.contains(0) || selected.contains((i + 1) as usize)
}

fn remove_op(p: &str) -> (r: FsOp)
    ensures
        r@ == Op::Remove(p@),
{
    FsOp::RemoveEntry { path: p.to_string() }
}

fn copy_op(from: &str, to: &str) -> (r: FsOp)
    ensures
        r@ == Op::Copy(from@, to@),
{
    FsOp::CopyAll { from: from.to_string(), to: to.to_string() }
}

fn link_op(target: &str, link: &str) -> (r: FsOp)
    ensures
        r@ == Op::Link(target@, link@),
{
    FsOp::Symlink { target: target.to_string(), link: link.to_string() }
}

fn push_op(v: &mut Vec<FsOp>, op: FsOp)
    ensures
        ops_view(final(v)@) == ops_view(old(v)@).push(op@),
{
    v.push(op);
    assert(ops_view(final(v)@) =~= ops_view(old(v)@).push(op@));
}

/// The operations by which `home_wins` (or else the dotfolder) settles a conflict.
pub fn resolve_conflict(home_path: &str, dot_path: &str, home_wins: bool) -> (r: Vec<FsOp>)
    ensures
        ops_view(r@) == (if home_wins {
            home_wins_ops(home_path@, dot_path@)
        } else {
            dot_wins_ops(home_path@, dot_path@)
        }),
{
    let mut v: Vec<FsOp> = Vec::new();
    if home_wins {
        push_op(&mut v, remove_op(dot_path));
        push_op(&mut v, copy_op(home_path, dot_path));
    }
    push_op(&mut v, remove_op(home_path));
    push_op(&mut v, link_op(dot_path, home_path));
    assert(ops_view(v@) =~= (if home_wins {
        home_wins_ops(home_path@, dot_path@)
    } else {
        dot_wins_ops(home_path@, dot_path@)
    }));
    v
}

fn contains_index(v: &Vec<usize>, x: usize) -> (r: bool)
    ensures
        r == v@.contains(x),
{
    let mut k: usize = 0;
    while k < v.len()
        invariant
            k <= v@.len(),
            forall|m: int| 0 <= m < k ==> v@[m] != x,
        decreases v@.len() - k,
    {
        if v[k] == x {
            assert(v@[k as int] == x);
            return true;
        }
        k += 1;
    }
    false
}

/// For each of `n` conflicting paths, whether its home version is kept.
/// `selected` holds the picked indices of a list whose entry 0 means "all"
/// and whose entry `i + 1` is the `i`th path.
pub fn selection_choices(n: usize, selected: &Vec<usize>) -> (r: Vec<bool>)
    ensures
        r@.len() == n,
        forall|i: int| 0 <= i < n ==> r@[i] == keeps_home(selected@, i),
{
    let all = contains_index(selected, 0);
    let mut r: Vec<bool> = Vec::new();
    let mut i: usize = 0;
    while i < n
        invariant
            i <= n,
            r@.len() == i,
            all == selected@.contains(0),
            forall|j: int| 0 <= j < i ==> r@[j] == keeps_home(selected@, j),
        decreases n - i,
    {
        let picked = all || contains_index(selected, i + 1);
        r.push(picked);
        i += 1;
    }
    r
}

/// What `check` reports for a path with the given probe.
pub fn classify_link(p: PairProbe) -> (r: LinkHealth)
    ensures
        r == health_of(p),
{
    if p.home_is_symlink {
        if !p.home_exists {
            LinkHealth::BrokenLink
        } else if p.home_resolves_to_dot {
            LinkHealth::Linked
        } else {
            LinkHealth::WrongTarget
        }
    } else if p.dot_exists && p.home_exists {
        if p.dot_is_dir != p.home_is_dir {
            LinkHealth::TypeMismatch
        } else {
            LinkHealth::Disabled
        }
    } else if p.dot_exists || p.home_exists {
        LinkHealth::Unlinked
    } else {
        LinkHealth::BothMissing
    }
}


/// The reconciliation engine: the declared configuration, the snapshot of
/// the last completed sync, and the home and working directories that
/// paths are read against. It decides; the caller observes the filesystem
/// and performs the operations it returns.
pub struct DotManager {
    pub config: Config,
    pub current_state: CurrentState,
    pub home: String,
    pub cwd: String,
}

impl DotManager {
    pub fn new(config: Config, current_state: CurrentState, home: String, cwd: String) -> (r: DotManager)
        ensures
            r.config == config,
            r.current_state == current_state,
            r.home == home,
            r.cwd == cwd,
    {
        DotManager { config, current_state, home, cwd }
    }

    /// The (home, dotfolder) pair of a declared path; an error where the
    /// path does not lie in home.
    pub fn pair_for(&self, path: &str) -> (r: Result<(String, String), String>)
        ensures
            r is Ok <==> within(place(expand(path@, self.home@, self.cwd@)), place(self.home@)),
            r matches Ok(pair) ==> pair.0@ == expand(path@, self.home@, self.cwd@) && pair.1@
                == dot_counterpart(
                expand(path@, self.home@, self.cwd@),
                self.config.dotfolder_path@,
                self.home@,
                self.cwd@,
            ),
    {
        get_home_and_dot_path(path, self.config.dotfolder_path.as_str(), self.home.as_str(), self.cwd.as_str())
    }

    /// Paths of the snapshot that are no longer declared, in snapshot order.
    pub fn find_paths_to_removed(current_paths: &Vec<String>, config_paths: &Vec<String>) -> (r: Vec<String>)
        ensures
            views(r@) == not_in(views(current_paths@), views(config_paths@)),
            views(r@).no_duplicates(),
    {
        difference(current_paths, config_paths)
    }

    /// Declared paths that the snapshot does not hold, in declared order.
    pub fn find_paths_to_be_added(current_paths: &Vec<String>, config_paths: &Vec<String>) -> (r: Vec<String>)
        ensures
            views(r@) == not_in(views(config_paths@), views(current_paths@)),
            views(r@).no_duplicates(),
    {
        difference(config_paths, current_paths)
    }

    /// The paths that the next sync delinks first.
    pub fn paths_to_unlink(&self) -> (r: Vec<String>)
        ensures
            views(r@) == not_in(views(self.current_state.paths@), views(self.config.paths@)),
    {
        Self::find_paths_to_removed(&self.current_state.paths, &self.config.paths)
    }

    /// What the next sync would change in the managed set: the paths it
    /// would start managing and those it would stop managing.
    pub fn status(&self) -> (r: (Vec<String>, Vec<String>))
        ensures
            views(r.0@) == not_in(views(self.config.paths@), views(self.current_state.paths@)),
            views(r.1@) == not_in(views(self.current_state.paths@), views(self.config.paths@)),
    {
        let added = Self::find_paths_to_be_added(&self.current_state.paths, &self.config.paths);
        let removed = Self::find_paths_to_removed(&self.current_state.paths, &self.config.paths);
        (added, removed)
    }

    /// The paths that `delink_all` restores: every declared path.
    pub fn delink_all_paths(&self) -> (r: Vec<String>)
        ensures
            views(r@) == views(self.config.paths@),
    {
        copy_strings(&self.config.paths)
    }

    /// The paths that `disable-link` restores: every declared path with
    /// `all`, else the ones given.
    pub fn clean_targets(&self, args: &DisableLinkArgs) -> (r: Vec<String>)
        ensures
            views(r@) == (if args.all {
                views(self.config.paths@)
            } else {
                views(args.paths@)
            }),
    {
        if args.all {
            self.delink_all_paths()
        } else {
            copy_strings(&args.paths)
        }
    }

    /// Decides how to link one declared path whose pair is
    /// `(home_path, dot_path)`, given what was observed of it.
    pub fn plan_link(&self, home_path: &str, dot_path: &str, probe: PairProbe) -> (r: LinkPlan)
        requires
            home_path@.len() < i64::MAX,
        ensures
            ops_view(r.ops@) == link_ops(home_path@, dot_path@, probe, self.config.defaults.on_duplicate),
            r.outcome == link_outcome(probe, self.config.defaults.on_duplicate),
    {
        let policy = self.config.defaults.on_duplicate;
        let mut ops: Vec<FsOp> = Vec::new();
        if probe.home_is_symlink && !probe.home_exists {
            push_op(&mut ops, remove_op(home_path));
        }
        let ghost clear = ops_view(ops@);
        let outcome;
        if probe.home_exists && !probe.dot_exists {
            push_op(&mut ops, copy_op(home_path, dot_path));
            push_op(&mut ops, remove_op(home_path));
            push_op(&mut ops, link_op(dot_path, home_path));
            outcome = LinkOutcome::Linked;
            assert(ops_view(ops@) =~= clear + adopt_ops(home_path@, dot_path@));
        } else if !probe.home_exists && probe.dot_exists {
            push_op(&mut ops, link_op(dot_path, home_path));
            outcome = LinkOutcome::Linked;
            assert(ops_view(ops@) =~= clear + seq![Op::Link(dot_path@, home_path@)]);
        } else if !probe.home_exists {
            outcome = LinkOutcome::Missing;
            assert(ops_view(ops@) =~= clear + Seq::<Op>::empty());
        } else if probe.home_resolves_to_dot {
            outcome = LinkOutcome::AlreadyLinked;
            assert(ops_view(ops@) =~= clear + Seq::<Op>::empty());
        } else {
            match policy {
                DuplicateBehavior::Ask => {
                    outcome = LinkOutcome::Deferred;
                    assert(ops_view(ops@) =~= clear + Seq::<Op>::empty());
                },
                DuplicateBehavior::Skip => {
                    outcome = LinkOutcome::Skipped;
                    assert(ops_view(ops@) =~= clear + Seq::<Op>::empty());
                },
                DuplicateBehavior::OverwriteHome => {
                    push_op(&mut ops, remove_op(home_path));
                    push_op(&mut ops, link_op(dot_path, home_path));
                    outcome = LinkOutcome::Linked;
                    assert(ops_view(ops@) =~= clear + dot_wins_ops(home_path@, dot_path@));
                },
                DuplicateBehavior::OverwriteDotfile => {
                    push_op(&mut ops, remove_op(dot_path));
                    push_op(&mut ops, copy_op(home_path, dot_path));
                    push_op(&mut ops, remove_op(home_path));
                    push_op(&mut ops, link_op(dot_path, home_path));
                    outcome = LinkOutcome::Linked;
                    assert(ops_view(ops@) =~= clear + home_wins_ops(home_path@, dot_path@));
                },
                DuplicateBehavior::BackupHome => {
                    let backup = backup_path(home_path);
                    push_op(&mut ops, FsOp::Rename { from: home_path.to_string(), to: backup });
                    push_op(&mut ops, link_op(dot_path, home_path));
                    outcome = LinkOutcome::Linked;
                    assert(ops_view(ops@) =~= clear + backup_ops(home_path@, dot_path@));
                },
            }
        }
        LinkPlan { ops, outcome }
    }

    /// Decides how to restore one path whose pair is `(home_path, dot_path)`
    /// to a plain entry in home, given what was observed of it.
    pub fn plan_delink(&self, home_path: &str, dot_path: &str, probe: PairProbe) -> (r: DelinkPlan)
        ensures
            ops_view(r.ops@) == delink_ops(home_path@, dot_path@, probe, self.config.defaults.on_delink),
            r.outcome == delink_outcome(probe),
    {
        let mut ops: Vec<FsOp> = Vec::new();
        if !probe.home_is_symlink {
            return DelinkPlan { ops, outcome: DelinkOutcome::NotSymlink };
        }
        if !probe.dot_exists {
            return DelinkPlan { ops, outcome: DelinkOutcome::MissingInDotfolder };
        }
        if !probe.home_resolves_to_dot {
            return DelinkPlan { ops, outcome: DelinkOutcome::ForeignLink };
        }
        push_op(&mut ops, remove_op(home_path));
        push_op(&mut ops, copy_op(dot_path, home_path));
        match self.config.defaults.on_delink {
            OnDelinkBehavior::Remove => {
                push_op(&mut ops, remove_op(dot_path));
            },
            OnDelinkBehavior::Keep => {},
        }
        assert(ops_view(ops@) =~= delink_ops(home_path@, dot_path@, probe, self.config.defaults.on_delink));
        DelinkPlan { ops, outcome: DelinkOutcome::Restored }
    }

    /// Settles the deferred conflicts `(home, dotfolder)` by the user's pick:
    /// `selected` holds indices of a list whose entry 0 means "keep every home
    /// version" and whose entry `i + 1` is the `i`th conflict. Picked ones keep
    /// home's content; the others take the dotfolder's.
    pub fn process_duplicated(duplicated_paths: &Vec<(String, String)>, selected: &Vec<usize>) -> (r: Vec<Vec<FsOp>>)
        ensures
            r@.len() == duplicated_paths@.len(),
            forall|i: int|
                0 <= i < r@.len() ==> ops_view(#[trigger] r@[i]@) == (if keeps_home(selected@, i) {
                    home_wins_ops(duplicated_paths@[i].0@, duplicated_paths@[i].1@)
                } else {
                    dot_wins_ops(duplicated_paths@[i].0@, duplicated_paths@[i].1@)
                }),
    {
        let n = duplicated_paths.len();
        let choices = selection_choices(n, selected);
        let mut r: Vec<Vec<FsOp>> = Vec::new();
        let mut i: usize = 0;
        while i < n
            invariant
                n == duplicated_paths@.len(),
                choices@.len() == n,
                forall|j: int| 0 <= j < n ==> choices@[j] == keeps_home(selected@, j),
                i <= n,
                r@.len() == i,
                forall|j: int|
                    0 <= j < i ==> ops_view(#[trigger] r@[j]@) == (if keeps_home(selected@, j) {
                        home_wins_ops(duplicated_paths@[j].0@, duplicated_paths@[j].1@)
                    } else {
                        dot_wins_ops(duplicated_paths@[j].0@, duplicated_paths@[j].1@)
                    }),
            decreases n - i,
        {
            let pair = &duplicated_paths[i];
            let ops = resolve_conflict(pair.0.as_str(), pair.1.as_str(), choices[i]);
            r.push(ops);
            i += 1;
        }
        r
    }
}

} // verus!
