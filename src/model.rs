use vstd::prelude::*;
use crate::config::{DuplicateBehavior, OnDelinkBehavior};
use crate::engine::{
    adopt_ops, backup_ops, delink_ops, dot_wins_ops, home_wins_ops, is_broken_link, link_ops,
    link_outcome, LinkOutcome, Op, PairProbe,
};
use crate::paths::{backup_of, lemma_backup_differs};

verus! {

/// An entry of the filesystem as reconciliation sees it: content (a file, or
/// a whole directory, taken as one value) or a symbolic link to a path.
pub enum Node {
    Content(int),
    Link(Seq<char>),
}

/// What `p` holds once a link is followed, if anything.
pub open spec fn resolved(disk: Map<Seq<char>, Node>, p: Seq<char>) -> Option<int> {
    if !disk.contains_key(p) {
        None
    } else {
        match disk[p] {
            Node::Content(c) => Some(c),
            Node::Link(t) => if disk.contains_key(t) && disk[t] is Content {
                Some(disk[t]->Content_0)
            } else {
                None
            },
        }
    }
}

/// Home is a link to the dotfolder side, which holds content.
pub open spec fn is_linked(disk: Map<Seq<char>, Node>, h: Seq<char>, d: Seq<char>) -> bool {
    &&& disk.contains_key(h)
    &&& disk[h] == Node::Link(d)
    &&& disk.contains_key(d)
    &&& disk[d] is Content
}

/// The dotfolder side is absent or holds content: it is not itself a link.
pub open spec fn dot_is_plain(disk: Map<Seq<char>, Node>, d: Seq<char>) -> bool {
    disk.contains_key(d) ==> disk[d] is Content
}

/// What a caller observes of the pair `(h, d)` on `disk`.
pub open spec fn probe_of(disk: Map<Seq<char>, Node>, h: Seq<char>, d: Seq<char>) -> PairProbe {
    PairProbe {
        home_is_symlink: disk.contains_key(h) && disk[h] is Link,
        home_exists: resolved(disk, h) is Some,
        home_is_dir: false,
        dot_exists: resolved(disk, d) is Some,
        dot_is_dir: false,
        home_resolves_to_dot: is_linked(disk, h, d),
    }
}

/// Performing one operation; an operation that the filesystem would refuse
/// (copying what does not resolve, linking over an entry, moving what is
/// absent) changes nothing.
pub open spec fn apply_op(disk: Map<Seq<char>, Node>, op: Op) -> Map<Seq<char>, Node> {
    match op {
        Op::Remove(p) => disk.remove(p),
        Op::Copy(a, b) => match resolved(disk, a) {
            Some(c) => disk.insert(b, Node::Content(c)),
            None => disk,
        },
        Op::Link(t, l) => if disk.contains_key(l) {
            disk
        } else {
            disk.insert(l, Node::Link(t))
        },
        Op::Move(a, b) => if disk.contains_key(a) {
            disk.remove(a).insert(b, disk[a])
        } else {
            disk
        },
    }
}

/// Performing operations in order.
pub open spec fn apply_ops(disk: Map<Seq<char>, Node>, ops: Seq<Op>) -> Map<Seq<char>, Node>
    decreases ops.len(),
{
    if ops.len() == 0 {
        disk
    } else {
        apply_ops(apply_op(disk, ops[0]), ops.skip(1))
    }
}

/// One declared path through `sync`: its planned operations, then, where it
/// was deferred to the user, the resolution they chose.
pub open spec fn sync_path(
    disk: Map<Seq<char>, Node>,
    h: Seq<char>,
    d: Seq<char>,
    policy: DuplicateBehavior,
    home_wins: bool,
) -> Map<Seq<char>, Node> {
    let p = probe_of(disk, h, d);
    let after = apply_ops(disk, link_ops(h, d, p, policy));
    if link_outcome(p, policy) == LinkOutcome::Deferred {
        apply_ops(after, if home_wins { home_wins_ops(h, d) } else { dot_wins_ops(h, d) })
    } else {
        after
    }
}

/// One path through `delink`.
pub open spec fn delink_path(
    disk: Map<Seq<char>, Node>,
    h: Seq<char>,
    d: Seq<char>,
    on_delink: OnDelinkBehavior,
) -> Map<Seq<char>, Node> {
    apply_ops(disk, delink_ops(h, d, probe_of(disk, h, d), on_delink))
}

/// The pair can be told apart: the dotfolder side is neither home nor home's
/// backup name. (The backup name always differs from home itself.)
pub open spec fn distinct_places(h: Seq<char>, d: Seq<char>) -> bool {
    h != d && backup_of(h) != d
}

proof fn lemma_apply_concat(disk: Map<Seq<char>, Node>, a: Seq<Op>, b: Seq<Op>)
    ensures
        apply_ops(disk, a + b) == apply_ops(apply_ops(disk, a), b),
    decreases a.len(),
{
    if a.len() > 0 {
        assert((a + b).skip(1) =~= a.skip(1) + b);
        assert((a + b)[0] == a[0]);
        lemma_apply_concat(apply_op(disk, a[0]), a.skip(1), b);
    } else {
        assert(a + b =~= b);
    }
}

proof fn lemma_apply_one(disk: Map<Seq<char>, Node>, a: Op)
    ensures
        apply_ops(disk, seq![a]) == apply_op(disk, a),
{
    reveal_with_fuel(apply_ops, 2);
    assert(seq![a].skip(1) =~= Seq::<Op>::empty());
}

proof fn lemma_apply_two(disk: Map<Seq<char>, Node>, a: Op, b: Op)
    ensures
        apply_ops(disk, seq![a, b]) == apply_op(apply_op(disk, a), b),
{
    assert(seq![a, b] =~= seq![a] + seq![b]);
    lemma_apply_concat(disk, seq![a], seq![b]);
    lemma_apply_one(disk, a);
    lemma_apply_one(apply_op(disk, a), b);
}

proof fn lemma_apply_three(disk: Map<Seq<char>, Node>, a: Op, b: Op, c: Op)
    ensures
        apply_ops(disk, seq![a, b, c]) == apply_op(apply_op(apply_op(disk, a), b), c),
{
    assert(seq![a, b, c] =~= seq![a, b] + seq![c]);
    lemma_apply_concat(disk, seq![a, b], seq![c]);
    lemma_apply_two(disk, a, b);
    lemma_apply_one(apply_op(apply_op(disk, a), b), c);
}

proof fn lemma_apply_four(disk: Map<Seq<char>, Node>, a: Op, b: Op, c: Op, e: Op)
    ensures
        apply_ops(disk, seq![a, b, c, e]) == apply_op(apply_op(apply_op(apply_op(disk, a), b), c), e),
{
    assert(seq![a, b, c, e] =~= seq![a, b, c] + seq![e]);
    lemma_apply_concat(disk, seq![a, b, c], seq![e]);
    lemma_apply_three(disk, a, b, c);
    lemma_apply_one(apply_op(apply_op(apply_op(disk, a), b), c), e);
}

/// Home wins a conflict: the dotfolder takes home's content and home links to it.
proof fn lemma_home_wins(disk: Map<Seq<char>, Node>, h: Seq<char>, d: Seq<char>, c: int)
    requires
        h != d,
        resolved(disk, h) == Some(c),
        !is_linked(disk, h, d),
        dot_is_plain(disk, d),
    ensures
        is_linked(apply_ops(disk, home_wins_ops(h, d)), h, d),
        apply_ops(disk, home_wins_ops(h, d))[d] == Node::Content(c),
{
    lemma_apply_four(disk, Op::Remove(d), Op::Copy(h, d), Op::Remove(h), Op::Link(d, h));
    let d1 = disk.remove(d);
    assert(resolved(d1, h) == Some(c)) by {
        if disk[h] is Link {
            assert(disk[h]->Link_0 != d);
        }
    }
}

/// The dotfolder wins a conflict: home links to the dotfolder copy.
proof fn lemma_dot_wins(disk: Map<Seq<char>, Node>, h: Seq<char>, d: Seq<char>)
    requires
        h != d,
        resolved(disk, d) is Some,
        dot_is_plain(disk, d),
    ensures
        is_linked(apply_ops(disk, dot_wins_ops(h, d)), h, d),
        apply_ops(disk, dot_wins_ops(h, d))[d] == disk[d],
{
    lemma_apply_two(disk, Op::Remove(h), Op::Link(d, h));
}

/// What one path's sync leaves: the pair linked, or (where the policy left a
/// conflict, or nothing exists on either side) the disk as it was once a
/// broken home link is cleared.
proof fn lemma_sync_path_cases(
    disk: Map<Seq<char>, Node>,
    h: Seq<char>,
    d: Seq<char>,
    policy: DuplicateBehavior,
    home_wins: bool,
)
    requires
        distinct_places(h, d),
        dot_is_plain(disk, d),
    ensures
        ({
            let p = probe_of(disk, h, d);
            let o = link_outcome(p, policy);
            let r = sync_path(disk, h, d, policy, home_wins);
            &&& o == LinkOutcome::Skipped ==> r == disk
            &&& o == LinkOutcome::Missing ==> !r.contains_key(h) || r == disk
            &&& o == LinkOutcome::Missing ==> r.remove(h) == disk.remove(h) && resolved(r, d) is None
            &&& o != LinkOutcome::Skipped && o != LinkOutcome::Missing ==> is_linked(r, h, d)
            &&& dot_is_plain(r, d)
        }),
{
    lemma_backup_differs(h);
    let p = probe_of(disk, h, d);
    let o = link_outcome(p, policy);
    let clear: Seq<Op> = if is_broken_link(p) {
        seq![Op::Remove(h)]
    } else {
        Seq::empty()
    };
    let rest = link_ops(h, d, p, policy).skip(clear.len() as int);
    assert(link_ops(h, d, p, policy) =~= clear + rest);
    lemma_apply_concat(disk, clear, rest);
    let d0 = apply_ops(disk, clear);
    if is_broken_link(p) {
        lemma_apply_one(disk, Op::Remove(h));
        assert(d0 == disk.remove(h));
    } else {
        assert(d0 == disk);
    }
    assert(resolved(d0, d) == resolved(disk, d)) by {
        if disk.contains_key(d) {
            assert(disk[d] is Content);
        }
    }
    if p.home_exists && !p.dot_exists {
        let c = resolved(disk, h).unwrap();
        assert(rest =~= adopt_ops(h, d));
        lemma_apply_three(d0, Op::Copy(h, d), Op::Remove(h), Op::Link(d, h));
    } else if !p.home_exists && p.dot_exists {
        assert(rest =~= seq![Op::Link(d, h)]);
        lemma_apply_one(d0, Op::Link(d, h));
        assert(!d0.contains_key(h)) by {
            if disk.contains_key(h) {
                assert(disk[h] is Link);
            }
        }
    } else if !p.home_exists {
        assert(rest =~= Seq::<Op>::empty());
        assert(!d0.contains_key(h) || d0 == disk) by {
            if disk.contains_key(h) {
                assert(disk[h] is Link);
            }
        }
        assert(d0.remove(h) =~= disk.remove(h));
    } else if p.home_resolves_to_dot {
        assert(rest =~= Seq::<Op>::empty());
    } else {
        let c = resolved(disk, h).unwrap();
        match policy {
            DuplicateBehavior::OverwriteHome => {
                assert(rest =~= dot_wins_ops(h, d));
                lemma_dot_wins(d0, h, d);
            },
            DuplicateBehavior::OverwriteDotfile => {
                assert(rest =~= home_wins_ops(h, d));
                lemma_home_wins(d0, h, d, c);
            },
            DuplicateBehavior::BackupHome => {
                assert(rest =~= backup_ops(h, d));
                lemma_apply_two(d0, Op::Move(h, backup_of(h)), Op::Link(d, h));
            },
            DuplicateBehavior::Ask => {
                assert(rest =~= Seq::<Op>::empty());
                if home_wins {
                    lemma_home_wins(d0, h, d, c);
                } else {
                    lemma_dot_wins(d0, h, d);
                }
            },
            DuplicateBehavior::Skip => {
                assert(rest =~= Seq::<Op>::empty());
            },
        }
    }
}


/// Convergence: after one declared path goes through `sync`, home is a link
/// to the dotfolder copy, unless the `Skip` policy left a conflict or the
/// path exists on neither side.
pub proof fn lemma_sync_converges(
    disk: Map<Seq<char>, Node>,
    h: Seq<char>,
    d: Seq<char>,
    policy: DuplicateBehavior,
    home_wins: bool,
)
    requires
        distinct_places(h, d),
        dot_is_plain(disk, d),
    ensures
        link_outcome(probe_of(disk, h, d), policy) != LinkOutcome::Skipped && link_outcome(
            probe_of(disk, h, d),
            policy,
        ) != LinkOutcome::Missing ==> is_linked(sync_path(disk, h, d, policy, home_wins), h, d),
{
    lemma_sync_path_cases(disk, h, d, policy, home_wins);
}

/// Idempotence: a second `sync` of a path, with nothing changed in between,
/// leaves the disk exactly as the first left it, whatever the user picks.
pub proof fn lemma_sync_idempotent(
    disk: Map<Seq<char>, Node>,
    h: Seq<char>,
    d: Seq<char>,
    policy: DuplicateBehavior,
    first_pick: bool,
    second_pick: bool,
)
    requires
        distinct_places(h, d),
        dot_is_plain(disk, d),
    ensures
        sync_path(sync_path(disk, h, d, policy, first_pick), h, d, policy, second_pick) == sync_path(
            disk,
            h,
            d,
            policy,
            first_pick,
        ),
{
    lemma_sync_path_cases(disk, h, d, policy, first_pick);
    let r1 = sync_path(disk, h, d, policy, first_pick);
    let o = link_outcome(probe_of(disk, h, d), policy);
    if r1 == disk {
        return;
    }
    let again = probe_of(r1, h, d);
    if o == LinkOutcome::Missing {
        assert(!r1.contains_key(h));
        assert(link_ops(h, d, again, policy) =~= Seq::<Op>::empty());
    } else {
        assert(is_linked(r1, h, d));
        assert(link_outcome(again, policy) == LinkOutcome::AlreadyLinked);
        assert(link_ops(h, d, again, policy) =~= Seq::<Op>::empty());
    }
}

/// Round trip: a path adopted for the first time (content `c` in home,
/// nothing in the dotfolder) ends linked, with `c` in the dotfolder and `c`
/// read through the home link.
pub proof fn lemma_adoption_keeps_content(
    disk: Map<Seq<char>, Node>,
    h: Seq<char>,
    d: Seq<char>,
    policy: DuplicateBehavior,
    home_wins: bool,
    c: int,
)
    requires
        h != d,
        resolved(disk, h) == Some(c),
        !disk.contains_key(d),
    ensures
        is_linked(sync_path(disk, h, d, policy, home_wins), h, d),
        sync_path(disk, h, d, policy, home_wins)[d] == Node::Content(c),
        resolved(sync_path(disk, h, d, policy, home_wins), h) == Some(c),
{
    let p = probe_of(disk, h, d);
    assert(!is_broken_link(p));
    assert(link_ops(h, d, p, policy) =~= adopt_ops(h, d));
    lemma_apply_three(disk, Op::Copy(h, d), Op::Remove(h), Op::Link(d, h));
}

/// Delinking a linked path puts the dotfolder content back in home as a
/// plain entry; the dotfolder copy goes with `Remove` and stays with `Keep`.
pub proof fn lemma_delink_restores(disk: Map<Seq<char>, Node>, h: Seq<char>, d: Seq<char>, on_delink: OnDelinkBehavior)
    requires
        h != d,
        is_linked(disk, h, d),
    ensures
        delink_path(disk, h, d, on_delink).contains_key(h),
        delink_path(disk, h, d, on_delink)[h] == disk[d],
        on_delink == OnDelinkBehavior::Remove ==> !delink_path(disk, h, d, on_delink).contains_key(d),
        on_delink == OnDelinkBehavior::Keep ==> delink_path(disk, h, d, on_delink).contains_key(d)
            && delink_path(disk, h, d, on_delink)[d] == disk[d],
{
    if on_delink == OnDelinkBehavior::Remove {
        lemma_apply_three(disk, Op::Remove(h), Op::Copy(d, h), Op::Remove(d));
    } else {
        lemma_apply_two(disk, Op::Remove(h), Op::Copy(d, h));
    }
}

/// Delink reversibility: a linked path, delinked and synced again with no
/// edits in between, is linked again with its content unchanged. (With
/// `Keep` and `Skip` both sides keep equal content and the link stays off.)
pub proof fn lemma_delink_then_sync_relinks(
    disk: Map<Seq<char>, Node>,
    h: Seq<char>,
    d: Seq<char>,
    on_delink: OnDelinkBehavior,
    policy: DuplicateBehavior,
    home_wins: bool,
)
    requires
        distinct_places(h, d),
        is_linked(disk, h, d),
        !(on_delink == OnDelinkBehavior::Keep && policy == DuplicateBehavior::Skip),
    ensures
        is_linked(sync_path(delink_path(disk, h, d, on_delink), h, d, policy, home_wins), h, d),
        sync_path(delink_path(disk, h, d, on_delink), h, d, policy, home_wins)[d] == disk[d],
{
    lemma_backup_differs(h);
    lemma_delink_restores(disk, h, d, on_delink);
    let d1 = delink_path(disk, h, d, on_delink);
    let c = disk[d]->Content_0;
    assert(resolved(d1, h) == Some(c));
    if on_delink == OnDelinkBehavior::Remove {
        lemma_adoption_keeps_content(d1, h, d, policy, home_wins, c);
    } else {
        let p = probe_of(d1, h, d);
        assert(!is_linked(d1, h, d));
        assert(!is_broken_link(p));
        match policy {
            DuplicateBehavior::OverwriteHome => {
                assert(link_ops(h, d, p, policy) =~= dot_wins_ops(h, d));
                lemma_dot_wins(d1, h, d);
            },
            DuplicateBehavior::OverwriteDotfile => {
                assert(link_ops(h, d, p, policy) =~= home_wins_ops(h, d));
                lemma_home_wins(d1, h, d, c);
            },
            DuplicateBehavior::BackupHome => {
                assert(link_ops(h, d, p, policy) =~= backup_ops(h, d));
                lemma_apply_two(d1, Op::Move(h, backup_of(h)), Op::Link(d, h));
            },
            DuplicateBehavior::Ask => {
                assert(link_ops(h, d, p, policy) =~= Seq::<Op>::empty());
                if home_wins {
                    lemma_home_wins(d1, h, d, c);
                } else {
                    lemma_dot_wins(d1, h, d);
                }
            },
            DuplicateBehavior::Skip => {},
        }
    }
}


/// `OverwriteHome` on a conflict: home reads the dotfolder content through
/// its link, and no other name appears on disk (no backup).
pub proof fn lemma_overwrite_home_policy(disk: Map<Seq<char>, Node>, h: Seq<char>, d: Seq<char>)
    requires
        h != d,
        disk.contains_key(h) && disk[h] is Content,
        disk.contains_key(d) && disk[d] is Content,
    ensures
        is_linked(sync_path(disk, h, d, DuplicateBehavior::OverwriteHome, false), h, d),
        resolved(sync_path(disk, h, d, DuplicateBehavior::OverwriteHome, false), h) == resolved(disk, d),
        sync_path(disk, h, d, DuplicateBehavior::OverwriteHome, false).dom() == disk.dom(),
{
    let p = probe_of(disk, h, d);
    assert(link_ops(h, d, p, DuplicateBehavior::OverwriteHome) =~= dot_wins_ops(h, d));
    lemma_apply_two(disk, Op::Remove(h), Op::Link(d, h));
    assert(sync_path(disk, h, d, DuplicateBehavior::OverwriteHome, false).dom() =~= disk.dom());
}

/// `BackupHome` on a conflict: home's content moves to its backup name and
/// home reads the dotfolder content through its link.
pub proof fn lemma_backup_home_policy(disk: Map<Seq<char>, Node>, h: Seq<char>, d: Seq<char>)
    requires
        distinct_places(h, d),
        disk.contains_key(h) && disk[h] is Content,
        disk.contains_key(d) && disk[d] is Content,
    ensures
        is_linked(sync_path(disk, h, d, DuplicateBehavior::BackupHome, false), h, d),
        resolved(sync_path(disk, h, d, DuplicateBehavior::BackupHome, false), h) == resolved(disk, d),
        sync_path(disk, h, d, DuplicateBehavior::BackupHome, false).contains_key(backup_of(h)),
        sync_path(disk, h, d, DuplicateBehavior::BackupHome, false)[backup_of(h)] == disk[h],
{
    lemma_backup_differs(h);
    let p = probe_of(disk, h, d);
    assert(link_ops(h, d, p, DuplicateBehavior::BackupHome) =~= backup_ops(h, d));
    lemma_apply_two(disk, Op::Move(h, backup_of(h)), Op::Link(d, h));
}


/// The place that `op` creates, replaces or removes is `k`.
pub open spec fn op_writes(op: Op, k: Seq<char>) -> bool {
    match op {
        Op::Remove(p) => p == k,
        Op::Copy(_, b) => b == k,
        Op::Link(_, l) => l == k,
        Op::Move(a, b) => a == k || b == k,
    }
}

proof fn lemma_apply_frame(disk: Map<Seq<char>, Node>, ops: Seq<Op>, k: Seq<char>)
    requires
        forall|i: int| 0 <= i < ops.len() ==> !op_writes(#[trigger] ops[i], k),
    ensures
        apply_ops(disk, ops).contains_key(k) == disk.contains_key(k),
        disk.contains_key(k) ==> apply_ops(disk, ops)[k] == disk[k],
    decreases ops.len(),
{
    if ops.len() > 0 {
        assert(!op_writes(ops[0], k));
        assert forall|i: int| 0 <= i < ops.skip(1).len() implies !op_writes(#[trigger] ops.skip(1)[i], k) by {
            assert(ops.skip(1)[i] == ops[i + 1]);
        }
        lemma_apply_frame(apply_op(disk, ops[0]), ops.skip(1), k);
    }
}

/// Locality: a path's sync creates, replaces or removes nothing but its
/// home path, its dotfolder path and its backup name; every other entry of
/// the disk is as it was.
pub proof fn lemma_sync_path_frame(
    disk: Map<Seq<char>, Node>,
    h: Seq<char>,
    d: Seq<char>,
    policy: DuplicateBehavior,
    home_wins: bool,
    k: Seq<char>,
)
    requires
        k != h,
        k != d,
        k != backup_of(h),
    ensures
        sync_path(disk, h, d, policy, home_wins).contains_key(k) == disk.contains_key(k),
        disk.contains_key(k) ==> sync_path(disk, h, d, policy, home_wins)[k] == disk[k],
{
    let p = probe_of(disk, h, d);
    lemma_link_ops_frame(disk, h, d, p, policy, k);
    let after = apply_ops(disk, link_ops(h, d, p, policy));
    lemma_fix_frame(after, h, d, home_wins, k);
}

proof fn lemma_link_ops_frame(
    disk: Map<Seq<char>, Node>,
    h: Seq<char>,
    d: Seq<char>,
    p: PairProbe,
    policy: DuplicateBehavior,
    k: Seq<char>,
)
    requires
        k != h,
        k != d,
        k != backup_of(h),
    ensures
        agree(apply_ops(disk, link_ops(h, d, p, policy)), disk, k),
{
    let ops = link_ops(h, d, p, policy);
    assert forall|i: int| 0 <= i < ops.len() implies !op_writes(#[trigger] ops[i], k) by {
        let clear: Seq<Op> = if is_broken_link(p) {
            seq![Op::Remove(h)]
        } else {
            Seq::empty()
        };
        if i < clear.len() {
            assert(ops[i] == clear[i]);
        } else {
            let rest = ops.skip(clear.len() as int);
            assert(ops[i] == rest[i - clear.len()]);
        }
    }
    lemma_apply_frame(disk, ops, k);
}

/// The ops that settle a conflict, home winning or not.
pub open spec fn fix_ops(h: Seq<char>, d: Seq<char>, home_wins: bool) -> Seq<Op> {
    if home_wins {
        home_wins_ops(h, d)
    } else {
        dot_wins_ops(h, d)
    }
}

proof fn lemma_fix_frame(disk: Map<Seq<char>, Node>, h: Seq<char>, d: Seq<char>, home_wins: bool, k: Seq<char>)
    requires
        k != h,
        k != d,
    ensures
        agree(apply_ops(disk, fix_ops(h, d, home_wins)), disk, k),
{
    let fix = fix_ops(h, d, home_wins);
    assert forall|i: int| 0 <= i < fix.len() implies !op_writes(#[trigger] fix[i], k) by {}
    lemma_apply_frame(disk, fix, k);
}

/// Two disks hold the same at `k`.
pub open spec fn agree(a: Map<Seq<char>, Node>, b: Map<Seq<char>, Node>, k: Seq<char>) -> bool {
    &&& a.contains_key(k) == b.contains_key(k)
    &&& a.contains_key(k) ==> a[k] == b[k]
}

/// The places that one path's sync may touch.
pub open spec fn places(h: Seq<char>, d: Seq<char>) -> Set<Seq<char>> {
    set![h, d, backup_of(h)]
}

/// Where home's link on `disk` points, if home is a link.
pub open spec fn link_target(disk: Map<Seq<char>, Node>, h: Seq<char>) -> Option<Seq<char>> {
    if disk.contains_key(h) && disk[h] is Link {
        Some(disk[h]->Link_0)
    } else {
        None
    }
}

/// The declared pairs can be reconciled one by one without meeting: each
/// pair's places are told apart, no two pairs share a place, no home links
/// into another pair's places, and no dotfolder side is a link.
pub open spec fn independent(disk: Map<Seq<char>, Node>, pairs: Seq<(Seq<char>, Seq<char>)>) -> bool {
    &&& forall|i: int|
        0 <= i < pairs.len() ==> distinct_places(#[trigger] pairs[i].0, pairs[i].1) && dot_is_plain(
            disk,
            pairs[i].1,
        )
    &&& forall|i: int, j: int|
        0 <= i < pairs.len() && 0 <= j < pairs.len() && i != j ==> #[trigger] apart(pairs, i, j)
    &&& forall|i: int, j: int|
        0 <= i < pairs.len() && 0 <= j < pairs.len() && i != j ==> #[trigger] links_away(disk, pairs, i, j)
}

/// The `i`th and `j`th pairs share no place.
pub open spec fn apart(pairs: Seq<(Seq<char>, Seq<char>)>, i: int, j: int) -> bool {
    places(pairs[i].0, pairs[i].1).disjoint(places(pairs[j].0, pairs[j].1))
}

/// The `i`th home, where it is a link, points outside the `j`th pair's places.
pub open spec fn links_away(disk: Map<Seq<char>, Node>, pairs: Seq<(Seq<char>, Seq<char>)>, i: int, j: int) -> bool {
    link_target(disk, pairs[i].0) matches Some(t) ==> !places(pairs[j].0, pairs[j].1).contains(t)
}

/// The first half of `sync`: each declared path in order, probed as it is
/// reached, gets its planned operations.
pub open spec fn link_pass(
    disk: Map<Seq<char>, Node>,
    pairs: Seq<(Seq<char>, Seq<char>)>,
    policy: DuplicateBehavior,
) -> Map<Seq<char>, Node>
    decreases pairs.len(),
{
    if pairs.len() == 0 {
        disk
    } else {
        let prev = link_pass(disk, pairs.drop_last(), policy);
        let (h, d) = pairs.last();
        apply_ops(prev, link_ops(h, d, probe_of(prev, h, d), policy))
    }
}

/// The `i`th path was deferred to the user when the first half reached it.
pub open spec fn deferred_at(
    disk: Map<Seq<char>, Node>,
    pairs: Seq<(Seq<char>, Seq<char>)>,
    policy: DuplicateBehavior,
    i: int,
) -> bool {
    link_outcome(probe_of(link_pass(disk, pairs.take(i), policy), pairs[i].0, pairs[i].1), policy)
        == LinkOutcome::Deferred
}

/// The second half of `sync`, over the first `n` paths: each deferred path
/// is settled by the user's pick for it.
pub open spec fn resolve_pass(
    mid: Map<Seq<char>, Node>,
    disk: Map<Seq<char>, Node>,
    pairs: Seq<(Seq<char>, Seq<char>)>,
    policy: DuplicateBehavior,
    picks: Seq<bool>,
    n: nat,
) -> Map<Seq<char>, Node>
    decreases n,
{
    if n == 0 {
        mid
    } else {
        let prev = resolve_pass(mid, disk, pairs, policy, picks, (n - 1) as nat);
        let i = n - 1;
        if deferred_at(disk, pairs, policy, i) {
            apply_ops(prev, fix_ops(pairs[i].0, pairs[i].1, picks[i]))
        } else {
            prev
        }
    }
}

/// A whole `sync` run over the declared pairs, after the removed paths are
/// delinked: the link pass, then the settling of deferred conflicts.
pub open spec fn sync_run(
    disk: Map<Seq<char>, Node>,
    pairs: Seq<(Seq<char>, Seq<char>)>,
    policy: DuplicateBehavior,
    picks: Seq<bool>,
) -> Map<Seq<char>, Node> {
    resolve_pass(link_pass(disk, pairs, policy), disk, pairs, policy, picks, pairs.len())
}

/// What the `i`th path's probe shows on the disk before the run.
pub open spec fn first_outcome(
    disk: Map<Seq<char>, Node>,
    pairs: Seq<(Seq<char>, Seq<char>)>,
    policy: DuplicateBehavior,
    i: int,
) -> LinkOutcome {
    link_outcome(probe_of(disk, pairs[i].0, pairs[i].1), policy)
}

proof fn lemma_probe_agree(a: Map<Seq<char>, Node>, b: Map<Seq<char>, Node>, h: Seq<char>, d: Seq<char>)
    requires
        agree(a, b, h),
        agree(a, b, d),
        link_target(b, h) matches Some(t) ==> agree(a, b, t),
        dot_is_plain(b, d),
    ensures
        probe_of(a, h, d) == probe_of(b, h, d),
{
    assert(resolved(a, h) == resolved(b, h));
    assert(resolved(a, d) == resolved(b, d));
    assert(is_linked(a, h, d) == is_linked(b, h, d));
}

/// The run leaves a path with this outcome as it found it, until
/// conflicts are settled.
pub open spec fn left_alone(o: LinkOutcome) -> bool {
    o == LinkOutcome::Deferred || o == LinkOutcome::Skipped
}

/// The `i`th pair may touch `x`.
pub open spec fn in_places(pairs: Seq<(Seq<char>, Seq<char>)>, i: int, x: Seq<char>) -> bool {
    places(pairs[i].0, pairs[i].1).contains(x)
}

/// No pair before the `k`th may touch `x`.
pub open spec fn outside_first(pairs: Seq<(Seq<char>, Seq<char>)>, k: int, x: Seq<char>) -> bool {
    forall|i: int| 0 <= i < k ==> !(#[trigger] places(pairs[i].0, pairs[i].1)).contains(x)
}

proof fn lemma_agree_trans(a: Map<Seq<char>, Node>, b: Map<Seq<char>, Node>, c: Map<Seq<char>, Node>, x: Seq<char>)
    requires
        agree(a, b, x),
        agree(b, c, x),
    ensures
        agree(a, c, x),
{
}

proof fn lemma_linked_agree(a: Map<Seq<char>, Node>, b: Map<Seq<char>, Node>, h: Seq<char>, d: Seq<char>)
    requires
        agree(a, b, h),
        agree(a, b, d),
        is_linked(b, h, d),
    ensures
        is_linked(a, h, d),
{
}

/// What the first half of the run leaves after `k` paths: places no pair
/// has reached are as before, each reached path that was not skipped,
/// missing or deferred is linked, each deferred path's places are as
/// before, and each path was probed as it stood before the run.
proof fn lemma_link_pass(
    disk: Map<Seq<char>, Node>,
    pairs: Seq<(Seq<char>, Seq<char>)>,
    policy: DuplicateBehavior,
    k: int,
)
    requires
        independent(disk, pairs),
        0 <= k <= pairs.len(),
    ensures
        forall|x: Seq<char>| #[trigger] outside_first(pairs, k, x) ==> agree(link_pass(disk, pairs.take(k), policy), disk, x),
        forall|i: int|
            0 <= i < k && first_outcome(disk, pairs, policy, i) != LinkOutcome::Skipped && first_outcome(
                disk,
                pairs,
                policy,
                i,
            ) != LinkOutcome::Missing && first_outcome(disk, pairs, policy, i) != LinkOutcome::Deferred
                ==> is_linked(link_pass(disk, pairs.take(k), policy), #[trigger] pairs[i].0, pairs[i].1),
        forall|i: int, x: Seq<char>|
            0 <= i < k && left_alone(first_outcome(disk, pairs, policy, i)) && #[trigger] in_places(
                pairs,
                i,
                x,
            ) ==> agree(link_pass(disk, pairs.take(k), policy), disk, x),
        forall|i: int|
            0 <= i < k && first_outcome(disk, pairs, policy, i) == LinkOutcome::Missing ==> !link_pass(
                disk,
                pairs.take(k),
                policy,
            ).contains_key(#[trigger] pairs[i].0) && !link_pass(disk, pairs.take(k), policy).contains_key(
                pairs[i].1,
            ),
        forall|i: int|
            0 <= i < k ==> probe_of(link_pass(disk, #[trigger] pairs.take(i), policy), pairs[i].0, pairs[i].1)
                == probe_of(disk, pairs[i].0, pairs[i].1),
        forall|i: int, x: Seq<char>|
            0 <= i < k && #[trigger] in_places(pairs, i, x) ==> agree(
                link_pass(disk, pairs.take(k), policy),
                link_pass(disk, pairs.take(i + 1), policy),
                x,
            ),
    decreases k,
{
    if k == 0 {
        assert(pairs.take(0) =~= Seq::<(Seq<char>, Seq<char>)>::empty());
        return;
    }
    let j = k - 1;
    lemma_link_pass(disk, pairs, policy, j);
    let prev = link_pass(disk, pairs.take(j), policy);
    let h = pairs[j].0;
    let d = pairs[j].1;
    assert(pairs.take(k).drop_last() =~= pairs.take(j));
    assert(pairs.take(k).last() == pairs[j]);
    let r = link_pass(disk, pairs.take(k), policy);
    assert(distinct_places(pairs[j].0, pairs[j].1));
    assert(dot_is_plain(disk, d));
    assert forall|i: int| 0 <= i < j implies !(#[trigger] places(pairs[i].0, pairs[i].1)).contains(h) && !places(
        pairs[i].0,
        pairs[i].1,
    ).contains(d) by {
        assert(apart(pairs, i, j));
        assert(places(h, d).contains(h));
        assert(places(h, d).contains(d));
    }
    assert(outside_first(pairs, j, h));
    assert(outside_first(pairs, j, d));
    if let Some(t) = link_target(disk, h) {
        assert forall|i: int| 0 <= i < j implies !(#[trigger] places(pairs[i].0, pairs[i].1)).contains(t) by {
            assert(links_away(disk, pairs, j, i));
        }
        assert(outside_first(pairs, j, t));
    }
    lemma_probe_agree(prev, disk, h, d);
    let p = probe_of(disk, h, d);
    assert(r == apply_ops(prev, link_ops(h, d, p, policy)));
    let o = link_outcome(p, policy);
    assert(dot_is_plain(prev, d));
    lemma_sync_path_cases(prev, h, d, policy, true);
    if left_alone(o) {
        assert(link_ops(h, d, p, policy) =~= Seq::<Op>::empty());
        assert(r == prev);
    }
    if o == LinkOutcome::Missing {
        assert(!prev.contains_key(d));
        if is_broken_link(p) {
            assert(link_ops(h, d, p, policy) =~= seq![Op::Remove(h)]);
            lemma_apply_one(prev, Op::Remove(h));
        } else {
            assert(link_ops(h, d, p, policy) =~= Seq::<Op>::empty());
            assert(!prev.contains_key(h));
        }
    }
    // Places outside the `j`th pair keep what the earlier steps left.
    assert forall|x: Seq<char>| !places(h, d).contains(x) implies agree(r, prev, x) by {
        assert(x != h && x != d && x != backup_of(h));
        lemma_link_ops_frame(prev, h, d, p, policy, x);
    }
    assert forall|x: Seq<char>| #[trigger] outside_first(pairs, k, x) implies agree(r, disk, x) by {
        assert(!places(pairs[j].0, pairs[j].1).contains(x));
        assert(outside_first(pairs, j, x));
        lemma_agree_trans(r, prev, disk, x);
    }
    assert forall|i: int|
        0 <= i < k && first_outcome(disk, pairs, policy, i) != LinkOutcome::Skipped && first_outcome(
            disk,
            pairs,
            policy,
            i,
        ) != LinkOutcome::Missing && first_outcome(disk, pairs, policy, i) != LinkOutcome::Deferred implies is_linked(
        r,
        #[trigger] pairs[i].0,
        pairs[i].1,
    ) by {
        if i < j {
            assert(apart(pairs, i, j));
            assert(places(pairs[i].0, pairs[i].1).contains(pairs[i].0));
            assert(places(pairs[i].0, pairs[i].1).contains(pairs[i].1));
            lemma_linked_agree(r, prev, pairs[i].0, pairs[i].1);
        }
    }
    assert forall|i: int, x: Seq<char>|
        0 <= i < k && left_alone(first_outcome(disk, pairs, policy, i)) && #[trigger] in_places(
            pairs,
            i,
            x,
        ) implies agree(r, disk, x) by {
        if i < j {
            assert(apart(pairs, i, j));
            lemma_agree_trans(r, prev, disk, x);
        } else {
            assert forall|m: int| 0 <= m < j implies !(#[trigger] places(pairs[m].0, pairs[m].1)).contains(x) by {
                assert(apart(pairs, m, j));
            }
            assert(outside_first(pairs, j, x));
        }
    }
    assert forall|i: int, x: Seq<char>| 0 <= i < k && #[trigger] in_places(pairs, i, x) implies agree(
        r,
        link_pass(disk, pairs.take(i + 1), policy),
        x,
    ) by {
        if i < j {
            assert(apart(pairs, i, j));
            lemma_agree_trans(r, prev, link_pass(disk, pairs.take(i + 1), policy), x);
        }
    }
    assert forall|i: int|
        0 <= i < k && first_outcome(disk, pairs, policy, i) == LinkOutcome::Missing implies !r.contains_key(
        #[trigger] pairs[i].0,
    ) && !r.contains_key(pairs[i].1) by {
        if i < j {
            assert(apart(pairs, i, j));
            assert(places(pairs[i].0, pairs[i].1).contains(pairs[i].0));
            assert(places(pairs[i].0, pairs[i].1).contains(pairs[i].1));
            assert(agree(r, prev, pairs[i].0));
            assert(agree(r, prev, pairs[i].1));
        }
    }
}

/// What the second half leaves after settling among the first `n` paths:
/// places those paths may not touch are as the first half left them, and
/// each of them that was not skipped or missing is linked.
proof fn lemma_resolve_pass(
    disk: Map<Seq<char>, Node>,
    pairs: Seq<(Seq<char>, Seq<char>)>,
    policy: DuplicateBehavior,
    picks: Seq<bool>,
    n: nat,
)
    requires
        independent(disk, pairs),
        n <= pairs.len(),
        picks.len() == pairs.len(),
    ensures
        forall|x: Seq<char>|
            #[trigger] outside_first(pairs, n as int, x) ==> agree(
                resolve_pass(link_pass(disk, pairs, policy), disk, pairs, policy, picks, n),
                link_pass(disk, pairs, policy),
                x,
            ),
        forall|i: int|
            0 <= i < n && first_outcome(disk, pairs, policy, i) != LinkOutcome::Skipped && first_outcome(
                disk,
                pairs,
                policy,
                i,
            ) != LinkOutcome::Missing ==> is_linked(
                resolve_pass(link_pass(disk, pairs, policy), disk, pairs, policy, picks, n),
                #[trigger] pairs[i].0,
                pairs[i].1,
            ),
        forall|i: int, x: Seq<char>|
            0 <= i < pairs.len() && first_outcome(disk, pairs, policy, i) != LinkOutcome::Deferred
                && #[trigger] in_places(pairs, i, x) ==> agree(
                resolve_pass(link_pass(disk, pairs, policy), disk, pairs, policy, picks, n),
                link_pass(disk, pairs, policy),
                x,
            ),
        forall|i: int, x: Seq<char>|
            0 <= i < n && #[trigger] in_places(pairs, i, x) ==> agree(
                resolve_pass(link_pass(disk, pairs, policy), disk, pairs, policy, picks, n),
                resolve_pass(link_pass(disk, pairs, policy), disk, pairs, policy, picks, (i + 1) as nat),
                x,
            ),
    decreases n,
{
    let lp = link_pass(disk, pairs, policy);
    lemma_link_pass(disk, pairs, policy, pairs.len() as int);
    assert(pairs.take(pairs.len() as int) =~= pairs);
    if n == 0 {
        return;
    }
    let j = n - 1;
    lemma_resolve_pass(disk, pairs, policy, picks, (n - 1) as nat);
    let prev = resolve_pass(lp, disk, pairs, policy, picks, (n - 1) as nat);
    let r = resolve_pass(lp, disk, pairs, policy, picks, n);
    let h = pairs[j].0;
    let d = pairs[j].1;
    assert(distinct_places(pairs[j].0, pairs[j].1));
    assert(dot_is_plain(disk, d));
    assert(probe_of(link_pass(disk, pairs.take(j), policy), pairs[j].0, pairs[j].1) == probe_of(disk, h, d));
    let o = first_outcome(disk, pairs, policy, j);
    assert(deferred_at(disk, pairs, policy, j) == (o == LinkOutcome::Deferred));
    assert(places(h, d).contains(h) && places(h, d).contains(d));
    assert forall|i: int| 0 <= i < j implies !(#[trigger] places(pairs[i].0, pairs[i].1)).contains(h) && !places(
        pairs[i].0,
        pairs[i].1,
    ).contains(d) by {
        assert(apart(pairs, i, j));
    }
    assert(outside_first(pairs, j, h));
    assert(outside_first(pairs, j, d));
    if o == LinkOutcome::Deferred {
        // Home, the dotfolder side and home's link target stand as before the run.
        assert(in_places(pairs, j, h) && in_places(pairs, j, d));
        lemma_agree_trans(prev, lp, disk, h);
        lemma_agree_trans(prev, lp, disk, d);
        if let Some(t) = link_target(disk, h) {
            assert forall|i: int| 0 <= i < pairs.len() && i != j implies !(#[trigger] places(
                pairs[i].0,
                pairs[i].1,
            )).contains(t) by {
                assert(links_away(disk, pairs, j, i));
            }
            assert(outside_first(pairs, j, t));
            if in_places(pairs, j, t) {
                assert(agree(lp, disk, t));
            } else {
                assert(outside_first(pairs, pairs.len() as int, t));
                assert(agree(lp, disk, t));
            }
            lemma_agree_trans(prev, lp, disk, t);
        }
        lemma_probe_agree(prev, disk, h, d);
        assert(dot_is_plain(prev, d));
        if picks[j] {
            let c = resolved(prev, h)->Some_0;
            lemma_home_wins(prev, h, d, c);
        } else {
            lemma_dot_wins(prev, h, d);
        }
        assert(r == apply_ops(prev, fix_ops(h, d, picks[j])));
        assert forall|x: Seq<char>| x != h && x != d implies agree(r, prev, x) by {
            lemma_fix_frame(prev, h, d, picks[j], x);
        }
    } else {
        assert(r == prev);
        if o != LinkOutcome::Skipped && o != LinkOutcome::Missing {
            assert(is_linked(lp, h, d));
            lemma_linked_agree(prev, lp, h, d);
        }
    }
    assert forall|x: Seq<char>| #[trigger] outside_first(pairs, n as int, x) implies agree(r, lp, x) by {
        assert(!places(pairs[j].0, pairs[j].1).contains(x));
        assert(outside_first(pairs, j, x));
        if o == LinkOutcome::Deferred {
            lemma_agree_trans(r, prev, lp, x);
        }
    }
    assert forall|i: int|
        0 <= i < n && first_outcome(disk, pairs, policy, i) != LinkOutcome::Skipped && first_outcome(
            disk,
            pairs,
            policy,
            i,
        ) != LinkOutcome::Missing implies is_linked(r, #[trigger] pairs[i].0, pairs[i].1) by {
        if i < j && o == LinkOutcome::Deferred {
            assert(apart(pairs, i, j));
            assert(places(pairs[i].0, pairs[i].1).contains(pairs[i].0));
            assert(places(pairs[i].0, pairs[i].1).contains(pairs[i].1));
            lemma_linked_agree(r, prev, pairs[i].0, pairs[i].1);
        }
    }    assert forall|i: int, x: Seq<char>| 0 <= i < n && #[trigger] in_places(pairs, i, x) implies agree(
        r,
        resolve_pass(lp, disk, pairs, policy, picks, (i + 1) as nat),
        x,
    ) by {
        if i < j {
            if o == LinkOutcome::Deferred {
                assert(apart(pairs, i, j));
            }
            lemma_agree_trans(r, prev, resolve_pass(lp, disk, pairs, policy, picks, (i + 1) as nat), x);
        }
    }
    assert forall|i: int, x: Seq<char>|
        0 <= i < pairs.len() && first_outcome(disk, pairs, policy, i) != LinkOutcome::Deferred
            && #[trigger] in_places(pairs, i, x) implies agree(r, lp, x) by {
        if o == LinkOutcome::Deferred {
            assert(i != j);
            assert(apart(pairs, i, j));
            lemma_agree_trans(r, prev, lp, x);
        }
    }
}

/// Convergence of a whole run: after `sync` over independent declared
/// pairs, with conflicts settled after the loop by the user's picks, every
/// path is linked but those that the `Skip` policy left in conflict and
/// those that exist on neither side.
pub proof fn lemma_sync_run_converges(
    disk: Map<Seq<char>, Node>,
    pairs: Seq<(Seq<char>, Seq<char>)>,
    policy: DuplicateBehavior,
    picks: Seq<bool>,
)
    requires
        independent(disk, pairs),
        picks.len() == pairs.len(),
    ensures
        forall|i: int|
            0 <= i < pairs.len() && first_outcome(disk, pairs, policy, i) != LinkOutcome::Skipped
                && first_outcome(disk, pairs, policy, i) != LinkOutcome::Missing ==> is_linked(
                sync_run(disk, pairs, policy, picks),
                #[trigger] pairs[i].0,
                pairs[i].1,
            ),
{
    lemma_resolve_pass(disk, pairs, policy, picks, pairs.len());
}

/// On `disk`, no declared path would get an operation or be deferred.
pub open spec fn at_rest(
    disk: Map<Seq<char>, Node>,
    pairs: Seq<(Seq<char>, Seq<char>)>,
    policy: DuplicateBehavior,
) -> bool {
    forall|i: int|
        0 <= i < pairs.len() ==> link_ops(
            pairs[i].0,
            pairs[i].1,
            #[trigger] probe_of(disk, pairs[i].0, pairs[i].1),
            policy,
        ).len() == 0 && link_outcome(probe_of(disk, pairs[i].0, pairs[i].1), policy)
            != LinkOutcome::Deferred
}

proof fn lemma_rest_link_pass(
    disk: Map<Seq<char>, Node>,
    pairs: Seq<(Seq<char>, Seq<char>)>,
    policy: DuplicateBehavior,
    k: int,
)
    requires
        at_rest(disk, pairs, policy),
        0 <= k <= pairs.len(),
    ensures
        link_pass(disk, pairs.take(k), policy) == disk,
    decreases k,
{
    if k == 0 {
        assert(pairs.take(0) =~= Seq::<(Seq<char>, Seq<char>)>::empty());
    } else {
        lemma_rest_link_pass(disk, pairs, policy, k - 1);
        assert(pairs.take(k).drop_last() =~= pairs.take(k - 1));
        assert(pairs.take(k).last() == pairs[k - 1]);
        let ops = link_ops(pairs[k - 1].0, pairs[k - 1].1, probe_of(disk, pairs[k - 1].0, pairs[k - 1].1), policy);
        assert(ops =~= Seq::<Op>::empty());
    }
}

proof fn lemma_rest_resolve_pass(
    disk: Map<Seq<char>, Node>,
    pairs: Seq<(Seq<char>, Seq<char>)>,
    policy: DuplicateBehavior,
    picks: Seq<bool>,
    n: nat,
)
    requires
        at_rest(disk, pairs, policy),
        n <= pairs.len(),
    ensures
        resolve_pass(disk, disk, pairs, policy, picks, n) == disk,
    decreases n,
{
    if n > 0 {
        lemma_rest_resolve_pass(disk, pairs, policy, picks, (n - 1) as nat);
        lemma_rest_link_pass(disk, pairs, policy, n - 1);
        assert(!deferred_at(disk, pairs, policy, n - 1));
    }
}

/// What a run leaves of one declared pair: a plain dotfolder side, home's
/// link (if any) pointing at its dotfolder side or where it pointed before,
/// and nothing more to do.
proof fn lemma_run_pair(
    disk: Map<Seq<char>, Node>,
    pairs: Seq<(Seq<char>, Seq<char>)>,
    policy: DuplicateBehavior,
    picks: Seq<bool>,
    i: int,
)
    requires
        independent(disk, pairs),
        picks.len() == pairs.len(),
        0 <= i < pairs.len(),
    ensures
        dot_is_plain(sync_run(disk, pairs, policy, picks), pairs[i].1),
        link_target(sync_run(disk, pairs, policy, picks), pairs[i].0) matches Some(t) ==> t == pairs[i].1
            || link_target(disk, pairs[i].0) == Some(t),
        link_ops(
            pairs[i].0,
            pairs[i].1,
            probe_of(sync_run(disk, pairs, policy, picks), pairs[i].0, pairs[i].1),
            policy,
        ).len() == 0,
        link_outcome(probe_of(sync_run(disk, pairs, policy, picks), pairs[i].0, pairs[i].1), policy)
            != LinkOutcome::Deferred,
{
    let lp = link_pass(disk, pairs, policy);
    let d1 = sync_run(disk, pairs, policy, picks);
    lemma_link_pass(disk, pairs, policy, pairs.len() as int);
    assert(pairs.take(pairs.len() as int) =~= pairs);
    lemma_resolve_pass(disk, pairs, policy, picks, pairs.len());
    let h = pairs[i].0;
    let d = pairs[i].1;
    let o = first_outcome(disk, pairs, policy, i);
    let settled = probe_of(d1, h, d);
    assert(distinct_places(pairs[i].0, pairs[i].1));
    assert(dot_is_plain(disk, d));
    assert(in_places(pairs, i, h) && in_places(pairs, i, d));
    if o == LinkOutcome::Skipped {
        lemma_agree_trans(d1, lp, disk, h);
        lemma_agree_trans(d1, lp, disk, d);
        if let Some(t) = link_target(disk, h) {
            if in_places(pairs, i, t) {
                lemma_agree_trans(d1, lp, disk, t);
            } else {
                assert forall|m: int| 0 <= m < pairs.len() implies !(#[trigger] places(
                    pairs[m].0,
                    pairs[m].1,
                )).contains(t) by {
                    if m != i {
                        assert(links_away(disk, pairs, i, m));
                    }
                }
                assert(outside_first(pairs, pairs.len() as int, t));
                lemma_agree_trans(d1, lp, disk, t);
            }
        }
        lemma_probe_agree(d1, disk, h, d);
        assert(link_ops(h, d, settled, policy) =~= Seq::<Op>::empty());
    } else if o == LinkOutcome::Missing {
        assert(!d1.contains_key(h) && !d1.contains_key(d));
        assert(link_ops(h, d, settled, policy) =~= Seq::<Op>::empty());
    } else {
        assert(is_linked(d1, h, d));
        assert(link_ops(h, d, settled, policy) =~= Seq::<Op>::empty());
    }
}

/// A run leaves the pairs independent and at rest.
proof fn lemma_run_at_rest(
    disk: Map<Seq<char>, Node>,
    pairs: Seq<(Seq<char>, Seq<char>)>,
    policy: DuplicateBehavior,
    picks: Seq<bool>,
)
    requires
        independent(disk, pairs),
        picks.len() == pairs.len(),
    ensures
        independent(sync_run(disk, pairs, policy, picks), pairs),
        at_rest(sync_run(disk, pairs, policy, picks), pairs, policy),
{
    let d1 = sync_run(disk, pairs, policy, picks);
    assert forall|i: int| 0 <= i < pairs.len() implies link_ops(
        pairs[i].0,
        pairs[i].1,
        #[trigger] probe_of(d1, pairs[i].0, pairs[i].1),
        policy,
    ).len() == 0 && link_outcome(probe_of(d1, pairs[i].0, pairs[i].1), policy) != LinkOutcome::Deferred by {
        lemma_run_pair(disk, pairs, policy, picks, i);
    }
    assert forall|i: int, j: int|
        0 <= i < pairs.len() && 0 <= j < pairs.len() && i != j implies #[trigger] links_away(d1, pairs, i, j) by {
        lemma_run_pair(disk, pairs, policy, picks, i);
        assert(links_away(disk, pairs, i, j));
        assert(apart(pairs, i, j));
        assert(places(pairs[i].0, pairs[i].1).contains(pairs[i].1));
    }
    assert forall|i: int| 0 <= i < pairs.len() implies distinct_places(#[trigger] pairs[i].0, pairs[i].1)
        && dot_is_plain(d1, pairs[i].1) by {
        lemma_run_pair(disk, pairs, policy, picks, i);
    }
    assert forall|i: int, j: int|
        0 <= i < pairs.len() && 0 <= j < pairs.len() && i != j implies #[trigger] apart(pairs, i, j) by {}
}

/// Idempotence of a whole run: a second `sync` over independent declared
/// pairs, with nothing changed in between, leaves the disk exactly as the
/// first left it, whatever the user picks either time.
pub proof fn lemma_sync_run_idempotent(
    disk: Map<Seq<char>, Node>,
    pairs: Seq<(Seq<char>, Seq<char>)>,
    policy: DuplicateBehavior,
    first_picks: Seq<bool>,
    second_picks: Seq<bool>,
)
    requires
        independent(disk, pairs),
        first_picks.len() == pairs.len(),
        second_picks.len() == pairs.len(),
    ensures
        sync_run(sync_run(disk, pairs, policy, first_picks), pairs, policy, second_picks) == sync_run(
            disk,
            pairs,
            policy,
            first_picks,
        ),
{
    let d1 = sync_run(disk, pairs, policy, first_picks);
    lemma_run_at_rest(disk, pairs, policy, first_picks);
    lemma_rest_link_pass(d1, pairs, policy, pairs.len() as int);
    assert(pairs.take(pairs.len() as int) =~= pairs);
    lemma_rest_resolve_pass(d1, pairs, policy, second_picks, pairs.len());
}

/// A run over `pairs` leaves every place that none of them may touch as it was.
proof fn lemma_sync_run_frame(
    disk: Map<Seq<char>, Node>,
    pairs: Seq<(Seq<char>, Seq<char>)>,
    policy: DuplicateBehavior,
    picks: Seq<bool>,
    x: Seq<char>,
)
    requires
        independent(disk, pairs),
        picks.len() == pairs.len(),
        outside_first(pairs, pairs.len() as int, x),
    ensures
        agree(sync_run(disk, pairs, policy, picks), disk, x),
{
    lemma_link_pass(disk, pairs, policy, pairs.len() as int);
    assert(pairs.take(pairs.len() as int) =~= pairs);
    lemma_resolve_pass(disk, pairs, policy, picks, pairs.len());
    lemma_agree_trans(sync_run(disk, pairs, policy, picks), link_pass(disk, pairs, policy), disk, x);
}

/// Removal reconciliation: with `A` and `B` linked, `B` dropped from the
/// declaration, the next sync delinks `B` first and then syncs `A`. `B` is
/// a plain entry again with its content; its dotfolder copy is gone under
/// `Remove` and kept under `Keep`; `A` stays linked.
pub proof fn lemma_removal_reconciliation(
    disk: Map<Seq<char>, Node>,
    a: (Seq<char>, Seq<char>),
    b: (Seq<char>, Seq<char>),
    on_delink: OnDelinkBehavior,
    policy: DuplicateBehavior,
    picks: Seq<bool>,
)
    requires
        distinct_places(a.0, a.1),
        distinct_places(b.0, b.1),
        places(a.0, a.1).disjoint(places(b.0, b.1)),
        is_linked(disk, a.0, a.1),
        is_linked(disk, b.0, b.1),
        picks.len() == 1,
    ensures
        ({
            let after = sync_run(delink_path(disk, b.0, b.1, on_delink), seq![a], policy, picks);
            &&& after.contains_key(b.0) && after[b.0] == disk[b.1]
            &&& on_delink == OnDelinkBehavior::Remove ==> !after.contains_key(b.1)
            &&& on_delink == OnDelinkBehavior::Keep ==> after.contains_key(b.1) && after[b.1] == disk[b.1]
            &&& is_linked(after, a.0, a.1)
        }),
{
    let (ha, da) = a;
    let (hb, db) = b;
    let mid = delink_path(disk, hb, db, on_delink);
    let pairs = seq![a];
    lemma_delink_restores(disk, hb, db, on_delink);
    let ops = delink_ops(hb, db, probe_of(disk, hb, db), on_delink);
    assert(places(ha, da).contains(ha) && places(ha, da).contains(da));
    assert forall|x: Seq<char>| x != hb && x != db implies agree(mid, disk, x) by {
        assert forall|i: int| 0 <= i < ops.len() implies !op_writes(#[trigger] ops[i], x) by {}
        lemma_apply_frame(disk, ops, x);
    }
    assert(agree(mid, disk, ha) && agree(mid, disk, da));
    assert(pairs[0] == a);
    assert(independent(mid, pairs)) by {
        assert forall|i: int| 0 <= i < pairs.len() implies distinct_places(#[trigger] pairs[i].0, pairs[i].1)
            && dot_is_plain(mid, pairs[i].1) by {}
    }
    lemma_probe_agree(mid, disk, ha, da);
    assert(first_outcome(mid, pairs, policy, 0) == LinkOutcome::AlreadyLinked);
    lemma_sync_run_converges(mid, pairs, policy, picks);
    assert forall|x: Seq<char>| x == hb || x == db implies outside_first(pairs, 1, x) by {
        assert(places(hb, db).contains(hb) && places(hb, db).contains(db));
        assert forall|i: int| 0 <= i < 1 implies !(#[trigger] places(pairs[i].0, pairs[i].1)).contains(x) by {}
    }
    lemma_sync_run_frame(mid, pairs, policy, picks, hb);
    lemma_sync_run_frame(mid, pairs, policy, picks, db);
}

/// The step of the link pass that reaches a path just delinked relinks it
/// with its content, or defers it (with both sides holding that content).
proof fn lemma_relink_step(
    t: Map<Seq<char>, Node>,
    h: Seq<char>,
    d: Seq<char>,
    on_delink: OnDelinkBehavior,
    policy: DuplicateBehavior,
    c: int,
)
    requires
        distinct_places(h, d),
        t.contains_key(h) && t[h] == Node::Content(c),
        on_delink == OnDelinkBehavior::Remove ==> !t.contains_key(d),
        on_delink == OnDelinkBehavior::Keep ==> t.contains_key(d) && t[d] == Node::Content(c),
        !(on_delink == OnDelinkBehavior::Keep && policy == DuplicateBehavior::Skip),
    ensures
        link_outcome(probe_of(t, h, d), policy) == LinkOutcome::Deferred ==> on_delink == OnDelinkBehavior::Keep,
        link_outcome(probe_of(t, h, d), policy) != LinkOutcome::Deferred ==> {
            let r = apply_ops(t, link_ops(h, d, probe_of(t, h, d), policy));
            is_linked(r, h, d) && r[d] == Node::Content(c)
        },
{
    lemma_backup_differs(h);
    let p = probe_of(t, h, d);
    if on_delink == OnDelinkBehavior::Remove {
        lemma_adoption_keeps_content(t, h, d, policy, true, c);
    } else {
        assert(!is_linked(t, h, d));
        assert(!is_broken_link(p));
        match policy {
            DuplicateBehavior::OverwriteHome => {
                assert(link_ops(h, d, p, policy) =~= dot_wins_ops(h, d));
                lemma_dot_wins(t, h, d);
            },
            DuplicateBehavior::OverwriteDotfile => {
                assert(link_ops(h, d, p, policy) =~= home_wins_ops(h, d));
                lemma_home_wins(t, h, d, c);
            },
            DuplicateBehavior::BackupHome => {
                assert(link_ops(h, d, p, policy) =~= backup_ops(h, d));
                lemma_apply_two(t, Op::Move(h, backup_of(h)), Op::Link(d, h));
            },
            _ => {},
        }
    }
}

/// Delink reversibility over a whole run: among independent declared
/// pairs, a linked path delinked and then synced with everything else, with
/// no edits in between, is linked again with its content unchanged. (With
/// `Keep` and `Skip` both sides keep equal content and the link stays off.)
pub proof fn lemma_delink_then_sync_run_relinks(
    disk: Map<Seq<char>, Node>,
    pairs: Seq<(Seq<char>, Seq<char>)>,
    i: int,
    on_delink: OnDelinkBehavior,
    policy: DuplicateBehavior,
    picks: Seq<bool>,
)
    requires
        independent(disk, pairs),
        0 <= i < pairs.len(),
        is_linked(disk, pairs[i].0, pairs[i].1),
        !(on_delink == OnDelinkBehavior::Keep && policy == DuplicateBehavior::Skip),
        picks.len() == pairs.len(),
    ensures
        is_linked(
            sync_run(delink_path(disk, pairs[i].0, pairs[i].1, on_delink), pairs, policy, picks),
            pairs[i].0,
            pairs[i].1,
        ),
        sync_run(delink_path(disk, pairs[i].0, pairs[i].1, on_delink), pairs, policy, picks)[pairs[i].1]
            == disk[pairs[i].1],
{
    let h = pairs[i].0;
    let d = pairs[i].1;
    let c = disk[d]->Content_0;
    let mid = delink_path(disk, h, d, on_delink);
    assert(distinct_places(pairs[i].0, pairs[i].1));
    lemma_delink_restores(disk, h, d, on_delink);
    let dops = delink_ops(h, d, probe_of(disk, h, d), on_delink);
    assert forall|x: Seq<char>| x != h && x != d implies agree(mid, disk, x) by {
        assert forall|m: int| 0 <= m < dops.len() implies !op_writes(#[trigger] dops[m], x) by {}
        lemma_apply_frame(disk, dops, x);
    }
    assert(places(h, d).contains(h) && places(h, d).contains(d));
    // The pairs stay independent once the path is delinked.
    assert forall|j: int| 0 <= j < pairs.len() implies distinct_places(#[trigger] pairs[j].0, pairs[j].1)
        && dot_is_plain(mid, pairs[j].1) by {
        if j != i {
            assert(apart(pairs, i, j));
            assert(places(pairs[j].0, pairs[j].1).contains(pairs[j].1));
            assert(agree(mid, disk, pairs[j].1));
        }
    }
    assert forall|j: int, m: int|
        0 <= j < pairs.len() && 0 <= m < pairs.len() && j != m implies #[trigger] links_away(mid, pairs, j, m) by {
        assert(links_away(disk, pairs, j, m));
        if j != i {
            assert(apart(pairs, i, j));
            assert(places(pairs[j].0, pairs[j].1).contains(pairs[j].0));
            assert(agree(mid, disk, pairs[j].0));
        }
    }
    assert forall|j: int, m: int|
        0 <= j < pairs.len() && 0 <= m < pairs.len() && j != m implies #[trigger] apart(pairs, j, m) by {}
    assert(independent(mid, pairs));
    // The state the link pass meets at this path.
    lemma_link_pass(mid, pairs, policy, i);
    lemma_link_pass(mid, pairs, policy, pairs.len() as int);
    assert(pairs.take(pairs.len() as int) =~= pairs);
    lemma_resolve_pass(mid, pairs, policy, picks, pairs.len());
    let t = link_pass(mid, pairs.take(i), policy);
    assert forall|m: int| 0 <= m < i implies !(#[trigger] places(pairs[m].0, pairs[m].1)).contains(h) && !places(
        pairs[m].0,
        pairs[m].1,
    ).contains(d) by {
        assert(apart(pairs, m, i));
    }
    assert(outside_first(pairs, i, h) && outside_first(pairs, i, d));
    assert(agree(t, mid, h) && agree(t, mid, d));
    lemma_relink_step(t, h, d, on_delink, policy, c);
    assert(pairs.take(i + 1).drop_last() =~= pairs.take(i));
    assert(pairs.take(i + 1).last() == pairs[i]);
    assert(probe_of(t, h, d) == probe_of(mid, h, d)) by {
        lemma_probe_agree(t, mid, h, d);
    }
    let lp = link_pass(mid, pairs, policy);
    let after = sync_run(mid, pairs, policy, picks);
    assert(in_places(pairs, i, h) && in_places(pairs, i, d));
    if link_outcome(probe_of(mid, h, d), policy) != LinkOutcome::Deferred {
        let r = link_pass(mid, pairs.take(i + 1), policy);
        lemma_agree_trans(after, lp, r, h);
        lemma_agree_trans(after, lp, r, d);
    } else {
        assert(deferred_at(mid, pairs, policy, i));
        let q = resolve_pass(lp, mid, pairs, policy, picks, i as nat);
        lemma_resolve_pass(mid, pairs, policy, picks, i as nat);
        assert(outside_first(pairs, i, h) && outside_first(pairs, i, d));
        lemma_agree_trans(q, lp, mid, h);
        lemma_agree_trans(q, lp, mid, d);
        assert(dot_is_plain(q, d));
        if picks[i] {
            lemma_home_wins(q, h, d, c);
        } else {
            lemma_dot_wins(q, h, d);
        }
        let q1 = resolve_pass(lp, mid, pairs, policy, picks, (i + 1) as nat);
        assert(q1 == apply_ops(q, fix_ops(h, d, picks[i])));
    }
}

} // verus!
