use vstd::prelude::*;
use crate::config::Config;
use crate::paths::views;

verus! {

/// The paths that were managed when the last `sync` completed.
#[derive(Debug, Clone)]
pub struct CurrentState {
    pub paths: Vec<String>,
}

impl CurrentState {
    /// No history: the first run.
    pub fn empty() -> (r: CurrentState)
        ensures
            r.paths@.len() == 0,
    {
        CurrentState { paths: Vec::new() }
    }

    /// The snapshot that a completed `sync` of `config` leaves: exactly the
    /// declared paths, in their order.
    pub fn of_config(config: &Config) -> (r: CurrentState)
        ensures
            views(r.paths@) == views(config.paths@),
    {
        CurrentState { paths: copy_strings(&config.paths) }
    }
}

pub fn copy_strings(v: &Vec<String>) -> (r: Vec<String>)
    ensures
        views(r@) == views(v@),
{
    let mut r: Vec<String> = Vec::new();
    let mut i: usize = 0;
    while i < v.len()
        invariant
            i <= v@.len(),
            views(r@) == views(v@).take(i as int),
        decreases v@.len() - i,
    {
        let s = v[i].clone();
        let ghost prev = r@;
        r.push(s);
        assert(views(r@) =~= views(prev).push(v@[i as int]@));
        i += 1;
        assert(views(v@).take(i as int) =~= views(v@).take(i - 1).push(v@[i - 1]@));
    }
    assert(views(v@).take(i as int) =~= views(v@));
    r
}

/// The entries of `from` that `other` does not hold, each once, in the order
/// of their first occurrence.
pub open spec fn not_in(from: Seq<Seq<char>>, other: Seq<Seq<char>>) -> Seq<Seq<char>>
    decreases from.len(),
{
    if from.len() == 0 {
        from
    } else if other.contains(from.last()) || from.drop_last().contains(from.last()) {
        not_in(from.drop_last(), other)
    } else {
        not_in(from.drop_last(), other).push(from.last())
    }
}

fn contains_string(v: &Vec<String>, x: &String) -> (r: bool)
    ensures
        r == views(v@).contains(x@),
{
    let r = contains_upto(v, v.len(), x);
    assert(views(v@).take(v@.len() as int) =~= views(v@));
    r
}

/// Whether one of the first `n` entries of `v` is `x`.
fn contains_upto(v: &Vec<String>, n: usize, x: &String) -> (r: bool)
    requires
        n <= v@.len(),
    ensures
        r == views(v@).take(n as int).contains(x@),
{
    let mut i: usize = 0;
    while i < n
        invariant
            n <= v@.len(),
            i <= n,
            forall|j: int| 0 <= j < i ==> v@[j]@ != x@,
        decreases v@.len() - i,
    {
        if v[i] == *x {
            assert(views(v@).take(n as int)[i as int] == x@);
            return true;
        }
        i += 1;
    }
    assert(!views(v@).take(n as int).contains(x@)) by {
        if views(v@).take(n as int).contains(x@) {
            let k = choose|k: int| 0 <= k < n && views(v@).take(n as int)[k] == x@;
            assert(v@[k]@ == x@);
        }
    }
    false
}

/// The entries of `from` that `other` does not hold, each once, in the order
/// of their first occurrence.
pub fn difference(from: &Vec<String>, other: &Vec<String>) -> (r: Vec<String>)
    ensures
        views(r@) == not_in(views(from@), views(other@)),
        views(r@).no_duplicates(),
{
    let mut r: Vec<String> = Vec::new();
    let mut i: usize = 0;
    while i < from.len()
        invariant
            i <= from@.len(),
            views(r@) == not_in(views(from@).take(i as int), views(other@)),
        decreases from@.len() - i,
    {
        let ghost t = views(from@).take(i + 1);
        assert(t.drop_last() =~= views(from@).take(i as int));
        assert(t.last() == from@[i as int]@);
        assert(t.drop_last() == views(from@).take(i as int));
        if !contains_string(other, &from[i]) && !contains_upto(from, i, &from[i]) {
            let s = from[i].clone();
            let ghost prev = r@;
            r.push(s);
            assert(views(r@) =~= views(prev).push(from@[i as int]@));
        }
        i += 1;
    }
    assert(views(from@).take(i as int) =~= views(from@));
    proof {
        lemma_removed_once(views(from@), views(other@));
    }
    r
}


/// The paths that a sync delinks first are exactly those of the snapshot
/// that are no longer declared.
pub proof fn lemma_removed_is_difference(previous: Seq<Seq<char>>, declared: Seq<Seq<char>>, x: Seq<char>)
    ensures
        not_in(previous, declared).contains(x) <==> previous.contains(x) && !declared.contains(x),
    decreases previous.len(),
{
    if previous.len() > 0 {
        let init = previous.drop_last();
        lemma_removed_is_difference(init, declared, x);
        assert(previous =~= init.push(previous.last()));
        assert(previous.contains(x) <==> init.contains(x) || previous.last() == x) by {
            if previous.contains(x) {
                let k = choose|k: int| 0 <= k < previous.len() && previous[k] == x;
                if k < init.len() {
                    assert(init[k] == x);
                }
            }
            if init.contains(x) {
                let k = choose|k: int| 0 <= k < init.len() && init[k] == x;
                assert(previous[k] == x);
            }
            if previous.last() == x {
                assert(previous[previous.len() - 1] == x);
            }
        }
        if !declared.contains(previous.last()) {
            let r = not_in(init, declared);
            assert(r.push(previous.last()).contains(x) <==> r.contains(x) || previous.last() == x) by {
                if r.push(previous.last()).contains(x) {
                    let k = choose|k: int| 0 <= k < r.len() + 1 && r.push(previous.last())[k] == x;
                    if k < r.len() {
                        assert(r[k] == x);
                    }
                }
                if r.contains(x) {
                    let k = choose|k: int| 0 <= k < r.len() && r[k] == x;
                    assert(r.push(previous.last())[k] == x);
                }
                if previous.last() == x {
                    assert(r.push(previous.last())[r.len() as int] == x);
                }
            }
        }
    }
}

/// The paths that a sync delinks first hold no path twice.
pub proof fn lemma_removed_once(previous: Seq<Seq<char>>, declared: Seq<Seq<char>>)
    ensures
        not_in(previous, declared).no_duplicates(),
    decreases previous.len(),
{
    if previous.len() > 0 {
        let init = previous.drop_last();
        lemma_removed_once(init, declared);
        let r = not_in(init, declared);
        let x = previous.last();
        if !(declared.contains(x) || init.contains(x)) {
            assert forall|i: int, j: int|
                0 <= i < r.push(x).len() && 0 <= j < r.push(x).len() && i != j implies r.push(x)[i]
                != r.push(x)[j] by {
                if i == r.len() || j == r.len() {
                    let k = if i == r.len() { j } else { i };
                    if r[k] == x {
                        assert(r.contains(x));
                        lemma_removed_is_difference(init, declared, x);
                    }
                }
            }
        }
    }
}

/// After a completed sync the snapshot is the declared list, so the next
/// sync delinks nothing.
pub proof fn lemma_nothing_removed_after_sync(declared: Seq<Seq<char>>)
    ensures
        not_in(declared, declared).len() == 0,
{
    if not_in(declared, declared).len() > 0 {
        let x = not_in(declared, declared)[0];
        assert(not_in(declared, declared).contains(x));
        lemma_removed_is_difference(declared, declared, x);
    }
}

} // verus!
