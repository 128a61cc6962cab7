use vstd::prelude::*;
use crate::paths::{
    check_outcome, check_path, expand, expand_path, has_home_marker, is_absolute, is_within, join_all,
    join_segments, path_place, place, segments_from, views, within,
};

verus! {

/// What `sync` does when a path holds content both in home and in the dotfolder.
#[derive(Debug, Clone, Copy, PartialEq, Eq, Structural)]
pub enum DuplicateBehavior {
    Ask,
    OverwriteHome,
    OverwriteDotfile,
    BackupHome,
    Skip,
}

/// What delinking does with the dotfolder copy once home has its content back.
#[derive(Debug, Clone, Copy, PartialEq, Eq, Structural)]
pub enum OnDelinkBehavior {
    Remove,
    Keep,
}

pub fn default_duplicate_behavior() -> (r: DuplicateBehavior)
    ensures
        r == DuplicateBehavior::Ask,
{
    DuplicateBehavior::Ask
}

pub fn default_on_delink_behavior() -> (r: OnDelinkBehavior)
    ensures
        r == OnDelinkBehavior::Remove,
{
    OnDelinkBehavior::Remove
}

/// The policy block of the configuration.
#[derive(Debug, Clone, Copy, PartialEq, Eq, Structural)]
pub struct Defaults {
    pub on_duplicate: DuplicateBehavior,
    pub on_delink: OnDelinkBehavior,
}

/// The declared configuration: where the dotfolder is, which paths are
/// managed (in order, without repeats) and the policies.
#[derive(Debug, Clone)]
pub struct Config {
    pub defaults: Defaults,
    /// Home-relative notation (`~/...`); expand before use.
    pub dotfolder_path: String,
    pub paths: Vec<String>,
}

/// Which configuration file a run reads.
#[derive(Debug, Clone, Copy, PartialEq, Eq, Structural)]
pub enum ConfigSource {
    /// The one in the home configuration directory.
    Global,
    /// The one under the working directory, after linking it into the home
    /// configuration directory.
    Local,
    /// A fresh one with default content, written to the home configuration
    /// directory.
    CreateDefault,
}

/// The global file wins; a local one is used where only it exists.
pub fn choose_config_source(global_exists: bool, local_exists: bool) -> (r: ConfigSource)
    ensures
        global_exists ==> r == ConfigSource::Global,
        !global_exists && local_exists ==> r == ConfigSource::Local,
        !global_exists && !local_exists ==> r == ConfigSource::CreateDefault,
{
    if global_exists {
        ConfigSource::Global
    } else if local_exists {
        ConfigSource::Local
    } else {
        ConfigSource::CreateDefault
    }
}

/// A declared path is written from home (`~/`) or from the root (`/`).
pub open spec fn is_anchored(p: Seq<char>) -> bool {
    has_home_marker(p) || is_absolute(p)
}

/// `p`, read from home, names a place strictly inside home.
pub open spec fn inside_home(p: Seq<char>, home: Seq<char>) -> bool {
    let q = place(expand(p, home, home));
    within(q, place(home)) && q.len() > place(home).len()
}

/// Every declared path is anchored and lies strictly inside home; the
/// dotfolder is given from home and lies strictly inside it.
pub open spec fn config_is_valid(dotfolder: Seq<char>, paths: Seq<Seq<char>>, home: Seq<char>) -> bool {
    &&& forall|i: int| 0 <= i < paths.len() ==> is_anchored(#[trigger] paths[i]) && inside_home(paths[i], home)
    &&& has_home_marker(dotfolder)
    &&& inside_home(dotfolder, home)
}

fn is_inside_home(p: &str, home: &str) -> (r: bool)
    ensures
        r == inside_home(p@, home@),
{
    let q = expand_path(p, home, home);
    let qs = path_place(q.as_str());
    let hs = path_place(home);
    qs.len() > hs.len() && is_within(&qs, &hs)
}

/// The notation under which `input` is managed: its home-relative notation,
/// where a path inside the dotfolder stands for its counterpart in home.
pub open spec fn managed_form(
    input: Seq<char>,
    dotfolder: Seq<char>,
    home: Seq<char>,
    cwd: Seq<char>,
    exists: bool,
) -> Result<Seq<char>, Seq<char>> {
    match check_outcome(input, home, cwd, exists) {
        Err(e) => Err(e),
        Ok(n) => {
            let ps = place(expand(input, home, cwd));
            let ds = place(expand(dotfolder, home, cwd));
            if within(ps, ds) && ps != ds {
                Ok(seq!['~', '/'] + join_segments(ps.subrange(ds.len() as int, ps.len() as int)))
            } else {
                Ok(n)
            }
        },
    }
}

/// `s` without its first occurrence of `x`.
pub open spec fn remove_first(s: Seq<Seq<char>>, x: Seq<char>) -> Seq<Seq<char>>
    decreases s.len(),
{
    if s.len() == 0 {
        s
    } else if s[0] == x {
        s.skip(1)
    } else {
        seq![s[0]] + remove_first(s.skip(1), x)
    }
}

proof fn lemma_remove_first_at(s: Seq<Seq<char>>, x: Seq<char>, i: int)
    requires
        0 <= i < s.len(),
        s[i] == x,
        forall|j: int| 0 <= j < i ==> s[j] != x,
    ensures
        remove_first(s, x) == s.remove(i),
    decreases s.len(),
{
    if i == 0 {
        assert(s.skip(1) =~= s.remove(0));
    } else {
        assert forall|j: int| 0 <= j < i - 1 implies s.skip(1)[j] != x by {
            assert(s.skip(1)[j] == s[j + 1]);
        }
        lemma_remove_first_at(s.skip(1), x, i - 1);
        assert(seq![s[0]] + s.skip(1).remove(i - 1) =~= s.remove(i));
    }
}

proof fn lemma_remove_first_absent(s: Seq<Seq<char>>, x: Seq<char>)
    requires
        !s.contains(x),
    ensures
        remove_first(s, x) == s,
    decreases s.len(),
{
    if s.len() > 0 {
        assert(s[0] != x);
        assert forall|y: Seq<char>| s.skip(1).contains(y) implies s.contains(y) by {
            let k = choose|k: int| 0 <= k < s.skip(1).len() && s.skip(1)[k] == y;
            assert(s[k + 1] == y);
        }
        lemma_remove_first_absent(s.skip(1), x);
        assert(seq![s[0]] + s.skip(1) =~= s);
    }
}

/// Index of the first entry of `v` equal to `x`, if any.
fn find_first(v: &Vec<String>, x: &String) -> (r: Option<usize>)
    ensures
        r is None <==> !views(v@).contains(x@),
        r matches Some(i) ==> i < v@.len() && v@[i as int]@ == x@ && forall|j: int|
            0 <= j < i ==> v@[j]@ != x@,
{
    let mut i: usize = 0;
    while i < v.len()
        invariant
            i <= v@.len(),
            forall|j: int| 0 <= j < i ==> v@[j]@ != x@,
        decreases v@.len() - i,
    {
        if v[i] == *x {
            assert(views(v@)[i as int] == x@);
            return Some(i);
        }
        i += 1;
    }
    assert(!views(v@).contains(x@)) by {
        if views(v@).contains(x@) {
            let k = choose|k: int| 0 <= k < views(v@).len() && views(v@)[k] == x@;
            assert(v@[k]@ == x@);
        }
    }
    None
}

fn starts_with_anchor(p: &String) -> (r: bool)
    ensures
        r == is_anchored(p@),
{
    let s = p.as_str();
    let n = s.unicode_len();
    n >= 1 && (s.get_char(0) == '/' || (n >= 2 && s.get_char(0) == '~' && s.get_char(1) == '/'))
}

impl Config {
    /// Checks that every declared path is anchored (`~/` or `/`) and lies
    /// strictly inside `home`, and that the dotfolder is given from home
    /// (`~/`) and lies strictly inside it; names the first offender.
    pub fn validate_config(&self, home: &str) -> (r: Result<(), String>)
        ensures
            r is Ok <==> config_is_valid(self.dotfolder_path@, views(self.paths@), home@),
    {
        let mut i: usize = 0;
        while i < self.paths.len()
            invariant
                i <= self.paths@.len(),
                forall|j: int|
                    0 <= j < i ==> is_anchored(#[trigger] views(self.paths@)[j]) && inside_home(
                        views(self.paths@)[j],
                        home@,
                    ),
            decreases self.paths@.len() - i,
        {
            if !starts_with_anchor(&self.paths[i]) {
                let mut e = "Invalid path: \"".to_string();
                e.append(self.paths[i].as_str());
                e.append("\" every path must start with `~/` or `/`");
                assert(!is_anchored(views(self.paths@)[i as int]));
                return Err(e);
            }
            if !is_inside_home(self.paths[i].as_str(), home) {
                let mut e = "Invalid path: \"".to_string();
                e.append(self.paths[i].as_str());
                e.append("\" is not inside the home directory");
                assert(!inside_home(views(self.paths@)[i as int], home@));
                return Err(e);
            }
            i += 1;
        }
        let d = self.dotfolder_path.as_str();
        if !(d.unicode_len() >= 2 && d.get_char(0) == '~' && d.get_char(1) == '/') {
            let mut e = "Invalid path: \"".to_string();
            e.append(d);
            e.append("\" every path must start with `~/`");
            return Err(e);
        }
        if !is_inside_home(d, home) {
            let mut e = "Invalid path: \"".to_string();
            e.append(d);
            e.append("\" is not inside the home directory");
            return Err(e);
        }
        Ok(())
    }

    /// Declares `path` as managed, in its managed notation, at the end of the
    /// list; a path already declared is left where it is. `exists` tells
    /// whether the expanded path is present on disk. Gives whether the list
    /// grew; on error the configuration is unchanged.
    pub fn add_path(&mut self, path: String, home: &str, cwd: &str, exists: bool) -> (r: Result<bool, String>)
        ensures
            match managed_form(path@, old(self).dotfolder_path@, home@, cwd@, exists) {
                Err(e) => r matches Err(m) && m@ == e && *final(self) == *old(self),
                Ok(q) => r matches Ok(added) && added == !views(old(self).paths@).contains(q)
                    && final(self).defaults == old(self).defaults
                    && final(self).dotfolder_path == old(self).dotfolder_path
                    && views(final(self).paths@) == (if added {
                        views(old(self).paths@).push(q)
                    } else {
                        views(old(self).paths@)
                    }),
            },
    {
        let q = self.restrict_to_home(path.as_str(), home, cwd, exists);
        match q {
            Err(e) => Err(e),
            Ok(q) => {
                if find_first(&self.paths, &q).is_some() {
                    return Ok(false);
                }
                let ghost prev = self.paths@;
                let ghost qv = q@;
                self.paths.push(q);
                assert(views(self.paths@) =~= views(prev).push(qv));
                Ok(true)
            },
        }
    }

    /// Stops declaring `path` (given in any notation that `add_path` takes),
    /// whether or not it is still on disk. Gives whether it was declared; on
    /// error (a path that is home itself or outside it) the configuration is
    /// unchanged.
    pub fn remove_path(&mut self, path: String, home: &str, cwd: &str) -> (r: Result<bool, String>)
        ensures
            match managed_form(path@, old(self).dotfolder_path@, home@, cwd@, true) {
                Err(e) => r matches Err(m) && m@ == e && *final(self) == *old(self),
                Ok(q) => r matches Ok(removed) && removed == views(old(self).paths@).contains(q)
                    && final(self).defaults == old(self).defaults
                    && final(self).dotfolder_path == old(self).dotfolder_path
                    && views(final(self).paths@) == remove_first(views(old(self).paths@), q),
            },
    {
        let q = self.restrict_to_home(path.as_str(), home, cwd, true);
        match q {
            Err(e) => Err(e),
            Ok(q) => {
                proof {
                    if !views(self.paths@).contains(q@) {
                        lemma_remove_first_absent(views(self.paths@), q@);
                    }
                }
                match find_first(&self.paths, &q) {
                    None => Ok(false),
                    Some(i) => {
                        let ghost prev = self.paths@;
                        proof {
                            lemma_remove_first_at(views(prev), q@, i as int);
                        }
                        self.paths.remove(i);
                        assert(views(self.paths@) =~= views(prev).remove(i as int));
                        proof {
                            assert(views(prev)[i as int] == q@);
                        }
                        Ok(true)
                    },
                }
            },
        }
    }

    /// The notation under which `path` is managed, or why it cannot be.
    fn restrict_to_home(&self, path: &str, home: &str, cwd: &str, exists: bool) -> (r: Result<String, String>)
        ensures
            result_matches(r, managed_form(path@, self.dotfolder_path@, home@, cwd@, exists)),
    {
        let checked = check_path(path, home, cwd, exists);
        match checked {
            Err(e) => Err(e),
            Ok(n) => {
                let p = expand_path(path, home, cwd);
                let ps = path_place(p.as_str());
                let dot = expand_path(self.dotfolder_path.as_str(), home, cwd);
                let ds = path_place(dot.as_str());
                if ds.len() < ps.len() && is_within(&ps, &ds) {
                    let rel = segments_from(&ps, ds.len());
                    let mut r = "~/".to_string();
                    r.append(join_all(&rel).as_str());
                    proof {
                        reveal_strlit("~/");
                        assert(views(ps@) != views(ds@));
                        assert(r@ =~= seq!['~', '/'] + join_segments(
                            views(ps@).subrange(ds@.len() as int, ps@.len() as int),
                        ));
                        assert(check_outcome(path@, home@, cwd@, exists) is Ok);
                    }
                    Ok(r)
                } else {
                    proof {
                        if within(views(ps@), views(ds@)) && ds@.len() == ps@.len() {
                            assert(views(ps@).subrange(0, ps@.len() as int) =~= views(ps@));
                        }
                    }
                    Ok(n)
                }
            },
        }
    }
}

pub open spec fn result_matches(r: Result<String, String>, s: Result<Seq<char>, Seq<char>>) -> bool {
    match r {
        Ok(v) => s matches Ok(w) && v@ == w,
        Err(e) => s matches Err(w) && e@ == w,
    }
}

/// Registering the home directory itself, or a place outside home, is
/// refused (and `add_path` then leaves the configuration as it was).
pub proof fn lemma_rejection_boundary(
    input: Seq<char>,
    dotfolder: Seq<char>,
    home: Seq<char>,
    cwd: Seq<char>,
    exists: bool,
)
    requires
        place(expand(input, home, cwd)) == place(home) || !within(place(expand(input, home, cwd)), place(home)),
    ensures
        managed_form(input, dotfolder, home, cwd, exists) is Err,
{
}

} // verus!
