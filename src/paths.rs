use vstd::prelude::*;

verus! {

/// The strings of a sequence of `String`s, as character sequences.
pub open spec fn views(v: Seq<String>) -> Seq<Seq<char>> {
    v.map_values(|s: String| s@)
}

pub open spec fn is_absolute(p: Seq<char>) -> bool {
    p.len() > 0 && p[0] == '/'
}

/// Starts with the home marker `~/`.
pub open spec fn has_home_marker(p: Seq<char>) -> bool {
    p.len() >= 2 && p[0] == '~' && p[1] == '/'
}

/// Appends `rest` to `base` with one separator; an absolute `rest` replaces `base`.
pub open spec fn join_path(base: Seq<char>, rest: Seq<char>) -> Seq<char> {
    if is_absolute(rest) {
        rest
    } else if base.len() == 0 || base.last() == '/' {
        base + rest
    } else {
        base + seq!['/'] + rest
    }
}

/// The absolute path that `input` denotes: `~/` is the home directory, and a
/// relative path is taken from the working directory.
pub open spec fn expand(input: Seq<char>, home: Seq<char>, cwd: Seq<char>) -> Seq<char> {
    let p = if has_home_marker(input) {
        join_path(home, input.skip(2))
    } else {
        input
    };
    if is_absolute(p) {
        p
    } else {
        join_path(cwd, p)
    }
}

/// A segment that names a place: neither empty (`//`) nor the current directory (`.`).
pub open spec fn keep_segment(done: Seq<Seq<char>>, cur: Seq<char>) -> Seq<Seq<char>> {
    if cur.len() == 0 || cur == seq!['.'] {
        done
    } else {
        done.push(cur)
    }
}

/// Reading `p` left to right: the segments completed so far and the one being read.
pub open spec fn scan(p: Seq<char>) -> (Seq<Seq<char>>, Seq<char>)
    decreases p.len(),
{
    if p.len() == 0 {
        (Seq::empty(), Seq::empty())
    } else {
        let prev = scan(p.drop_last());
        if p.last() == '/' {
            (keep_segment(prev.0, prev.1), Seq::empty())
        } else {
            (prev.0, prev.1.push(p.last()))
        }
    }
}

/// The named segments of a path, in order (`..` not yet resolved).
pub open spec fn segments(p: Seq<char>) -> Seq<Seq<char>> {
    keep_segment(scan(p).0, scan(p).1)
}

/// Segments with each `..` taking back the segment before it; at the root,
/// `..` stays at the root.
pub open spec fn resolve_parents(segs: Seq<Seq<char>>) -> Seq<Seq<char>>
    decreases segs.len(),
{
    if segs.len() == 0 {
        segs
    } else {
        let r = resolve_parents(segs.drop_last());
        if segs.last() == seq!['.', '.'] {
            if r.len() > 0 {
                r.drop_last()
            } else {
                r
            }
        } else {
            r.push(segs.last())
        }
    }
}

/// The place an absolute path names, as segments: `.`, empty segments and
/// `..` resolved. Two absolute paths name the same place when these are equal.
pub open spec fn place(p: Seq<char>) -> Seq<Seq<char>> {
    resolve_parents(segments(p))
}

proof fn lemma_resolve_append(a: Seq<Seq<char>>, b: Seq<Seq<char>>)
    requires
        forall|i: int| 0 <= i < b.len() ==> b[i] != seq!['.', '.'],
    ensures
        resolve_parents(a + b) == resolve_parents(a) + b,
    decreases b.len(),
{
    if b.len() == 0 {
        assert(a + b =~= a);
    } else {
        assert((a + b).drop_last() =~= a + b.drop_last());
        assert(b.last() == b[b.len() - 1]);
        lemma_resolve_append(a, b.drop_last());
        assert(resolve_parents(a) + b.drop_last() + seq![b.last()] =~= resolve_parents(a) + b);
    }
}

proof fn lemma_resolve_members(s: Seq<Seq<char>>)
    ensures
        forall|i: int|
            0 <= i < resolve_parents(s).len() ==> s.contains(#[trigger] resolve_parents(s)[i])
                && resolve_parents(s)[i] != seq!['.', '.'],
    decreases s.len(),
{
    if s.len() > 0 {
        lemma_resolve_members(s.drop_last());
        let r = resolve_parents(s.drop_last());
        assert forall|i: int| 0 <= i < resolve_parents(s).len() implies s.contains(
            #[trigger] resolve_parents(s)[i],
        ) && resolve_parents(s)[i] != seq!['.', '.'] by {
            if i < r.len() {
                assert(resolve_parents(s)[i] == r[i]);
                let k = choose|k: int| 0 <= k < s.drop_last().len() && s.drop_last()[k] == r[i];
                assert(s[k] == r[i]);
            } else {
                assert(resolve_parents(s)[i] == s.last());
                assert(s[s.len() - 1] == s.last());
            }
        }
    }
}

/// Segments written with `/` between them.
pub open spec fn join_segments(segs: Seq<Seq<char>>) -> Seq<char>
    decreases segs.len(),
{
    if segs.len() == 0 {
        Seq::empty()
    } else if segs.len() == 1 {
        segs[0]
    } else {
        join_segments(segs.drop_last()) + seq!['/'] + segs.last()
    }
}

/// `inner` lies in `outer` or is `outer` itself.
pub open spec fn within(inner: Seq<Seq<char>>, outer: Seq<Seq<char>>) -> bool {
    outer.len() <= inner.len() && inner.subrange(0, outer.len() as int) == outer
}

/// The home-relative notation of an absolute path strictly inside home.
pub open spec fn home_notation(p: Seq<char>, home: Seq<char>) -> Seq<char> {
    let segs = place(p);
    seq!['~', '/'] + join_segments(segs.subrange(place(home).len() as int, segs.len() as int))
}

/// What checking `input` gives: its home-relative notation, or why it is refused.
pub open spec fn check_outcome(
    input: Seq<char>,
    home: Seq<char>,
    cwd: Seq<char>,
    exists: bool,
) -> Result<Seq<char>, Seq<char>> {
    let p = expand(input, home, cwd);
    if !exists {
        Err("Path does not exist"@)
    } else if place(p) == place(home) {
        Err("You can't add your home as path"@)
    } else if !within(place(p), place(home)) {
        Err("Path is outside of the home directory"@)
    } else {
        Ok(home_notation(p, home))
    }
}

pub open spec fn result_view(r: Result<String, String>) -> Result<Seq<char>, Seq<char>> {
    match r {
        Ok(s) => Ok(s@),
        Err(e) => Err(e@),
    }
}

/// The characters of `s`, one by one.
fn chars_of(s: &str) -> (r: Vec<char>)
    ensures
        r@ == s@,
{
    let n = s.unicode_len();
    let mut r: Vec<char> = Vec::new();
    let mut i: usize = 0;
    while i < n
        invariant
            n == s@.len(),
            i <= n,
            r@ == s@.take(i as int),
        decreases n - i,
    {
        r.push(s.get_char(i));
        i += 1;
        assert(r@ =~= s@.take(i as int));
    }
    assert(r@ =~= s@);
    r
}

fn starts_with_home_marker(s: &str) -> (r: bool)
    ensures
        r == has_home_marker(s@),
{
    let n = s.unicode_len();
    n >= 2 && s.get_char(0) == '~' && s.get_char(1) == '/'
}

fn starts_with_slash(s: &str) -> (r: bool)
    ensures
        r == is_absolute(s@),
{
    s.unicode_len() > 0 && s.get_char(0) == '/'
}

/// Appends `rest` to `base` as a path.
pub fn join(base: &str, rest: &str) -> (r: String)
    ensures
        r@ == join_path(base@, rest@),
{
    if starts_with_slash(rest) {
        return rest.to_string();
    }
    let n = base.unicode_len();
    let mut r = base.to_string();
    if n > 0 && base.get_char(n - 1) != '/' {
        proof {
            reveal_strlit("/");
            assert(seq!['/'] =~= "/"@);
        }
        r.append("/");
    }
    r.append(rest);
    r
}

/// Turns a path in any accepted notation (`~/...`, relative or absolute)
/// into an absolute one.
pub fn expand_path(input: &str, home: &str, cwd: &str) -> (r: String)
    ensures
        r@ == expand(input@, home@, cwd@),
{
    let p = if starts_with_home_marker(input) {
        let rest = input.substring_char(2, input.unicode_len());
        join(home, rest)
    } else {
        input.to_string()
    };
    if starts_with_slash(p.as_str()) {
        p
    } else {
        join(cwd, p.as_str())
    }
}

/// Pushes the segment `s[start..end]` unless it is empty or `.`.
fn push_segment(done: &mut Vec<String>, s: &str, start: usize, end: usize)
    requires
        start <= end <= s@.len(),
    ensures
        views(final(done)@) == keep_segment(views(old(done)@), s@.subrange(start as int, end as int)),
{
    let cur = s.substring_char(start, end).to_string();
    if end == start || (end == start + 1 && s.get_char(start) == '.') {
        assert(end == start + 1 ==> s@.subrange(start as int, end as int) =~= seq![s@[start as int]]);
        return;
    }
    assert(s@.subrange(start as int, end as int) != seq!['.']) by {
        if s@.subrange(start as int, end as int) == seq!['.'] {
            assert(s@.subrange(start as int, end as int).len() == 1);
            assert(s@.subrange(start as int, end as int)[0] == s@[start as int]);
        }
    }
    done.push(cur);
    assert(views(done@) =~= views(old(done)@).push(s@.subrange(start as int, end as int)));
}


/// The named segments of `p`.
pub fn path_segments(p: &str) -> (r: Vec<String>)
    ensures
        views(r@) == segments(p@),
{
    let cs = chars_of(p);
    let n = cs.len();
    let mut done: Vec<String> = Vec::new();
    let mut start: usize = 0;
    let mut i: usize = 0;
    while i < n
        invariant
            n == p@.len(),
            cs@ == p@,
            start <= i <= n,
            views(done@) == scan(p@.take(i as int)).0,
            p@.subrange(start as int, i as int) == scan(p@.take(i as int)).1,
        decreases n - i,
    {
        let c = cs[i];
        assert(p@.take(i + 1).drop_last() =~= p@.take(i as int));
        assert(p@.take(i + 1).last() == c);
        if c == '/' {
            push_segment(&mut done, p, start, i);
            start = i + 1;
            assert(p@.subrange(start as int, start as int) =~= Seq::<char>::empty());
        } else {
            assert(p@.subrange(start as int, i + 1) =~= p@.subrange(start as int, i as int).push(c));
        }
        i += 1;
    }
    assert(p@.take(n as int) =~= p@);
    push_segment(&mut done, p, start, n);
    done
}

fn is_parent_segment(s: &String) -> (r: bool)
    ensures
        r == (s@ == seq!['.', '.']),
{
    let t = s.as_str();
    let r = t.unicode_len() == 2 && t.get_char(0) == '.' && t.get_char(1) == '.';
    assert(r ==> s@ =~= seq!['.', '.']);
    r
}

/// The place that the path `p` names, as segments with `..` resolved.
pub fn path_place(p: &str) -> (r: Vec<String>)
    ensures
        views(r@) == place(p@),
{
    let segs = path_segments(p);
    let mut r: Vec<String> = Vec::new();
    let mut i: usize = 0;
    while i < segs.len()
        invariant
            i <= segs@.len(),
            views(segs@) == segments(p@),
            views(r@) == resolve_parents(views(segs@).take(i as int)),
        decreases segs@.len() - i,
    {
        let ghost t = views(segs@).take(i + 1);
        assert(t.drop_last() =~= views(segs@).take(i as int));
        assert(t.last() == segs@[i as int]@);
        let ghost prev = r@;
        if is_parent_segment(&segs[i]) {
            if r.len() > 0 {
                r.pop();
                assert(views(r@) =~= views(prev).drop_last());
            }
        } else {
            r.push(segs[i].clone());
            assert(views(r@) =~= views(prev).push(segs@[i as int]@));
        }
        i += 1;
    }
    assert(views(segs@).take(i as int) =~= views(segs@));
    r
}

/// Writes segments with `/` between them.
pub fn join_all(segs: &Vec<String>) -> (r: String)
    ensures
        r@ == join_segments(views(segs@)),
{
    let mut r = String::new();
    let mut i: usize = 0;
    proof {
        reveal_strlit("/");
    }
    while i < segs.len()
        invariant
            i <= segs@.len(),
            r@ == join_segments(views(segs@).take(i as int)),
            "/"@ == seq!['/'],
        decreases segs@.len() - i,
    {
        assert(views(segs@).take(i + 1).drop_last() =~= views(segs@).take(i as int));
        if i > 0 {
            r.append("/");
        }
        r.append(segs[i].as_str());
        i += 1;
        assert(views(segs@).take(i as int).last() == segs@[i - 1]@);
        assert(i == 1 ==> r@ =~= join_segments(views(segs@).take(i as int)));
        assert(r@ =~= join_segments(views(segs@).take(i as int)));
    }
    assert(views(segs@).take(i as int) =~= views(segs@));
    r
}

fn same_segments(a: &Vec<String>, b: &Vec<String>) -> (r: bool)
    ensures
        r == (views(a@) == views(b@)),
{
    if a.len() != b.len() {
        assert(views(a@).len() != views(b@).len());
        return false;
    }
    let mut i: usize = 0;
    while i < a.len()
        invariant
            a@.len() == b@.len(),
            i <= a@.len(),
            forall|j: int| 0 <= j < i ==> a@[j]@ == b@[j]@,
        decreases a@.len() - i,
    {
        if a[i] != b[i] {
            assert(views(a@)[i as int] != views(b@)[i as int]);
            return false;
        }
        i += 1;
    }
    assert(views(a@) =~= views(b@));
    true
}

pub(crate) fn is_within(inner: &Vec<String>, outer: &Vec<String>) -> (r: bool)
    ensures
        r == within(views(inner@), views(outer@)),
{
    if outer.len() > inner.len() {
        return false;
    }
    let mut i: usize = 0;
    while i < outer.len()
        invariant
            outer@.len() <= inner@.len(),
            i <= outer@.len(),
            forall|j: int| 0 <= j < i ==> inner@[j]@ == outer@[j]@,
        decreases outer@.len() - i,
    {
        if inner[i] != outer[i] {
            assert(views(inner@).subrange(0, outer@.len() as int)[i as int] != views(outer@)[i as int]);
            return false;
        }
        i += 1;
    }
    assert(views(inner@).subrange(0, outer@.len() as int) =~= views(outer@));
    true
}

/// The segments of `segs` from index `from` on.
pub(crate) fn segments_from(segs: &Vec<String>, from: usize) -> (r: Vec<String>)
    requires
        from <= segs@.len(),
    ensures
        views(r@) == views(segs@).subrange(from as int, segs@.len() as int),
{
    let mut r: Vec<String> = Vec::new();
    let mut i: usize = from;
    while i < segs.len()
        invariant
            from <= i <= segs@.len(),
            views(r@) == views(segs@).subrange(from as int, i as int),
        decreases segs@.len() - i,
    {
        let c = segs[i].clone();
        let ghost prev = r@;
        r.push(c);
        assert(views(r@) =~= views(prev).push(segs@[i as int]@));
        i += 1;
        assert(views(r@) =~= views(segs@).subrange(from as int, i as int));
    }
    r
}

/// Checks that `path` names an existing place strictly inside `home` and gives
/// it in home-relative notation (`~/` followed by its segments). `exists`
/// tells whether the expanded path is present on disk.
pub fn check_path(path: &str, home: &str, cwd: &str, exists: bool) -> (r: Result<String, String>)
    ensures
        result_view(r) == check_outcome(path@, home@, cwd@, exists),
{
    if !exists {
        return Err("Path does not exist".to_string());
    }
    let p = expand_path(path, home, cwd);
    let ps = path_place(p.as_str());
    let hs = path_place(home);
    if same_segments(&ps, &hs) {
        return Err("You can't add your home as path".to_string());
    }
    if !is_within(&ps, &hs) {
        return Err("Path is outside of the home directory".to_string());
    }
    let rel = segments_from(&ps, hs.len());
    let mut r = "~/".to_string();
    r.append(join_all(&rel).as_str());
    proof {
        reveal_strlit("~/");
        assert(r@ =~= home_notation(p@, home@));
    }
    Ok(r)
}


/// The segments of `p` below `home`.
pub open spec fn relative_segments(p: Seq<char>, home: Seq<char>) -> Seq<Seq<char>> {
    place(p).subrange(place(home).len() as int, place(p).len() as int)
}

/// Where the dotfolder keeps its copy of the absolute path `p` of home.
pub open spec fn dot_counterpart(
    p: Seq<char>,
    dotfolder: Seq<char>,
    home: Seq<char>,
    cwd: Seq<char>,
) -> Seq<char> {
    join_path(expand(dotfolder, home, cwd), join_segments(relative_segments(p, home)))
}

fn counterpart_of(p: &str, dotfolder_path: &str, home: &str, cwd: &str) -> (r: Result<String, String>)
    ensures
        r is Ok <==> within(place(p@), place(home@)),
        r matches Ok(d) ==> d@ == dot_counterpart(p@, dotfolder_path@, home@, cwd@),
        r matches Err(e) ==> e@ == "Path is outside of the home directory"@,
{
    let ps = path_place(p);
    let hs = path_place(home);
    if !is_within(&ps, &hs) {
        return Err("Path is outside of the home directory".to_string());
    }
    let rel = segments_from(&ps, hs.len());
    let dotfolder = expand_path(dotfolder_path, home, cwd);
    let rel_text = join_all(&rel);
    Ok(join(dotfolder.as_str(), rel_text.as_str()))
}

/// The place in the dotfolder that corresponds to `path_in_home`, which must
/// lie in the home directory.
pub fn get_path_in_dotfolder(
    path_in_home: &str,
    dotfolder_path: &str,
    home: &str,
    cwd: &str,
) -> (r: Result<String, String>)
    ensures
        r is Ok <==> within(place(expand(path_in_home@, home@, cwd@)), place(home@)),
        r matches Ok(d) ==> d@ == dot_counterpart(
            expand(path_in_home@, home@, cwd@),
            dotfolder_path@,
            home@,
            cwd@,
        ),
        r matches Err(e) ==> e@ == "Path is outside of the home directory"@,
{
    let p = expand_path(path_in_home, home, cwd);
    counterpart_of(p.as_str(), dotfolder_path, home, cwd)
}

/// The pair of places that a managed path links: the absolute path in home
/// and its counterpart in the dotfolder.
pub fn get_home_and_dot_path(
    path: &str,
    dotfolder_path: &str,
    home: &str,
    cwd: &str,
) -> (r: Result<(String, String), String>)
    ensures
        r is Ok <==> within(place(expand(path@, home@, cwd@)), place(home@)),
        r matches Ok(pair) ==> pair.0@ == expand(path@, home@, cwd@) && pair.1@ == dot_counterpart(
            expand(path@, home@, cwd@),
            dotfolder_path@,
            home@,
            cwd@,
        ),
        r matches Err(e) ==> e@ == "Path is outside of the home directory"@,
{
    let p = expand_path(path, home, cwd);
    match counterpart_of(p.as_str(), dotfolder_path, home, cwd) {
        Ok(d) => Ok((p, d)),
        Err(e) => Err(e),
    }
}

/// Index of the last `c` in `p`, or -1.
pub open spec fn last_index_of(p: Seq<char>, c: char) -> int
    decreases p.len(),
{
    if p.len() == 0 {
        -1
    } else if p.last() == c {
        p.len() - 1
    } else {
        last_index_of(p.drop_last(), c)
    }
}

/// The sibling that keeps a home copy aside: the file name's extension
/// becomes `bak`, or `.bak` is added where the name has none (a leading dot
/// starts no extension) or already ends in `.bak`, so that the backup name
/// always differs from `p`.
pub open spec fn backup_of(p: Seq<char>) -> Seq<char> {
    let name_start = last_index_of(p, '/') + 1;
    let dot = last_index_of(p.skip(name_start), '.');
    if dot > 0 && p.skip(name_start + dot + 1) != "bak"@ {
        p.take(name_start + dot) + ".bak"@
    } else {
        p + ".bak"@
    }
}

proof fn lemma_last_index_bounds(p: Seq<char>, c: char)
    ensures
        -1 <= last_index_of(p, c) < p.len(),
        last_index_of(p, c) >= 0 ==> p[last_index_of(p, c)] == c,
    decreases p.len(),
{
    if p.len() > 0 && p.last() != c {
        lemma_last_index_bounds(p.drop_last(), c);
    }
}

fn last_index(cs: &Vec<char>, from: usize, c: char) -> (r: i64)
    requires
        from <= cs@.len(),
        cs@.len() < i64::MAX,
    ensures
        r == last_index_of(cs@.skip(from as int), c),
        -1 <= r < cs@.len() - from,
{
    let mut i: usize = from;
    let mut found: i64 = -1;
    while i < cs.len()
        invariant
            from <= i <= cs@.len(),
            cs@.len() < i64::MAX,
            found == last_index_of(cs@.skip(from as int).take(i - from), c),
        decreases cs@.len() - i,
    {
        let ghost t = cs@.skip(from as int).take(i + 1 - from);
        assert(t.drop_last() =~= cs@.skip(from as int).take(i - from));
        assert(t.last() == cs@[i as int]);
        if cs[i] == c {
            found = (i - from) as i64;
        }
        i += 1;
    }
    assert(cs@.skip(from as int).take(i - from) =~= cs@.skip(from as int));
    proof {
        lemma_last_index_bounds(cs@.skip(from as int), c);
    }
    found
}

/// Where `BackupHome` moves the home copy before linking.
pub fn backup_path(p: &str) -> (r: String)
    requires
        p@.len() < i64::MAX,
    ensures
        r@ == backup_of(p@),
{
    let cs = chars_of(p);
    let name_start = (last_index(&cs, 0, '/') + 1) as usize;
    assert(cs@.skip(0) =~= cs@);
    let dot = last_index(&cs, name_start, '.');
    proof {
        reveal_strlit(".bak");
    }
    proof {
        reveal_strlit("bak");
    }
    let is_bak = if dot > 0 {
        let ext_start = name_start + dot as usize + 1;
        let b = cs.len() - ext_start == 3 && cs[ext_start] == 'b' && cs[ext_start + 1] == 'a'
            && cs[ext_start + 2] == 'k';
        proof {
            if b {
                assert(p@.skip(ext_start as int) =~= "bak"@);
            } else if p@.skip(ext_start as int) == "bak"@ {
                assert(p@.skip(ext_start as int).len() == 3);
                assert(p@.skip(ext_start as int)[0] == 'b');
                assert(p@.skip(ext_start as int)[1] == 'a');
                assert(p@.skip(ext_start as int)[2] == 'k');
            }
        }
        b
    } else {
        false
    };
    if dot > 0 && !is_bak {
        let mut r = p.substring_char(0, name_start + dot as usize).to_string();
        r.append(".bak");
        assert(r@ =~= backup_of(p@));
        r
    } else {
        let mut r = p.to_string();
        r.append(".bak");
        r
    }
}

/// A backup name is never the name it backs up.
pub proof fn lemma_backup_differs(p: Seq<char>)
    ensures
        backup_of(p) != p,
{
    reveal_strlit(".bak");
    reveal_strlit("bak");
    let name_start = last_index_of(p, '/') + 1;
    lemma_last_index_bounds(p, '/');
    let dot = last_index_of(p.skip(name_start), '.');
    lemma_last_index_bounds(p.skip(name_start), '.');
    if dot > 0 && p.skip(name_start + dot + 1) != "bak"@ {
        let k = name_start + dot;
        if backup_of(p) == p {
            assert(p.len() == k + 4);
            assert(p.skip(k + 1) =~= "bak"@) by {
                assert forall|i: int| 0 <= i < 3 implies p.skip(k + 1)[i] == "bak"@[i] by {
                    assert(p[k + 1 + i] == backup_of(p)[k + 1 + i]);
                }
            }
        }
    } else {
        assert(backup_of(p).len() != p.len());
    }
}


/// A segment as `segments` yields it: non-empty, not `.`, without `/`.
pub open spec fn good_segment(s: Seq<char>) -> bool {
    s.len() > 0 && s != seq!['.'] && !s.contains('/')
}

/// One step of reading a path: a character after the state `st`.
pub open spec fn scan_step(st: (Seq<Seq<char>>, Seq<char>), c: char) -> (Seq<Seq<char>>, Seq<char>) {
    if c == '/' {
        (keep_segment(st.0, st.1), Seq::empty())
    } else {
        (st.0, st.1.push(c))
    }
}

/// Reading `p` on from the state `st`.
pub open spec fn scan_from(st: (Seq<Seq<char>>, Seq<char>), p: Seq<char>) -> (Seq<Seq<char>>, Seq<char>)
    decreases p.len(),
{
    if p.len() == 0 {
        st
    } else {
        scan_step(scan_from(st, p.drop_last()), p.last())
    }
}

proof fn lemma_scan_is_scan_from(p: Seq<char>)
    ensures
        scan(p) == scan_from((Seq::empty(), Seq::empty()), p),
    decreases p.len(),
{
    if p.len() > 0 {
        lemma_scan_is_scan_from(p.drop_last());
    }
}

proof fn lemma_scan_from_concat(st: (Seq<Seq<char>>, Seq<char>), a: Seq<char>, b: Seq<char>)
    ensures
        scan_from(st, a + b) == scan_from(scan_from(st, a), b),
    decreases b.len(),
{
    if b.len() == 0 {
        assert(a + b =~= a);
    } else {
        assert((a + b).drop_last() =~= a + b.drop_last());
        assert((a + b).last() == b.last());
        lemma_scan_from_concat(st, a, b.drop_last());
    }
}

/// Reading a run without `/` only extends the current segment.
proof fn lemma_scan_from_plain(done: Seq<Seq<char>>, s: Seq<char>)
    requires
        !s.contains('/'),
    ensures
        scan_from((done, Seq::empty()), s) == (done, s),
    decreases s.len(),
{
    if s.len() > 0 {
        assert(!s.drop_last().contains('/')) by {
            if s.drop_last().contains('/') {
                let k = choose|k: int| 0 <= k < s.drop_last().len() && s.drop_last()[k] == '/';
                assert(s[k] == '/');
            }
        }
        lemma_scan_from_plain(done, s.drop_last());
        assert(s.last() != '/') by {
            assert(s[s.len() - 1] == s.last());
        }
        assert(s.drop_last().push(s.last()) =~= s);
    }
}

/// Reading good segments written with `/` between them yields them back.
proof fn lemma_scan_join(done: Seq<Seq<char>>, rel: Seq<Seq<char>>)
    requires
        rel.len() > 0,
        forall|i: int| 0 <= i < rel.len() ==> good_segment(#[trigger] rel[i]),
    ensures
        scan_from((done, Seq::empty()), join_segments(rel)) == (done + rel.drop_last(), rel.last()),
    decreases rel.len(),
{
    if rel.len() == 1 {
        assert(good_segment(rel[0]));
        assert(join_segments(rel) == rel[0]);
        assert(rel.last() == rel[0]);
        lemma_scan_from_plain(done, rel[0]);
        assert(done + rel.drop_last() =~= done);
    } else {
        let init = rel.drop_last();
        assert forall|i: int| 0 <= i < init.len() implies good_segment(#[trigger] init[i]) by {
            assert(init[i] == rel[i]);
        }
        lemma_scan_join(done, init);
        let j0 = join_segments(init);
        let st0 = (Seq::<Seq<char>>::empty(), Seq::<char>::empty());
        let st = (done, Seq::<char>::empty());
        assert(join_segments(rel) == j0 + seq!['/'] + rel.last());
        lemma_scan_from_concat(st, j0 + seq!['/'], rel.last());
        lemma_scan_from_concat(st, j0, seq!['/']);
        assert(seq!['/'].drop_last() =~= Seq::<char>::empty());
        assert(seq!['/'].last() == '/');
        let mid = scan_from(st, j0);
        assert(scan_from(mid, seq!['/']) == scan_step(scan_from(mid, Seq::<char>::empty()), '/'));
        assert(good_segment(init.last())) by {
            assert(init.last() == init[init.len() - 1]);
        }
        assert(keep_segment(done + init.drop_last(), init.last()) =~= done + init);
        assert(good_segment(rel.last())) by {
            assert(rel.last() == rel[rel.len() - 1]);
        }
        lemma_scan_from_plain(done + init, rel.last());
        assert(init =~= rel.drop_last());
    }
}

/// Every segment that `segments` yields is good.
proof fn lemma_segments_good(p: Seq<char>)
    ensures
        forall|i: int| 0 <= i < scan(p).0.len() ==> good_segment(#[trigger] scan(p).0[i]),
        !scan(p).1.contains('/'),
        forall|i: int| 0 <= i < segments(p).len() ==> good_segment(#[trigger] segments(p)[i]),
    decreases p.len(),
{
    if p.len() > 0 {
        lemma_segments_good(p.drop_last());
        let prev = scan(p.drop_last());
        if p.last() != '/' {
            assert(!prev.1.push(p.last()).contains('/')) by {
                if prev.1.push(p.last()).contains('/') {
                    let k = choose|k: int| 0 <= k < prev.1.len() + 1 && prev.1.push(p.last())[k] == '/';
                    if k < prev.1.len() {
                        assert(prev.1[k] == '/');
                    }
                }
            }
        }
    }
    let st = scan(p);
    assert forall|i: int| 0 <= i < segments(p).len() implies good_segment(#[trigger] segments(p)[i]) by {
        if i < st.0.len() {
            assert(segments(p)[i] == st.0[i]);
        }
    }
}

/// The segments of home followed by `/`, then good segments.
proof fn lemma_segments_below(home: Seq<char>, rel: Seq<Seq<char>>)
    requires
        home.len() > 0,
        rel.len() > 0,
        forall|i: int| 0 <= i < rel.len() ==> good_segment(#[trigger] rel[i]),
    ensures
        segments(join_path(home, join_segments(rel))) == segments(home) + rel,
{
    let j = join_segments(rel);
    let empty = (Seq::<Seq<char>>::empty(), Seq::<char>::empty());
    lemma_scan_join(segments(home), rel);
    assert(good_segment(rel.last())) by {
        assert(rel.last() == rel[rel.len() - 1]);
    }
    assert(keep_segment(segments(home) + rel.drop_last(), rel.last()) =~= segments(home) + rel);
    assert(!is_absolute(j)) by {
        lemma_join_starts_with_first(rel);
        assert(good_segment(rel[0]));
        assert(rel[0][0] != '/') by {
            assert(rel[0].contains(rel[0][0]));
        }
    }
    if home.last() == '/' {
        lemma_scan_is_scan_from(home + j);
        lemma_scan_from_concat(empty, home, j);
        lemma_scan_is_scan_from(home);
        assert(home.drop_last().push(home.last()) =~= home);
        assert(scan(home).1 == Seq::<char>::empty());
        assert(scan(home).0 == segments(home));
        assert(join_path(home, j) == home + j);
    } else {
        let hs = home + seq!['/'];
        lemma_scan_is_scan_from(hs + j);
        lemma_scan_from_concat(empty, hs, j);
        lemma_scan_is_scan_from(hs);
        assert(hs.drop_last() =~= home);
        assert(join_path(home, j) =~= hs + j);
    }
}

proof fn lemma_join_starts_with_first(rel: Seq<Seq<char>>)
    requires
        rel.len() > 0,
        rel[0].len() > 0,
    ensures
        join_segments(rel).len() > 0,
        join_segments(rel)[0] == rel[0][0],
    decreases rel.len(),
{
    if rel.len() > 1 {
        let init = rel.drop_last();
        assert(init[0] == rel[0]);
        lemma_join_starts_with_first(init);
    }
}

/// Normalizing is idempotent: the home-relative notation that `check_path`
/// gives checks to itself (home being an absolute path).
pub proof fn lemma_check_path_idempotent(input: Seq<char>, home: Seq<char>, cwd: Seq<char>)
    requires
        is_absolute(home),
        check_outcome(input, home, cwd, true) is Ok,
    ensures
        check_outcome(check_outcome(input, home, cwd, true)->Ok_0, home, cwd, true) == check_outcome(
            input,
            home,
            cwd,
            true,
        ),
{
    let p = expand(input, home, cwd);
    let ps = place(p);
    let hs = place(home);
    let rel = ps.subrange(hs.len() as int, ps.len() as int);
    let n = check_outcome(input, home, cwd, true)->Ok_0;
    assert(n == seq!['~', '/'] + join_segments(rel));
    assert(rel.len() > 0) by {
        if rel.len() == 0 {
            assert(ps =~= ps.subrange(0, hs.len() as int));
        }
    }
    lemma_segments_good(p);
    lemma_resolve_members(segments(p));
    assert forall|i: int| 0 <= i < rel.len() implies good_segment(#[trigger] rel[i]) && rel[i] != seq![
        '.',
        '.',
    ] by {
        assert(rel[i] == ps[hs.len() + i]);
        let k = choose|k: int| 0 <= k < segments(p).len() && segments(p)[k] == ps[hs.len() + i];
    }
    assert(has_home_marker(n));
    assert(n.skip(2) =~= join_segments(rel));
    lemma_segments_below(home, rel);
    let q = join_path(home, join_segments(rel));
    assert(is_absolute(q)) by {
        lemma_join_starts_with_first(rel);
        assert(good_segment(rel[0]));
        assert(rel[0].contains(rel[0][0]));
    }
    assert(expand(n, home, cwd) == q);
    assert(segments(q) =~= segments(home) + rel);
    lemma_resolve_append(segments(home), rel);
    assert(place(q) =~= hs + rel);
    assert(place(q) != hs) by {
        assert(place(q).len() != hs.len());
    }
    assert(place(q).subrange(0, hs.len() as int) =~= hs);
    assert(place(q).subrange(hs.len() as int, place(q).len() as int) =~= rel);
}

/// Sample paths in each accepted notation: from home, relative to the
/// working directory, and absolute under `home`.
pub fn mock_dotfile_paths(home: &str) -> (r: Vec<String>)
    ensures
        views(r@) == seq![
            "~/.bashrc"@,
            ".config/app1"@,
            join_path(home@, ".config/app2/app_config2.toml"@),
        ],
{
    let mut r: Vec<String> = Vec::new();
    r.push("~/.bashrc".to_string());
    r.push(".config/app1".to_string());
    r.push(join(home, ".config/app2/app_config2.toml"));
    assert(views(r@) =~= seq![
        "~/.bashrc"@,
        ".config/app1"@,
        join_path(home@, ".config/app2/app_config2.toml"@),
    ]);
    r
}

} // verus!
