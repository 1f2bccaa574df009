use vstd::prelude::*;

use crate::gitmodules::{declares, gitmodules_of, opt_view, GitModules, SubmoduleView};
use crate::text::{chars_of, matches_at};

verus! {

/// What the walk met at one entry of the directory tree.
pub enum WalkEntry {
    /// The entry resolved to the canonical path `path`. `gitmodules` holds the
    /// text of the `.gitmodules` file directly inside it, where there is one
    /// that could be read.
    Resolved { path: String, gitmodules: Option<String> },
    /// The entry could not be resolved; `not_found` tells that it no longer
    /// exists.
    Unresolved { not_found: bool, message: String },
}

/// The state of a walk: the submodule declarations read last, and the
/// repository roots found so far, in the order of the walk.
pub struct WalkModel {
    pub current: Option<Seq<SubmoduleView>>,
    pub found: Seq<Seq<char>>,
}

/// The name of the directory that marks a repository.
pub open spec fn marker() -> Seq<char> {
    seq!['.', 'g', 'i', 't']
}

/// The last index before `end` that holds a `/`.
pub open spec fn last_slash(p: Seq<char>, end: int) -> Option<int>
    decreases end,
{
    if end <= 0 {
        None
    } else if p[end - 1] == '/' {
        Some(end - 1)
    } else {
        last_slash(p, end - 1)
    }
}

/// The last segment of a path.
pub open spec fn final_segment(p: Seq<char>) -> Seq<char> {
    match last_slash(p, p.len() as int) {
        Some(k) => p.subrange(k + 1, p.len() as int),
        None => p,
    }
}

/// A path without its last segment and the `/` before it.
pub open spec fn parent(p: Seq<char>) -> Seq<char> {
    match last_slash(p, p.len() as int) {
        Some(k) => p.subrange(0, k),
        None => seq![],
    }
}

/// The path of the directory that holds the marker `p`: its parent, or the
/// root `/` itself.
pub open spec fn repository_root(p: Seq<char>) -> Seq<char> {
    match last_slash(p, p.len() as int) {
        Some(k) => if k == 0 {
            seq!['/']
        } else {
            p.subrange(0, k)
        },
        None => seq![],
    }
}

pub open spec fn is_marker(p: Seq<char>) -> bool {
    final_segment(p) == marker()
}

/// The marker `p` belongs to a submodule: the name of the directory that
/// holds it is a declared path.
pub open spec fn excluded(p: Seq<char>, current: Option<Seq<SubmoduleView>>) -> bool {
    match current {
        Some(ms) => declares(ms, final_segment(parent(p))),
        None => false,
    }
}

/// The declarations in force after an entry whose `.gitmodules` text is
/// `text`: a text that parses replaces them, anything else keeps them.
pub open spec fn context_after(current: Option<Seq<SubmoduleView>>, text: Option<Seq<char>>) -> Option<
    Seq<SubmoduleView>,
> {
    match text {
        Some(t) => match gitmodules_of(t) {
            Ok(ms) => Some(ms),
            Err(_) => current,
        },
        None => current,
    }
}

/// The walk after a resolved entry.
pub open spec fn visit_resolved(w: WalkModel, path: Seq<char>, text: Option<Seq<char>>) -> WalkModel {
    let current = context_after(w.current, text);
    if is_marker(path) && !excluded(path, current) {
        WalkModel { current, found: w.found.push(repository_root(path)) }
    } else {
        WalkModel { current, found: w.found }
    }
}

/// The walk after one entry, or the message that stops it.
pub open spec fn step(w: WalkModel, e: WalkEntry) -> Result<WalkModel, Seq<char>> {
    match e {
        WalkEntry::Resolved { path, gitmodules } => Ok(visit_resolved(w, path@, opt_view(gitmodules))),
        WalkEntry::Unresolved { not_found, message } => if not_found {
            Ok(w)
        } else {
            Err(message@)
        },
    }
}

pub open spec fn walk_start() -> WalkModel {
    WalkModel { current: None, found: seq![] }
}

/// The walk over the entries, in order; it stops at the first entry that
/// cannot be resolved for a reason other than being gone.
pub open spec fn walk(entries: Seq<WalkEntry>) -> Result<WalkModel, Seq<char>>
    decreases entries.len(),
{
    if entries.len() == 0 {
        Ok(walk_start())
    } else {
        match walk(entries.drop_last()) {
            Ok(w) => step(w, entries.last()),
            Err(m) => Err(m),
        }
    }
}

/// The repository roots that a walk over the entries finds.
pub open spec fn discovered(entries: Seq<WalkEntry>) -> Result<Seq<Seq<char>>, Seq<char>> {
    match walk(entries) {
        Ok(w) => Ok(w.found),
        Err(m) => Err(m),
    }
}

pub open spec fn texts(v: Seq<String>) -> Seq<Seq<char>> {
    v.map_values(|s: String| s@)
}

/// The walk of the directory tree, one entry at a time.
///
/// The declarations of the `.gitmodules` file read last stay in force for the
/// rest of the walk, also in directories outside the repository that declared
/// them: a later sibling tree can be judged by them.
pub struct Walker {
    current: Option<GitModules>,
    found: Vec<String>,
}

impl View for Walker {
    type V = WalkModel;

    closed spec fn view(&self) -> WalkModel {
        WalkModel {
            current: match self.current {
                Some(g) => Some(g@),
                None => None,
            },
            found: texts(self.found@),
        }
    }
}

proof fn lemma_last_slash_prefix(p: Seq<char>, k: int, end: int)
    requires
        0 <= end <= k <= p.len(),
    ensures
        last_slash(p.subrange(0, k), end) == last_slash(p, end),
    decreases end,
{
    if end > 0 {
        lemma_last_slash_prefix(p, k, end - 1);
    }
}

/// The last index before `end` that holds a `/`.
fn rfind_slash(cs: &Vec<char>, end: usize) -> (r: Option<usize>)
    requires
        end <= cs.len(),
    ensures
        match r {
            Some(k) => last_slash(cs@, end as int) == Some(k as int) && k < end,
            None => last_slash(cs@, end as int) is None,
        },
{
    let mut e = end;
    while e > 0
        invariant
            e <= end <= cs.len(),
            last_slash(cs@, e as int) == last_slash(cs@, end as int),
        decreases e,
    {
        if cs[e - 1] == '/' {
            return Some(e - 1);
        }
        e = e - 1;
    }
    None
}

/// Whether the path `path`, whose characters are `cs`, ends in the segment
/// `.git`.
fn ends_in_marker(path: &str, cs: &Vec<char>) -> (r: bool)
    requires
        cs@ == path@,
    ensures
        r == is_marker(path@),
{
    let start = match rfind_slash(cs, cs.len()) {
        Some(k) => k + 1,
        None => 0,
    };
    proof {
        reveal_strlit(".git");
        assert(".git"@ =~= marker());
        assert(final_segment(path@) =~= path@.subrange(start as int, path@.len() as int));
    }
    cs.len() - start == 4 && matches_at(cs, start, ".git")
}

/// The directory that holds the marker `path`, whose characters are `cs`.
fn root_of(path: &str, cs: &Vec<char>) -> (r: String)
    requires
        cs@ == path@,
    ensures
        r@ == repository_root(path@),
{
    match rfind_slash(cs, cs.len()) {
        Some(k) => if k == 0 {
            proof {
                reveal_strlit("/");
                assert("/"@ =~= seq!['/']);
            }
            "/".to_owned()
        } else {
            path.substring_char(0, k).to_owned()
        },
        None => String::new(),
    }
}

/// Whether the marker at `path` belongs to a submodule that `gitmodules`
/// declares: the name of the directory that holds it is a declared path.
pub fn is_submodule(path: &str, gitmodules: Option<&GitModules>) -> (r: bool)
    ensures
        r == excluded(
            path@,
            match gitmodules {
                Some(g) => Some(g@),
                None => None,
            },
        ),
{
    match gitmodules {
        Some(gitmodules) => {
            // If this is a submodule, the directory that holds the marker is
            // named by a path of the enclosing repository's declarations.
            let cs = chars_of(path);
            let end = match rfind_slash(&cs, cs.len()) {
                Some(k) => k,
                None => 0,
            };
            let start = match rfind_slash(&cs, end) {
                Some(k) => k + 1,
                None => 0,
            };
            proof {
                let p = path@;
                lemma_last_slash_prefix(p, end as int, end as int);
                assert(parent(p) =~= p.subrange(0, end as int));
                assert(final_segment(parent(p)) =~= p.subrange(start as int, end as int));
            }
            let name = path.substring_char(start, end);
            gitmodules.contains(name)
        },
        None => false,
    }
}

impl Walker {
    /// A walk that has met no entry yet.
    pub fn new() -> (r: Walker)
        ensures
            r@ == walk_start(),
    {
        let r = Walker { current: None, found: Vec::new() };
        assert(r@.found =~= Seq::<Seq<char>>::empty());
        r
    }

    /// Takes in the next entry of the walk. An entry that cannot be resolved,
    /// for another reason than being gone, stops the walk: its message comes
    /// back and the walk is left as it was.
    pub fn visit(&mut self, entry: &WalkEntry) -> (r: Result<(), String>)
        ensures
            match r {
                Ok(_) => step(old(self)@, *entry) == Ok::<WalkModel, Seq<char>>(final(self)@),
                Err(m) => step(old(self)@, *entry) == Err::<WalkModel, Seq<char>>(m@) && final(self)@ == old(self)@,
            },
    {
        match entry {
            WalkEntry::Resolved { path, gitmodules } => {
                // A `.gitmodules` text that parses replaces the declarations
                if let Some(text) = gitmodules {
                    if let Ok(tmp) = GitModules::parse(text.as_str()) {
                        self.current = Some(tmp);
                    }
                }
                let ghost current = self@.current;
                assert(current == context_after(old(self)@.current, opt_view(*gitmodules)));

                // Ignore entries that are no repository marker
                let cs = chars_of(path.as_str());
                if !ends_in_marker(path.as_str(), &cs) {
                    return Ok(());
                }
                // Ignore repositories that are a submodule
                if is_submodule(path.as_str(), self.current.as_ref()) {
                    return Ok(());
                }

                let root = root_of(path.as_str(), &cs);
                let ghost prev = self.found@;
                self.found.push(root);
                assert(texts(self.found@) =~= texts(prev).push(root@));
                Ok(())
            },
            WalkEntry::Unresolved { not_found, message } => {
                if *not_found {
                    Ok(())
                } else {
                    Err(message.clone())
                }
            },
        }
    }

    /// The repository roots found, in the order of the walk.
    pub fn into_paths(self) -> (r: Vec<String>)
        ensures
            texts(r@) == self@.found,
    {
        self.found
    }
}

/// The repository roots that a walk over `entries` finds, or the message of
/// the entry that stopped it.
pub fn repositories_paths(entries: &Vec<WalkEntry>) -> (r: Result<Vec<String>, String>)
    ensures
        match r {
            Ok(v) => discovered(entries@) == Ok::<Seq<Seq<char>>, Seq<char>>(texts(v@)),
            Err(m) => discovered(entries@) == Err::<Seq<Seq<char>>, Seq<char>>(m@),
        },
{
    let mut walker = Walker::new();
    let mut i: usize = 0;
    while i < entries.len()
        invariant
            i <= entries.len(),
            walk(entries@.take(i as int)) == Ok::<WalkModel, Seq<char>>(walker@),
        decreases entries.len() - i,
    {
        proof {
            assert(entries@.take(i + 1).drop_last() =~= entries@.take(i as int));
        }
        match walker.visit(&entries[i]) {
            Ok(()) => {},
            Err(message) => {
                proof {
                    lemma_walk_stops(entries@, i as int + 1);
                }
                return Err(message);
            },
        }
        i = i + 1;
    }
    assert(entries@.take(i as int) =~= entries@);
    Ok(walker.into_paths())
}

/// A walk that stops stays stopped, with the same message.
proof fn lemma_walk_stops(entries: Seq<WalkEntry>, i: int)
    requires
        0 <= i <= entries.len(),
        walk(entries.take(i)) is Err,
    ensures
        walk(entries) == walk(entries.take(i)),
    decreases entries.len() - i,
{
    if i < entries.len() {
        assert(entries.take(i + 1).drop_last() =~= entries.take(i));
        lemma_walk_stops(entries, i + 1);
    } else {
        assert(entries.take(i) =~= entries);
    }
}

/// Two entries that hold the same texts.
pub open spec fn same_entry(a: WalkEntry, b: WalkEntry) -> bool {
    match (a, b) {
        (
            WalkEntry::Resolved { path: p, gitmodules: g },
            WalkEntry::Resolved { path: q, gitmodules: h },
        ) => p@ == q@ && opt_view(g) == opt_view(h),
        (
            WalkEntry::Unresolved { not_found: n, message: m },
            WalkEntry::Unresolved { not_found: o, message: l },
        ) => n == o && m@ == l@,
        _ => false,
    }
}

/// Discovery is determined by what the walk met: two walks that meet entries
/// with the same texts, in the same order, find the same repository roots in
/// the same order, or stop with the same message.
pub proof fn lemma_discovery_deterministic(a: Seq<WalkEntry>, b: Seq<WalkEntry>)
    requires
        a.len() == b.len(),
        forall|i: int| 0 <= i < a.len() ==> same_entry(#[trigger] a[i], b[i]),
    ensures
        discovered(a) == discovered(b),
        walk(a) == walk(b),
    decreases a.len(),
{
    if a.len() > 0 {
        let (a0, b0) = (a.drop_last(), b.drop_last());
        assert forall|i: int| 0 <= i < a0.len() implies same_entry(#[trigger] a0[i], b0[i]) by {
            assert(a0[i] == a[i] && b0[i] == b[i]);
        }
        lemma_discovery_deterministic(a0, b0);
        assert(same_entry(a[a.len() - 1], b[b.len() - 1]));
    }
}

/// `p` holds no `/` from `lo` up to `end`, so the last `/` before `end` is
/// the last one before `lo`.
proof fn lemma_last_slash_skip(p: Seq<char>, lo: int, end: int)
    requires
        0 <= lo <= end <= p.len(),
        forall|j: int| lo <= j < end ==> p[j] != '/',
    ensures
        last_slash(p, end) == last_slash(p, lo),
    decreases end - lo,
{
    if end > lo {
        lemma_last_slash_skip(p, lo, end - 1);
    }
}

/// In `q/t`, where `t` holds no `/`, the last segment is `t` and the parent
/// is `q`.
proof fn lemma_split_last(q: Seq<char>, t: Seq<char>)
    requires
        !t.contains('/'),
    ensures
        last_slash(q + seq!['/'] + t, (q + seq!['/'] + t).len() as int) == Some(q.len() as int),
        final_segment(q + seq!['/'] + t) == t,
        parent(q + seq!['/'] + t) == q,
{
    let p = q + seq!['/'] + t;
    let lo = q.len() as int + 1;
    assert forall|j: int| lo <= j < p.len() implies p[j] != '/' by {
        assert(p[j] == t[j - lo]);
    }
    lemma_last_slash_skip(p, lo, p.len() as int);
    assert(p[lo - 1] == '/');
    assert(p.subrange(lo, p.len() as int) =~= t);
    assert(p.subrange(0, q.len() as int) =~= q);
}

/// Where the declarations in force name `name` as a path and do not name
/// `other`, the marker `dir/name/.git` is left out of the walk, while the
/// marker `dir/other/.git` adds the repository root `dir/other`. A path is
/// matched against the name of the directory that holds the marker, so both
/// are single segments.
pub proof fn lemma_submodule_exclusion(w: WalkModel, dir: Seq<char>, name: Seq<char>, other: Seq<char>)
    requires
        w.current matches Some(ms) && declares(ms, name) && !declares(ms, other),
        !name.contains('/'),
        !other.contains('/'),
    ensures
        visit_resolved(w, dir + seq!['/'] + name + seq!['/'] + marker(), None) == w,
        visit_resolved(w, dir + seq!['/'] + other + seq!['/'] + marker(), None) == (WalkModel {
            current: w.current,
            found: w.found.push(dir + seq!['/'] + other),
        }),
{
    assert(!marker().contains('/')) by {
        assert forall|j: int| 0 <= j < marker().len() implies marker()[j] != '/' by {}
    }
    let dn = dir + seq!['/'] + name;
    let dot = dir + seq!['/'] + other;
    lemma_split_last(dn, marker());
    lemma_split_last(dot, marker());
    lemma_split_last(dir, name);
    lemma_split_last(dir, other);
    assert(is_marker(dn + seq!['/'] + marker()));
    assert(excluded(dn + seq!['/'] + marker(), w.current));
    assert(!excluded(dot + seq!['/'] + marker(), w.current));
    assert(dir.len() + 1 + other.len() > 0);
    assert(repository_root(dot + seq!['/'] + marker()) == dot);
}

} // verus!
