//! Session specifications and their resolution into candidates.
//!
//! A specification's root is a glob pattern whose segments may capture. Each
//! directory that the pattern matches gives one candidate, whose name and
//! window fields are templates expanded with that match's captures.
use vstd::prelude::*;

use crate::template::{expand, expansion, pairs_view, strings_view};

verus! {

/// A window of a session.
#[derive(Clone, Debug)]
pub struct Window {
    /// Window name (a template)
    pub name: String,
    /// Startup command (a template)
    pub command: String,
    /// Keys sent to the window to close it safely; empty to kill it outright
    pub kill: Vec<String>,
}

/// A session specification, or a candidate resolved from one.
#[derive(Clone, Debug)]
pub struct Session {
    /// Root directory; in a specification, a glob pattern (a template)
    pub root: String,
    /// Session name (a template)
    pub name: String,
    /// The windows, in order
    pub window: Vec<Window>,
}

/// One entry that the glob pattern of a root matched.
pub struct GlobMatch {
    /// The matched path
    pub path: String,
    /// Whether the path is a directory
    pub is_dir: bool,
    /// Capture group `n` at index `n`; group 0 is the whole path
    pub groups: Vec<String>,
}

/// The directories among the glob's entries, in order; failed entries and
/// other files are left out.
pub open spec fn directories(entries: Seq<Result<GlobMatch, String>>) -> Seq<GlobMatch>
    decreases entries.len(),
{
    if entries.len() == 0 {
        seq![]
    } else {
        let rest = directories(entries.drop_last());
        match entries.last() {
            Ok(m) => if m.is_dir {
                rest.push(m)
            } else {
                rest
            },
            Err(_) => rest,
        }
    }
}

/// `w` is window `spec` with its name and command expanded with `captures`.
pub open spec fn is_expanded_window(
    w: Window,
    spec: Window,
    captures: Seq<Seq<char>>,
    env: Seq<(Seq<char>, Seq<char>)>,
) -> bool {
    &&& w.name@ == expansion(spec.name@, captures, env)
    &&& w.command@ == expansion(spec.command@, captures, env)
    &&& w.kill@ == spec.kill@
}

/// `c` is the candidate that specification `spec` gives for the match `m`.
pub open spec fn is_candidate(
    c: Session,
    spec: Session,
    m: GlobMatch,
    env: Seq<(Seq<char>, Seq<char>)>,
) -> bool {
    let captures = strings_view(m.groups@);
    &&& c.root@ == m.path@
    &&& c.name@ == expansion(spec.name@, captures, env)
    &&& c.window@.len() == spec.window@.len()
    &&& forall|i: int|
        0 <= i < c.window@.len() ==> is_expanded_window(
            #[trigger] c.window@[i],
            spec.window@[i],
            captures,
            env,
        )
}

/// A copy of `v`.
pub fn copy_strings(v: &Vec<String>) -> (r: Vec<String>)
    ensures
        r@ == v@,
{
    let mut r: Vec<String> = Vec::new();
    let mut i: usize = 0;
    while i < v.len()
        invariant
            i <= v@.len(),
            r@ == v@.take(i as int),
        decreases v@.len() - i,
    {
        r.push(v[i].clone());
        i = i + 1;
        assert(r@ == v@.take(i as int));
    }
    assert(v@.take(v@.len() as int) == v@);
    r
}

/// `a` and `b` hold the same window.
pub open spec fn same_window(a: Window, b: Window) -> bool {
    a.name == b.name && a.command == b.command && a.kill@ == b.kill@
}

/// A copy of the windows `v`.
pub fn copy_windows(v: &Vec<Window>) -> (r: Vec<Window>)
    ensures
        r@.len() == v@.len(),
        forall|i: int| 0 <= i < r@.len() ==> same_window(#[trigger] r@[i], v@[i]),
{
    let mut r: Vec<Window> = Vec::new();
    let mut i: usize = 0;
    while i < v.len()
        invariant
            i <= v@.len(),
            r@.len() == i,
            forall|j: int| 0 <= j < i ==> same_window(#[trigger] r@[j], v@[j]),
        decreases v@.len() - i,
    {
        let w = &v[i];
        r.push(Window { name: w.name.clone(), command: w.command.clone(), kill: copy_strings(&w.kill) });
        i = i + 1;
    }
    r
}

/// The glob pattern of `session`'s root: the root expanded with no captures.
pub fn root_pattern(session: &Session, env: &Vec<(String, String)>) -> (r: String)
    ensures
        r@ == expansion(session.root@, seq![], pairs_view(env@)),
{
    let none: Vec<String> = Vec::new();
    assert(strings_view(none@) == Seq::<Seq<char>>::empty());
    expand(session.root.as_str(), &none, env)
}

/// The candidate that `spec` gives for the match `m`.
fn candidate(spec: &Session, m: &GlobMatch, env: &Vec<(String, String)>) -> (r: Session)
    ensures
        is_candidate(r, *spec, *m, pairs_view(env@)),
{
    let mut window: Vec<Window> = Vec::new();
    let mut i: usize = 0;
    while i < spec.window.len()
        invariant
            i <= spec.window@.len(),
            window@.len() == i,
            forall|j: int|
                0 <= j < i ==> is_expanded_window(
                    #[trigger] window@[j],
                    spec.window@[j],
                    strings_view(m.groups@),
                    pairs_view(env@),
                ),
        decreases spec.window@.len() - i,
    {
        let w = &spec.window[i];
        window.push(
            Window {
                name: expand(w.name.as_str(), &m.groups, env),
                command: expand(w.command.as_str(), &m.groups, env),
                kill: copy_strings(&w.kill),
            },
        );
        i = i + 1;
    }
    Session {
        root: m.path.clone(),
        name: expand(spec.name.as_str(), &m.groups, env),
        window,
    }
}

/// Resolves specification `spec` against the entries that its root's glob
/// pattern produced: one candidate per directory, in order.
pub fn resolve(spec: &Session, entries: &Vec<Result<GlobMatch, String>>, env: &Vec<(String, String)>) -> (r: Vec<Session>)
    ensures
        r@.len() == directories(entries@).len(),
        forall|j: int|
            0 <= j < r@.len() ==> is_candidate(
                #[trigger] r@[j],
                *spec,
                directories(entries@)[j],
                pairs_view(env@),
            ),
{
    let mut r: Vec<Session> = Vec::new();
    let mut i: usize = 0;
    while i < entries.len()
        invariant
            i <= entries@.len(),
            r@.len() == directories(entries@.take(i as int)).len(),
            forall|j: int|
                0 <= j < r@.len() ==> is_candidate(
                    #[trigger] r@[j],
                    *spec,
                    directories(entries@.take(i as int))[j],
                    pairs_view(env@),
                ),
        decreases entries@.len() - i,
    {
        let ghost before = entries@.take(i as int);
        assert(entries@.take(i + 1 as int).drop_last() == before);
        match &entries[i] {
            Ok(m) => {
                if m.is_dir {
                    r.push(candidate(spec, m, env));
                }
            },
            Err(_) => {},
        }
        i = i + 1;
    }
    assert(entries@.take(entries@.len() as int) == entries@);
    r
}

} // verus!
