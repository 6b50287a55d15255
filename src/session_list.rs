//! The session registry: the known sessions, narrowed by a query.
//!
//! Entries are keyed by session name, unique, and kept in the order in which
//! they were first seen. The matched entries are the ranking of the keys for
//! the current query (see `fzf`). The selection is a position in that
//! ranking, but it follows the selected key: whenever the ranking is
//! recomputed, a key that is still matched stays selected; otherwise the old
//! position is clamped to the new ranking.
use vstd::prelude::*;

use crate::config;
use crate::fzf::{fzf, is_ranking, match_score, matches_view, FzfString, MatchedKey};
use crate::template::strings_view;

verus! {

#[verifier::external_type_specification]
#[verifier::external_body]
#[verifier::reject_recursive_types(K)]
#[verifier::reject_recursive_types(V)]
#[verifier::reject_recursive_types(S)]
pub struct ExIndexMap<K, V, S>(indexmap::IndexMap<K, V, S>);

/// Whether a session exists in the multiplexer, and whether it is attached.
#[derive(Clone, Copy, Debug, PartialEq, Eq, Structural)]
pub enum State {
    /// Declared in configuration only
    Undeclared,
    /// Running, not attached
    Created,
    /// Running and attached
    Attached,
}

/// A registry entry: a resolved candidate with its state.
#[derive(Clone, Debug)]
pub struct Session {
    pub state: State,
    pub root: String,
    pub windows: Vec<config::Window>,
}

/// `s` is candidate `c` in state `state`.
pub open spec fn is_entry_of(s: Session, c: config::Session, state: State) -> bool {
    &&& s.state == state
    &&& s.root == c.root
    &&& s.windows@.len() == c.window@.len()
    &&& forall|i: int|
        0 <= i < s.windows@.len() ==> config::same_window(#[trigger] s.windows@[i], c.window@[i])
}

impl Session {
    /// The entry for candidate `config` in state `state`.
    pub fn new(config: &config::Session, state: State) -> (r: Session)
        ensures
            is_entry_of(r, *config, state),
    {
        Session { state, root: config.root.clone(), windows: config::copy_windows(&config.window) }
    }
}

/// The entries of an index map, in order, as (key, session).
pub uninterp spec fn index_entries(m: indexmap::IndexMap<String, Session>) -> Seq<(Seq<char>, Session)>;

/// Relies on `IndexMap::new`: the map is empty.
#[verifier::external_body]
fn new_index() -> (r: indexmap::IndexMap<String, Session>)
    ensures
        index_entries(r) == Seq::<(Seq<char>, Session)>::empty(),
{
    indexmap::IndexMap::new()
}

/// Relies on `IndexMap::len`: the number of entries.
#[verifier::external_body]
fn index_len(m: &indexmap::IndexMap<String, Session>) -> (r: usize)
    ensures
        r == index_entries(*m).len(),
{
    m.len()
}

/// Relies on `IndexMap::get_index_of`: the position of the entry whose key
/// equals `key`, if any.
#[verifier::external_body]
fn index_of(m: &indexmap::IndexMap<String, Session>, key: &String) -> (r: Option<usize>)
    ensures
        r is Some ==> r->0 < index_entries(*m).len() && index_entries(*m)[r->0 as int].0 == key@,
        r is None ==> forall|j: int|
            0 <= j < index_entries(*m).len() ==> #[trigger] index_entries(*m)[j].0 != key@,
{
    m.get_index_of(key)
}

/// Relies on `IndexMap::get_index`: the entry at position `i`.
#[verifier::external_body]
fn entry_at(m: &indexmap::IndexMap<String, Session>, i: usize) -> (r: Option<(&String, &Session)>)
    ensures
        r is Some <==> i < index_entries(*m).len(),
        r is Some ==> ((r->0).0@, *(r->0).1) == index_entries(*m)[i as int],
{
    m.get_index(i)
}

/// Relies on `IndexMap::insert`: a key that the map does not hold is added
/// last, with its value.
#[verifier::external_body]
fn push_entry(m: &mut indexmap::IndexMap<String, Session>, key: String, value: Session)
    requires
        forall|j: int|
            0 <= j < index_entries(*old(m)).len() ==> #[trigger] index_entries(*old(m))[j].0 != key@,
    ensures
        index_entries(*final(m)) == index_entries(*old(m)).push((key@, value)),
{
    m.insert(key, value);
}

/// The keys of entries `es`, in order.
pub open spec fn keys_of(es: Seq<(Seq<char>, Session)>) -> Seq<Seq<char>> {
    es.map_values(|e: (Seq<char>, Session)| e.0)
}

/// No two entries share a key.
pub open spec fn unique_keys(es: Seq<(Seq<char>, Session)>) -> bool {
    forall|i: int, j: int| 0 <= i < j < es.len() ==> #[trigger] es[i].0 != #[trigger] es[j].0
}

/// A selection index for `n` matches: below `n`, or 0 when there is none.
pub open spec fn selection_ok(sel: nat, n: nat) -> bool {
    if n == 0 {
        sel == 0
    } else {
        sel < n
    }
}

/// `x` moved into the selection range of `n` matches: the nearest index
/// between 0 and `n - 1`, or 0 when there is no match.
pub open spec fn clamp(x: int, n: nat) -> nat {
    if n == 0 || x <= 0 {
        0
    } else if x >= n {
        (n - 1) as nat
    } else {
        x as nat
    }
}

/// `sel` is the selection in ranking `now` after the ranking `before` with
/// selection `before_sel` was recomputed: the previously selected key if it
/// is still matched, otherwise the previous index clamped.
pub open spec fn reselected(before: Seq<MatchedKey>, before_sel: nat, now: Seq<MatchedKey>, sel: nat) -> bool {
    if before_sel < before.len() && exists|k: int| 0 <= k < now.len() && #[trigger] now[k].key == before[before_sel as int].key {
        sel < now.len() && now[sel as int].key == before[before_sel as int].key
    } else {
        sel == clamp(before_sel as int, now.len())
    }
}

/// The registry with its query, ranking and selection.
pub struct SessionList {
    items: indexmap::IndexMap<String, Session>,
    matches: Vec<FzfString>,
    prompt: String,
    selected: usize,
}

impl SessionList {
    /// The entries, in scan order, as (name, session).
    pub closed spec fn entries(&self) -> Seq<(Seq<char>, Session)> {
        index_entries(self.items)
    }

    /// The current query.
    pub closed spec fn query(&self) -> Seq<char> {
        self.prompt@
    }

    /// The current ranking.
    pub closed spec fn matched(&self) -> Seq<MatchedKey> {
        matches_view(self.matches@)
    }

    /// The selection: an index into the ranking.
    pub closed spec fn selection(&self) -> nat {
        self.selected as nat
    }

    /// Keys are unique, the ranking is that of the keys for the query, and
    /// the selection lies in the ranking.
    pub open spec fn wf(&self) -> bool {
        &&& unique_keys(self.entries())
        &&& is_ranking(keys_of(self.entries()), self.query(), self.matched())
        &&& selection_ok(self.selection(), self.matched().len())
    }

    /// An empty registry with an empty query.
    pub fn new() -> (r: SessionList)
        ensures
            r.wf(),
            r.entries().len() == 0,
            r.query().len() == 0,
            r.matched().len() == 0,
            r.selection() == 0,
    {
        let r = SessionList { items: new_index(), matches: Vec::new(), prompt: String::new(), selected: 0 };
        assert(r.matched() =~= Seq::<MatchedKey>::empty());
        r
    }

    /// The number of entries.
    pub fn len(&self) -> (r: usize)
        ensures
            r == self.entries().len(),
    {
        index_len(&self.items)
    }

    /// The number of matched entries.
    pub fn matched_count(&self) -> (r: usize)
        ensures
            r == self.matched().len(),
    {
        self.matches.len()
    }

    /// The matched keys, best first.
    pub fn matched_items(&self) -> (r: &Vec<FzfString>)
        ensures
            matches_view(r@) == self.matched(),
    {
        &self.matches
    }

    /// The entry at position `i` of the scan order.
    pub fn get(&self, i: usize) -> (r: Option<(&String, &Session)>)
        ensures
            r is Some <==> i < self.entries().len(),
            r is Some ==> ((r->0).0@, *(r->0).1) == self.entries()[i as int],
    {
        entry_at(&self.items, i)
    }

    /// The index of the selection in the ranking.
    pub fn get_selected_index(&self) -> (r: usize)
        ensures
            r == self.selection(),
    {
        self.selected
    }

    /// The selected match and its entry; `None` when nothing matches.
    pub fn selected(&self) -> (r: Option<(&FzfString, &Session)>)
        requires
            self.wf(),
        ensures
            r is Some <==> self.matched().len() > 0,
            r is Some ==> (r->0).0@ == self.matched()[self.selection() as int],
            r is Some ==> self.entries()[(r->0).0@.position as int] == ((r->0).0@.key, *(r->0).1),
    {
        if self.selected < self.matches.len() {
            let m = &self.matches[self.selected as usize];
            assert(m@ == self.matched()[self.selection() as int]);
            match entry_at(&self.items, m.position()) {
                Some((_, s)) => Some((m, s)),
                None => None,
            }
        } else {
            None
        }
    }

    /// Selects index `i`, clamped to the ranking.
    pub fn set_selected(&mut self, i: usize)
        requires
            old(self).wf(),
        ensures
            final(self).wf(),
            final(self).entries() == old(self).entries(),
            final(self).query() == old(self).query(),
            final(self).matched() == old(self).matched(),
            final(self).selection() == clamp(i as int, old(self).matched().len()),
    {
        let n = self.matches.len();
        self.selected = if n == 0 {
            0
        } else if i >= n {
            n - 1
        } else {
            i
        };
    }

    /// Moves the selection by `delta` steps, stopping at the first and the
    /// last match.
    pub fn move_selection(&mut self, delta: isize)
        requires
            old(self).wf(),
        ensures
            final(self).wf(),
            final(self).entries() == old(self).entries(),
            final(self).query() == old(self).query(),
            final(self).matched() == old(self).matched(),
            final(self).selection() == clamp(old(self).selection() + delta, old(self).matched().len()),
    {
        let n = self.matches.len();
        let target: i128 = self.selected as i128 + delta as i128;
        self.selected = if n == 0 || target <= 0 {
            0
        } else if target >= n as i128 {
            n - 1
        } else {
            target as usize
        };
    }

    /// The keys, in scan order.
    fn keys(&self) -> (r: Vec<String>)
        ensures
            strings_view(r@) == keys_of(self.entries()),
    {
        let n = index_len(&self.items);
        let mut r: Vec<String> = Vec::new();
        let mut i: usize = 0;
        while i < n
            invariant
                n == self.entries().len(),
                i <= n,
                strings_view(r@) == keys_of(self.entries()).take(i as int),
            decreases n - i,
        {
            match entry_at(&self.items, i) {
                Some((k, _)) => {
                    let ghost prev = r@;
                    r.push(k.clone());
                    assert(strings_view(r@) =~= strings_view(prev).push(k@));
                    assert(keys_of(self.entries()).take(i + 1) =~= keys_of(self.entries()).take(
                        i as int,
                    ).push(k@));
                },
                None => {},
            }
            i = i + 1;
        }
        assert(keys_of(self.entries()).take(n as int) == keys_of(self.entries()));
        r
    }
}

/// The position of the first match whose key is `key`.
fn position_of_key(ms: &Vec<FzfString>, key: &String) -> (r: Option<usize>)
    ensures
        r is Some ==> r->0 < ms@.len() && matches_view(ms@)[r->0 as int].key == key@,
        r is None ==> forall|k: int| 0 <= k < ms@.len() ==> #[trigger] matches_view(ms@)[k].key != key@,
{
    let mut k: usize = 0;
    while k < ms.len()
        invariant
            k <= ms@.len(),
            forall|j: int| 0 <= j < k ==> #[trigger] matches_view(ms@)[j].key != key@,
        decreases ms@.len() - k,
    {
        if *ms[k].key() == *key {
            return Some(k);
        }
        k = k + 1;
    }
    None
}

impl SessionList {
    /// Recomputes the ranking for the current keys and query, and selects
    /// again: the same key if it still matches, else the old index clamped.
    fn rematch(&mut self)
        requires
            unique_keys(old(self).entries()),
            selection_ok(old(self).selection(), old(self).matched().len()),
        ensures
            final(self).wf(),
            final(self).entries() == old(self).entries(),
            final(self).query() == old(self).query(),
            reselected(old(self).matched(), old(self).selection(), final(self).matched(), final(self).selection()),
    {
        let previous: Option<String> = if self.selected < self.matches.len() {
            Some(self.matches[self.selected].key().clone())
        } else {
            None
        };
        let ghost before = self.matched();
        let keys = self.keys();
        self.matches = fzf(&keys, self.prompt.as_str());
        let n = self.matches.len();
        let found = match &previous {
            Some(key) => position_of_key(&self.matches, key),
            None => None,
        };
        match found {
            Some(k) => {
                self.selected = k;
            },
            None => {
                if n == 0 {
                    self.selected = 0;
                } else if self.selected >= n {
                    self.selected = n - 1;
                }
            },
        }
    }

    /// Replaces the query and ranks the entries for it.
    pub fn prompt(&mut self, prompt: &str)
        requires
            old(self).wf(),
        ensures
            final(self).wf(),
            final(self).entries() == old(self).entries(),
            final(self).query() == prompt@,
            reselected(old(self).matched(), old(self).selection(), final(self).matched(), final(self).selection()),
    {
        self.prompt = String::from_str(prompt);
        self.rematch();
    }

    /// Adds candidate `session` in state `state` unless an entry already has
    /// its name, and ranks the entries again.
    pub fn insert(&mut self, session: &config::Session, state: State)
        requires
            old(self).wf(),
        ensures
            final(self).wf(),
            keys_of(old(self).entries()).contains(session.name@) ==> final(self).entries() == old(self).entries(),
            !keys_of(old(self).entries()).contains(session.name@) ==> {
                &&& final(self).entries().len() == old(self).entries().len() + 1
                &&& final(self).entries().take(old(self).entries().len() as int) == old(self).entries()
                &&& final(self).entries().last().0 == session.name@
                &&& is_entry_of(final(self).entries().last().1, *session, state)
            },
            final(self).query() == old(self).query(),
            reselected(old(self).matched(), old(self).selection(), final(self).matched(), final(self).selection()),
    {
        match index_of(&self.items, &session.name) {
            Some(i) => {
                assert(keys_of(self.entries())[i as int] == session.name@);
            },
            None => {
                push_entry(&mut self.items, session.name.clone(), Session::new(session, state));
            },
        }
        self.rematch();
    }
}

/// The names of candidates `cs`, in order.
pub open spec fn names_of(cs: Seq<config::Session>) -> Seq<Seq<char>> {
    cs.map_values(|c: config::Session| c.name@)
}

/// The position of the first of `names` that equals `name`.
pub open spec fn first_index(names: Seq<Seq<char>>, name: Seq<char>) -> Option<nat>
    decreases names.len(),
{
    if names.len() == 0 {
        None
    } else if names[0] == name {
        Some(0)
    } else {
        match first_index(names.drop_first(), name) {
            Some(i) => Some(i + 1),
            None => None,
        }
    }
}

/// A planned entry: its name, its state, and the position of its candidate.
pub type Planned = (Seq<char>, State, nat);

/// Whether some planned entry is called `name`.
pub open spec fn has_entry(plan: Seq<Planned>, name: Seq<char>) -> bool {
    exists|i: int| 0 <= i < plan.len() && #[trigger] plan[i].0 == name
}

/// `plan` with an entry for `name` in state `state` added last, unless it
/// already has one or no candidate is called `name`.
pub open spec fn plan_add(plan: Seq<Planned>, names: Seq<Seq<char>>, name: Seq<char>, state: State) -> Seq<Planned> {
    match first_index(names, name) {
        Some(c) => if has_entry(plan, name) {
            plan
        } else {
            plan.push((name, state, c))
        },
        None => plan,
    }
}

/// `plan` with each of `adds`, in order, added in state `state`.
pub open spec fn plan_all(plan: Seq<Planned>, names: Seq<Seq<char>>, adds: Seq<Seq<char>>, state: State) -> Seq<Planned>
    decreases adds.len(),
{
    if adds.len() == 0 {
        plan
    } else {
        plan_add(plan_all(plan, names, adds.drop_last(), state), names, adds.last(), state)
    }
}

/// The entries that a rebuild makes from candidates called `names` and the
/// multiplexer's lists: attached sessions first, then created ones, then the
/// remaining candidates; each name once, with its first candidate, in the
/// state in which it was first met.
pub open spec fn merged(names: Seq<Seq<char>>, attached: Seq<Seq<char>>, created: Seq<Seq<char>>) -> Seq<Planned> {
    let with_attached = plan_all(seq![], names, attached, State::Attached);
    let with_created = plan_all(with_attached, names, created, State::Created);
    plan_all(with_created, names, names, State::Undeclared)
}

/// Entries `es` are what `plan` lays out over candidates `cs`.
pub open spec fn realizes(es: Seq<(Seq<char>, Session)>, plan: Seq<Planned>, cs: Seq<config::Session>) -> bool {
    &&& es.len() == plan.len()
    &&& forall|i: int|
        0 <= i < es.len() ==> {
            &&& (#[trigger] es[i]).0 == plan[i].0
            &&& plan[i].2 < cs.len()
            &&& is_entry_of(es[i].1, cs[plan[i].2 as int], plan[i].1)
        }
}

proof fn lemma_first_index(names: Seq<Seq<char>>, name: Seq<char>)
    ensures
        first_index(names, name) is Some <==> names.contains(name),
        first_index(names, name) matches Some(i) ==> {
            &&& i < names.len()
            &&& names[i as int] == name
            &&& forall|j: int| 0 <= j < i ==> names[j] != name
        },
    decreases names.len(),
{
    if names.len() > 0 {
        lemma_first_index(names.drop_first(), name);
        if names[0] != name {
            if names.contains(name) {
                let k = choose|k: int| 0 <= k < names.len() && names[k] == name;
                assert(names.drop_first()[k - 1] == name);
            }
            if names.drop_first().contains(name) {
                let k = choose|k: int| 0 <= k < names.drop_first().len() && names.drop_first()[k] == name;
                assert(names[k + 1] == name);
            }
            if let Some(i) = first_index(names.drop_first(), name) {
                assert(names[i + 1 as int] == names.drop_first()[i as int]);
                assert forall|j: int| 0 <= j < i + 1 implies names[j] != name by {
                    if j > 0 {
                        assert(names[j] == names.drop_first()[j - 1]);
                    }
                }
            }
        }
    }
}

/// Adding to a plan keeps what it held.
proof fn lemma_plan_all_extends(plan: Seq<Planned>, names: Seq<Seq<char>>, adds: Seq<Seq<char>>, state: State)
    ensures
        plan_all(plan, names, adds, state).len() >= plan.len(),
        plan_all(plan, names, adds, state).take(plan.len() as int) == plan,
    decreases adds.len(),
{
    if adds.len() == 0 {
        assert(plan.take(plan.len() as int) == plan);
    } else {
        let before = plan_all(plan, names, adds.drop_last(), state);
        lemma_plan_all_extends(plan, names, adds.drop_last(), state);
        assert(plan_all(plan, names, adds, state).take(plan.len() as int) == before.take(plan.len() as int));
    }
}

/// Every added name that a candidate carries has an entry.
proof fn lemma_plan_all_has(plan: Seq<Planned>, names: Seq<Seq<char>>, adds: Seq<Seq<char>>, state: State, name: Seq<char>)
    requires
        adds.contains(name) || has_entry(plan, name),
        names.contains(name),
    ensures
        has_entry(plan_all(plan, names, adds, state), name),
    decreases adds.len(),
{
    lemma_first_index(names, name);
    if adds.len() > 0 {
        let before = plan_all(plan, names, adds.drop_last(), state);
        if adds.last() == name {
            if has_entry(before, name) {
                let i = choose|i: int| 0 <= i < before.len() && #[trigger] before[i].0 == name;
                assert(plan_add(before, names, name, state)[i].0 == name);
            } else {
                assert(plan_add(before, names, name, state).last().0 == name);
            }
        } else {
            if adds.contains(name) {
                let k = choose|k: int| 0 <= k < adds.len() && adds[k] == name;
                assert(adds.drop_last()[k] == name);
            }
            lemma_plan_all_has(plan, names, adds.drop_last(), state, name);
            let i = choose|i: int| 0 <= i < before.len() && #[trigger] before[i].0 == name;
            assert(plan_add(before, names, adds.last(), state)[i].0 == name);
        }
    } else {
        assert(!adds.contains(name));
    }
}

/// Names that neither the plan nor any candidate carries get no entry.
proof fn lemma_plan_all_lacks(plan: Seq<Planned>, names: Seq<Seq<char>>, adds: Seq<Seq<char>>, state: State, name: Seq<char>)
    requires
        !has_entry(plan, name),
        !names.contains(name),
    ensures
        !has_entry(plan_all(plan, names, adds, state), name),
    decreases adds.len(),
{
    lemma_first_index(names, adds.last());
    if adds.len() > 0 {
        lemma_plan_all_lacks(plan, names, adds.drop_last(), state, name);
        let before = plan_all(plan, names, adds.drop_last(), state);
        let after = plan_add(before, names, adds.last(), state);
        if has_entry(after, name) {
            let i = choose|i: int| 0 <= i < after.len() && #[trigger] after[i].0 == name;
            if first_index(names, adds.last()) is Some && !has_entry(before, adds.last()) {
                assert(i < before.len() ==> before[i].0 == name);
                assert(names[first_index(names, adds.last())->0 as int] == adds.last());
            }
        }
    }
}

/// Every entry that a plan of one state adds has that state.
proof fn lemma_plan_all_state(names: Seq<Seq<char>>, adds: Seq<Seq<char>>, state: State)
    ensures
        forall|i: int|
            0 <= i < plan_all(seq![], names, adds, state).len() ==> (#[trigger] plan_all(seq![], names, adds, state)[i]).1
                == state,
    decreases adds.len(),
{
    if adds.len() > 0 {
        lemma_plan_all_state(names, adds.drop_last(), state);
    }
}

/// A name that the multiplexer lists as attached, and also as created,
/// and that a candidate carries, has exactly one entry, and it is attached.
pub proof fn lemma_attached_wins(
    names: Seq<Seq<char>>,
    attached: Seq<Seq<char>>,
    created: Seq<Seq<char>>,
    name: Seq<char>,
)
    requires
        names.contains(name),
        attached.contains(name),
        created.contains(name),
    ensures
        exists|i: int|
            0 <= i < merged(names, attached, created).len() && (#[trigger] merged(names, attached, created)[i]).0
                == name && merged(names, attached, created)[i].1 == State::Attached,
        forall|i: int, j: int|
            0 <= i < j < merged(names, attached, created).len() ==> (#[trigger] merged(names, attached, created)[i]).0
                != (#[trigger] merged(names, attached, created)[j]).0,
{
    let attached_plan = plan_all(seq![], names, attached, State::Attached);
    let created_plan = plan_all(attached_plan, names, created, State::Created);
    let full_plan = plan_all(created_plan, names, names, State::Undeclared);
    lemma_plan_all_has(seq![], names, attached, State::Attached, name);
    lemma_plan_all_state(names, attached, State::Attached);
    let i = choose|i: int| 0 <= i < attached_plan.len() && #[trigger] attached_plan[i].0 == name;
    lemma_plan_all_extends(attached_plan, names, created, State::Created);
    lemma_plan_all_extends(created_plan, names, names, State::Undeclared);
    assert(created_plan[i] == created_plan.take(attached_plan.len() as int)[i]);
    assert(full_plan[i] == full_plan.take(created_plan.len() as int)[i]);
    assert(attached_plan[i].1 == State::Attached);
    assert(full_plan == merged(names, attached, created));
    assert(full_plan[i].0 == name && full_plan[i].1 == State::Attached);
    lemma_plan_unique(seq![], names, attached, State::Attached);
    lemma_plan_unique(attached_plan, names, created, State::Created);
    lemma_plan_unique(created_plan, names, names, State::Undeclared);
}

/// A name that no candidate carries has no entry, whatever the
/// multiplexer lists.
pub proof fn lemma_unknown_name_absent(
    names: Seq<Seq<char>>,
    attached: Seq<Seq<char>>,
    created: Seq<Seq<char>>,
    name: Seq<char>,
)
    requires
        !names.contains(name),
    ensures
        forall|i: int|
            0 <= i < merged(names, attached, created).len() ==> (#[trigger] merged(names, attached, created)[i]).0
                != name,
{
    let attached_plan = plan_all(seq![], names, attached, State::Attached);
    let created_plan = plan_all(attached_plan, names, created, State::Created);
    lemma_plan_all_lacks(seq![], names, attached, State::Attached, name);
    lemma_plan_all_lacks(attached_plan, names, created, State::Created, name);
    lemma_plan_all_lacks(created_plan, names, names, State::Undeclared, name);
}

/// Plans never hold a name twice.
proof fn lemma_plan_unique(plan: Seq<Planned>, names: Seq<Seq<char>>, adds: Seq<Seq<char>>, state: State)
    requires
        forall|i: int, j: int| 0 <= i < j < plan.len() ==> (#[trigger] plan[i]).0 != (#[trigger] plan[j]).0,
    ensures
        forall|i: int, j: int|
            0 <= i < j < plan_all(plan, names, adds, state).len() ==> (#[trigger] plan_all(plan, names, adds, state)[i]).0
                != (#[trigger] plan_all(plan, names, adds, state)[j]).0,
    decreases adds.len(),
{
    if adds.len() > 0 {
        lemma_plan_unique(plan, names, adds.drop_last(), state);
        let before = plan_all(plan, names, adds.drop_last(), state);
        let after = plan_all(plan, names, adds, state);
        assert forall|i: int, j: int| 0 <= i < j < after.len() implies (#[trigger] after[i]).0 != (#[trigger] after[j]).0 by {
            if j == before.len() {
                assert(after[i] == before[i]);
                assert(!has_entry(before, adds.last()));
            } else {
                assert(after[i] == before[i] && after[j] == before[j]);
            }
        }
    }
}

/// When a selected key is still an entry and still matches the query after
/// the ranking is recomputed (by a new query, an insertion or a refresh), it
/// is still selected.
pub proof fn lemma_selected_key_kept(
    before: Seq<MatchedKey>,
    before_sel: nat,
    keys: Seq<Seq<char>>,
    query: Seq<char>,
    now: Seq<MatchedKey>,
    sel: nat,
)
    requires
        before_sel < before.len(),
        keys.contains(before[before_sel as int].key),
        match_score(before[before_sel as int].key, query) is Some,
        is_ranking(keys, query, now),
        reselected(before, before_sel, now, sel),
    ensures
        sel < now.len(),
        now[sel as int].key == before[before_sel as int].key,
{
    let key = before[before_sel as int].key;
    let i = choose|i: int| 0 <= i < keys.len() && keys[i] == key;
    assert(match_score(keys[i], query) is Some);
    let k = choose|k: int| 0 <= k < now.len() && #[trigger] now[k].position == i;
    assert(now[k].key == key);
}

/// Moving or setting the selection never leaves the ranking: the result is
/// 0 below the first match, the last match above it, and 0 when nothing
/// matches.
pub proof fn lemma_clamp(x: int, n: nat)
    ensures
        selection_ok(clamp(x, n), n),
        x <= 0 ==> clamp(x, n) == 0,
        n > 0 && x >= n ==> clamp(x, n) == n - 1,
        0 <= x < n ==> clamp(x, n) == x,
{
}

/// The names of candidates `cs`.
fn candidate_names(cs: &Vec<config::Session>) -> (r: Vec<String>)
    ensures
        strings_view(r@) == names_of(cs@),
{
    let mut r: Vec<String> = Vec::new();
    let mut i: usize = 0;
    while i < cs.len()
        invariant
            i <= cs@.len(),
            strings_view(r@) == names_of(cs@).take(i as int),
        decreases cs@.len() - i,
    {
        let ghost prev = r@;
        r.push(cs[i].name.clone());
        assert(strings_view(r@) =~= strings_view(prev).push(cs@[i as int].name@));
        assert(names_of(cs@).take(i + 1) =~= names_of(cs@).take(i as int).push(cs@[i as int].name@));
        i = i + 1;
    }
    assert(names_of(cs@).take(cs@.len() as int) == names_of(cs@));
    r
}

/// The position of the first candidate called `name`.
fn find_candidate(cs: &Vec<config::Session>, name: &String) -> (r: Option<usize>)
    ensures
        r is Some <==> first_index(names_of(cs@), name@) is Some,
        r is Some ==> r->0 == first_index(names_of(cs@), name@)->0,
{
    let mut i: usize = 0;
    while i < cs.len()
        invariant
            i <= cs@.len(),
            forall|j: int| 0 <= j < i ==> names_of(cs@)[j] != name@,
        decreases cs@.len() - i,
    {
        if cs[i].name == *name {
            proof {
                lemma_first_index(names_of(cs@), name@);
                let f = first_index(names_of(cs@), name@);
                assert(names_of(cs@)[i as int] == name@);
                assert(names_of(cs@).contains(name@));
                if f->0 < i {
                    assert(names_of(cs@)[f->0 as int] != name@);
                }
                if f->0 > i {
                    assert(names_of(cs@)[i as int] != name@);
                }
            }
            return Some(i);
        }
        i = i + 1;
    }
    proof {
        lemma_first_index(names_of(cs@), name@);
        if names_of(cs@).contains(name@) {
            let k = choose|k: int| 0 <= k < names_of(cs@).len() && names_of(cs@)[k] == name@;
            assert(names_of(cs@)[k] != name@);
        }
    }
    None
}

/// Adds each of `adds` in state `state` to the entries `items`, as
/// `plan_all` lays out.
fn add_all(
    items: &mut indexmap::IndexMap<String, Session>,
    cs: &Vec<config::Session>,
    adds: &Vec<String>,
    state: State,
    Ghost(plan): Ghost<Seq<Planned>>,
)
    requires
        realizes(index_entries(*old(items)), plan, cs@),
        unique_keys(index_entries(*old(items))),
    ensures
        realizes(index_entries(*final(items)), plan_all(plan, names_of(cs@), strings_view(adds@), state), cs@),
        unique_keys(index_entries(*final(items))),
{
    let ghost names = names_of(cs@);
    let mut i: usize = 0;
    while i < adds.len()
        invariant
            i <= adds@.len(),
            names == names_of(cs@),
            realizes(index_entries(*items), plan_all(plan, names, strings_view(adds@).take(i as int), state), cs@),
            unique_keys(index_entries(*items)),
        decreases adds@.len() - i,
    {
        let ghost before = plan_all(plan, names, strings_view(adds@).take(i as int), state);
        let name = &adds[i];
        assert(strings_view(adds@).take(i + 1).drop_last() == strings_view(adds@).take(i as int));
        assert(strings_view(adds@).take(i + 1).last() == name@);
        proof {
            lemma_first_index(names, name@);
        }
        match find_candidate(cs, name) {
            Some(c) => {
                match index_of(items, name) {
                    Some(k) => {
                        assert(index_entries(*items)[k as int].0 == name@);
                        assert(before[k as int].0 == name@);
                    },
                    None => {
                        assert(!has_entry(before, name@)) by {
                            if has_entry(before, name@) {
                                let k = choose|k: int| 0 <= k < before.len() && #[trigger] before[k].0 == name@;
                                assert(index_entries(*items)[k].0 == name@);
                            }
                        }
                        let ghost es = index_entries(*items);
                        let entry = Session::new(&cs[c], state);
                        push_entry(items, name.clone(), entry);
                        assert(realizes(index_entries(*items), before.push((name@, state, c as nat)), cs@)) by {
                            assert forall|j: int| 0 <= j < index_entries(*items).len() implies {
                                &&& (#[trigger] index_entries(*items)[j]).0 == before.push((name@, state, c as nat))[j].0
                                &&& before.push((name@, state, c as nat))[j].2 < cs@.len()
                                &&& is_entry_of(index_entries(*items)[j].1, cs@[before.push((name@, state, c as nat))[j].2 as int], before.push((name@, state, c as nat))[j].1)
                            } by {
                                if j < es.len() {
                                    assert(index_entries(*items)[j] == es[j]);
                                }
                            }
                        }
                        assert(unique_keys(index_entries(*items))) by {
                            assert forall|a: int, b: int| 0 <= a < b < index_entries(*items).len() implies #[trigger] index_entries(*items)[a].0
                                != #[trigger] index_entries(*items)[b].0 by {
                                if b == es.len() {
                                    assert(es[a].0 != name@);
                                } else {
                                    assert(es[a].0 != es[b].0);
                                }
                            }
                        }
                    },
                }
            },
            None => {},
        }
        i = i + 1;
    }
    assert(strings_view(adds@).take(adds@.len() as int) == strings_view(adds@));
}

impl SessionList {
    /// Rebuilds the entries from scratch out of candidates `sessions` and the
    /// multiplexer's lists of attached and created sessions, then ranks them
    /// for the current query and selects again.
    pub fn refresh(&mut self, sessions: &Vec<config::Session>, attached: &Vec<String>, created: &Vec<String>)
        requires
            old(self).wf(),
        ensures
            final(self).wf(),
            realizes(
                final(self).entries(),
                merged(names_of(sessions@), strings_view(attached@), strings_view(created@)),
                sessions@,
            ),
            final(self).query() == old(self).query(),
            reselected(old(self).matched(), old(self).selection(), final(self).matched(), final(self).selection()),
    {
        let mut items = new_index();
        let names = candidate_names(sessions);
        let ghost empty: Seq<Planned> = seq![];
        add_all(&mut items, sessions, attached, State::Attached, Ghost(empty));
        let ghost attached_plan = plan_all(empty, names_of(sessions@), strings_view(attached@), State::Attached);
        add_all(&mut items, sessions, created, State::Created, Ghost(attached_plan));
        let ghost created_plan = plan_all(attached_plan, names_of(sessions@), strings_view(created@), State::Created);
        add_all(&mut items, sessions, &names, State::Undeclared, Ghost(created_plan));
        self.items = items;
        self.rematch();
    }
}

} // verus!
