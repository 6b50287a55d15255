//! Ranked fuzzy matching of keys against a query.
//!
//! The matching itself is nucleo's: for a key and a query it gives either no
//! match or a score with the positions of the matched characters. This module
//! keeps the keys that match, best score first, and among equal scores the
//! order in which the keys were given.
use vstd::prelude::*;

use crate::template::strings_view;

verus! {

#[verifier::external_type_specification]
#[verifier::external_body]
pub struct ExMatcher(nucleo::Matcher);

/// nucleo's verdict on `key` for `query`: the score and the matched
/// positions of the best match, or `None` when the key does not match.
pub uninterp spec fn fuzzy_indices_of(key: Seq<char>, query: Seq<char>) -> Option<(u16, Seq<u32>)>;

/// Relies on nucleo's `Matcher::new`; every matcher of this library uses the
/// default configuration.
#[verifier::external_body]
fn new_matcher() -> nucleo::Matcher {
    nucleo::Matcher::new(nucleo::Config::DEFAULT)
}

/// Relies on nucleo's `Matcher::fuzzy_indices`: with the default
/// configuration its answer depends on the two strings alone (the matcher's
/// memory is scratch space, and the positions are pushed to a fresh vector),
/// an empty query matches with score 0 and no positions, and it asserts that
/// the key has at most `u32::MAX` characters.
#[verifier::external_body]
fn fuzzy_indices(matcher: &mut nucleo::Matcher, key: &str, query: &str) -> (r: Option<(u16, Vec<u32>)>)
    requires
        key@.len() <= u32::MAX,
    ensures
        r is None <==> fuzzy_indices_of(key@, query@) is None,
        r is Some ==> fuzzy_indices_of(key@, query@) == Some(((r->0).0, (r->0).1@)),
        query@.len() == 0 ==> r is Some && (r->0).0 == 0 && (r->0).1@.len() == 0,
{
    let haystack = nucleo::Utf32String::from(key);
    let needle = nucleo::Utf32String::from(query);
    let mut positions = Vec::new();
    match matcher.fuzzy_indices(haystack.slice(..), needle.slice(..), &mut positions) {
        Some(score) => Some((score, positions)),
        None => None,
    }
}

/// The outcome of matching `key` against `query`; a key too long for the
/// matcher does not match.
pub open spec fn match_score(key: Seq<char>, query: Seq<char>) -> Option<(u16, Seq<u32>)> {
    if key.len() <= u32::MAX {
        fuzzy_indices_of(key, query)
    } else {
        None
    }
}

/// A matched key: its text, the positions of its matched characters, its
/// score, and its position in the list of keys that was ranked.
pub struct MatchedKey {
    pub key: Seq<char>,
    pub indices: Seq<u32>,
    pub score: u16,
    pub position: nat,
}

/// `a` comes before `b` in a ranking: a higher score, or an equal score and
/// an earlier key.
pub open spec fn ranks_before(a: MatchedKey, b: MatchedKey) -> bool {
    a.score > b.score || (a.score == b.score && a.position < b.position)
}

/// Every entry of `m` is a key of `keys` that `query` matches, with the
/// score and positions of that match.
pub open spec fn only_matches(keys: Seq<Seq<char>>, query: Seq<char>, m: Seq<MatchedKey>) -> bool {
    forall|k: int|
        0 <= k < m.len() ==> {
            &&& #[trigger] m[k].position < keys.len()
            &&& m[k].key == keys[m[k].position as int]
            &&& match_score(keys[m[k].position as int], query) == Some((m[k].score, m[k].indices))
        }
}

/// Every key of `keys` that `query` matches is in `m`.
pub open spec fn all_matches(keys: Seq<Seq<char>>, query: Seq<char>, m: Seq<MatchedKey>) -> bool {
    forall|i: int|
        0 <= i < keys.len() && (#[trigger] match_score(keys[i], query)) is Some ==> exists|k: int|
            0 <= k < m.len() && #[trigger] m[k].position == i
}

/// Higher scores first; equal scores in the order of the keys.
pub open spec fn in_rank_order(m: Seq<MatchedKey>) -> bool {
    forall|a: int, b: int| 0 <= a < b < m.len() ==> #[trigger] ranks_before(m[a], m[b])
}

/// `m` is the ranking of `keys` for `query`.
pub open spec fn is_ranking(keys: Seq<Seq<char>>, query: Seq<char>, m: Seq<MatchedKey>) -> bool {
    &&& only_matches(keys, query, m)
    &&& all_matches(keys, query, m)
    &&& in_rank_order(m)
}

/// A key with the characters that a query matched in it.
pub struct FzfString {
    s: String,
    indices: Vec<u32>,
    score: u16,
    position: usize,
}

impl View for FzfString {
    type V = MatchedKey;

    closed spec fn view(&self) -> MatchedKey {
        MatchedKey {
            key: self.s@,
            indices: self.indices@,
            score: self.score,
            position: self.position as nat,
        }
    }
}

/// The abstract values of a sequence of matched keys.
pub open spec fn matches_view(v: Seq<FzfString>) -> Seq<MatchedKey> {
    v.map_values(|m: FzfString| m@)
}

impl FzfString {
    /// The key itself.
    pub fn as_str(&self) -> (r: &str)
        ensures
            r@ == self@.key,
    {
        self.s.as_str()
    }

    /// The key itself.
    pub fn key(&self) -> (r: &String)
        ensures
            r@ == self@.key,
    {
        &self.s
    }

    /// The score of the match.
    pub fn score(&self) -> (r: u16)
        ensures
            r == self@.score,
    {
        self.score
    }

    /// The position of the key in the list of keys that was ranked.
    pub fn position(&self) -> (r: usize)
        ensures
            r == self@.position,
    {
        self.position
    }

    /// Whether the character at `i` was matched.
    pub fn is_matched(&self, i: usize) -> (r: bool)
        ensures
            r == self@.indices.contains(i as u32),
    {
        let mut k: usize = 0;
        while k < self.indices.len()
            invariant
                k <= self.indices@.len(),
                forall|j: int| 0 <= j < k ==> self.indices@[j] != i as u32,
            decreases self.indices@.len() - k,
        {
            if self.indices[k] == i as u32 {
                return true;
            }
            k = k + 1;
        }
        false
    }

    /// Each character of the key, with whether it was matched.
    pub fn chars(&self) -> (r: Vec<(char, bool)>)
        ensures
            r@.len() == self@.key.len(),
            forall|i: int|
                0 <= i < r@.len() ==> #[trigger] r@[i] == (self@.key[i], self@.indices.contains(
                    i as u32,
                )),
    {
        let cs = crate::text::chars_of(self.s.as_str());
        let mut r: Vec<(char, bool)> = Vec::new();
        let mut i: usize = 0;
        while i < cs.len()
            invariant
                cs@ == self@.key,
                i <= cs@.len(),
                r@.len() == i,
                forall|j: int|
                    0 <= j < i ==> #[trigger] r@[j] == (self@.key[j], self@.indices.contains(
                        j as u32,
                    )),
            decreases cs@.len() - i,
        {
            r.push((cs[i], self.is_matched(i)));
            i = i + 1;
        }
        r
    }
}

/// Ranks `items` for `prompt`: the items that match, best score first, and
/// among equal scores in the order of `items`.
pub fn fzf(items: &Vec<String>, prompt: &str) -> (r: Vec<FzfString>)
    ensures
        is_ranking(strings_view(items@), prompt@, matches_view(r@)),
{
    let ghost keys = strings_view(items@);
    let mut matcher = new_matcher();
    let mut res: Vec<FzfString> = Vec::new();
    let mut i: usize = 0;
    while i < items.len()
        invariant
            i <= items@.len(),
            keys == strings_view(items@),
            only_matches(keys, prompt@, matches_view(res@)),
            in_rank_order(matches_view(res@)),
            forall|k: int| 0 <= k < res@.len() ==> #[trigger] res@[k].position < i,
            forall|j: int|
                0 <= j < i && (#[trigger] match_score(keys[j], prompt@)) is Some ==> exists|k: int|
                    0 <= k < res@.len() && #[trigger] res@[k].position == j,
        decreases items@.len() - i,
    {
        let key = &items[i];
        let found = if key.as_str().unicode_len() <= u32::MAX as usize {
            fuzzy_indices(&mut matcher, key.as_str(), prompt)
        } else {
            None
        };
        assert(keys[i as int] == key@);
        match found {
            Some((score, indices)) => {
                let ghost old_res = res@;
                let mut p: usize = 0;
                while p < res.len() && res[p].score >= score
                    invariant
                        p <= res@.len(),
                        res@ == old_res,
                        forall|q: int| 0 <= q < p ==> #[trigger] res@[q].score >= score,
                    decreases res@.len() - p,
                {
                    p = p + 1;
                }
                let m = FzfString { s: key.clone(), indices, score, position: i };
                proof {
                    let mv = matches_view(old_res);
                    assert forall|q: int| p <= q < old_res.len() implies #[trigger] old_res[q].score
                        < score by {
                        if q > p {
                            assert(ranks_before(mv[p as int], mv[q]));
                        }
                    }
                }
                res.insert(p, m);
                proof {
                    let mv = matches_view(res@);
                    let ov = matches_view(old_res);
                    assert(mv == ov.insert(p as int, m@));
                    assert forall|a: int, b: int| 0 <= a < b < mv.len() implies #[trigger] ranks_before(
                        mv[a],
                        mv[b],
                    ) by {
                        if b < p {
                            assert(ranks_before(ov[a], ov[b]));
                        } else if a > p {
                            assert(ranks_before(ov[a - 1], ov[b - 1]));
                        } else if a < p && b > p {
                            assert(ranks_before(ov[a], ov[b - 1]));
                        }
                    }
                    assert forall|j: int|
                        0 <= j < i + 1 && (#[trigger] match_score(keys[j], prompt@)) is Some implies exists|k: int|
                        0 <= k < res@.len() && #[trigger] res@[k].position == j by {
                        if j == i {
                            assert(res@[p as int].position == j);
                        } else {
                            let k = choose|k: int| 0 <= k < old_res.len() && #[trigger] old_res[k].position == j;
                            if k < p {
                                assert(res@[k].position == j);
                            } else {
                                assert(res@[k + 1].position == j);
                            }
                        }
                    }
                }
            },
            None => {
                assert(match_score(keys[i as int], prompt@) is None);
            },
        }
        i = i + 1;
    }
    proof {
        let mv = matches_view(res@);
        assert forall|j: int|
            0 <= j < keys.len() && (#[trigger] match_score(keys[j], prompt@)) is Some implies exists|k: int|
            0 <= k < mv.len() && #[trigger] mv[k].position == j by {
            let k = choose|k: int| 0 <= k < res@.len() && #[trigger] res@[k].position == j;
            assert(mv[k].position == j);
        }
    }
    res
}

} // verus!
