//! The Solution Materializer: maps each letter set appearing in a found
//! tuple back to one concrete spelling from the original token list. The
//! first matching token is the answer, and the Reverse Lookup Cache
//! memoizes it so every distinct set is resolved by a scan at most once.

use vstd::prelude::*;
use std::collections::HashMap;
use crate::letterset::{WordSet, is_ascii_letter, word_mask};
use crate::candidates::{all_letters, is_candidate_token, views};
use crate::search::{Solution, is_puzzle_solution};

verus! {

broadcast use vstd::std_specs::hash::group_hash_axioms;

/// `t` is a five-letter token spelling the mask `m`.
pub open spec fn spells(t: Seq<u8>, m: u32) -> bool {
    &&& t.len() == 5
    &&& forall|i: int| 0 <= i < t.len() ==> is_ascii_letter(t[i])
    &&& word_mask(t) == m
}

/// The first token at position `from` or later that spells `m`.
pub open spec fn first_spelling_from(tokens: Seq<Seq<u8>>, m: u32, from: int) -> Option<Seq<u8>>
    decreases tokens.len() - from,
    when 0 <= from <= tokens.len()
{
    if from >= tokens.len() {
        None
    } else if spells(tokens[from], m) {
        Some(tokens[from])
    } else {
        first_spelling_from(tokens, m, from + 1)
    }
}

/// The first token of the list that spells `m`; `None` when no token does.
pub open spec fn first_spelling(tokens: Seq<Seq<u8>>, m: u32) -> Option<Seq<u8>> {
    first_spelling_from(tokens, m, 0)
}

/// When the token at `k` spells `m`, the scan from any position at or
/// before `k` finds a first spelling.
proof fn lemma_spelling_exists_from(tokens: Seq<Seq<u8>>, m: u32, from: int, k: int)
    requires
        0 <= from <= k < tokens.len(),
        spells(tokens[k], m),
    ensures
        first_spelling_from(tokens, m, from) is Some,
    decreases k - from,
{
    if !spells(tokens[from], m) {
        lemma_spelling_exists_from(tokens, m, from + 1, k);
    }
}

/// Every letter set of a Solution of the puzzle has a spelling in the same
/// token list: resolving a reported Solution never hits the
/// internal-consistency fault.
pub proof fn lemma_solution_spellings_exist(tokens: Seq<Seq<u8>>, s: Solution)
    requires
        is_puzzle_solution(tokens, s),
    ensures
        first_spelling(tokens, s.0.0) is Some,
        first_spelling(tokens, s.1.0) is Some,
        first_spelling(tokens, s.2.0) is Some,
        first_spelling(tokens, s.3.0) is Some,
        first_spelling(tokens, s.4.0) is Some,
{
    let k1 = choose|k: int|
        0 <= k < tokens.len() && is_candidate_token(tokens[k]) && word_mask(tokens[k]) == s.0.0;
    assert(spells(tokens[k1], s.0.0));
    lemma_spelling_exists_from(tokens, s.0.0, 0, k1);
    let k2 = choose|k: int|
        0 <= k < tokens.len() && is_candidate_token(tokens[k]) && word_mask(tokens[k]) == s.1.0;
    assert(spells(tokens[k2], s.1.0));
    lemma_spelling_exists_from(tokens, s.1.0, 0, k2);
    let k3 = choose|k: int|
        0 <= k < tokens.len() && is_candidate_token(tokens[k]) && word_mask(tokens[k]) == s.2.0;
    assert(spells(tokens[k3], s.2.0));
    lemma_spelling_exists_from(tokens, s.2.0, 0, k3);
    let k4 = choose|k: int|
        0 <= k < tokens.len() && is_candidate_token(tokens[k]) && word_mask(tokens[k]) == s.3.0;
    assert(spells(tokens[k4], s.3.0));
    lemma_spelling_exists_from(tokens, s.3.0, 0, k4);
    let k5 = choose|k: int|
        0 <= k < tokens.len() && is_candidate_token(tokens[k]) && word_mask(tokens[k]) == s.4.0;
    assert(spells(tokens[k5], s.4.0));
    lemma_spelling_exists_from(tokens, s.4.0, 0, k5);
}

/// An owned copy of a token, byte for byte.
fn clone_token(t: &Vec<u8>) -> (r: Vec<u8>)
    ensures
        r@ == t@,
{
    let r = t.clone();
    proof {
        assert forall|i: int| 0 <= i < t@.len() implies r@[i] == t@[i] by {
            assert(cloned::<u8>(t@[i], r@[i]));
        }
        assert(r@ =~= t@);
    }
    r
}

/// Scans the token list for the first token spelling `m`.
fn scan_spelling(tokens: &Vec<Vec<u8>>, m: u32) -> (r: Option<Vec<u8>>)
    ensures
        match r {
            Some(t) => first_spelling(views(tokens@), m) == Some(t@),
            None => first_spelling(views(tokens@), m) is None,
        },
{
    let ghost tv = views(tokens@);
    let mut ix: usize = 0;
    while ix < tokens.len()
        invariant
            ix <= tokens@.len(),
            tv == views(tokens@),
            first_spelling(tv, m) == first_spelling_from(tv, m, ix as int),
        decreases tokens@.len() - ix,
    {
        let t = &tokens[ix];
        if t.len() == 5 && all_letters(t) {
            let w = WordSet::from_word(t.as_slice());
            if w.0 == m {
                proof {
                    assert(spells(tv[ix as int], m));
                    assert(first_spelling_from(tv, m, ix as int) == Some(tv[ix as int]));
                }
                return Some(clone_token(t));
            } else {
                proof {
                    assert(!spells(tv[ix as int], m));
                }
            }
        } else {
            proof {
                assert(!spells(tv[ix as int], m));
            }
        }
        proof {
            assert(first_spelling_from(tv, m, ix as int) == first_spelling_from(
                tv,
                m,
                ix + 1 as int,
            ));
        }
        ix = ix + 1;
    }
    None
}

/// The Reverse Lookup Cache: remembers, per letter set, the spelling the
/// list gives it, so each distinct set is resolved by a scan at most once.
pub struct Materializer {
    cache: HashMap<u32, Vec<u8>>,
}

impl Materializer {
    /// Every cached entry is the first spelling of its mask in the list.
    pub closed spec fn wf(self, tokens: Seq<Seq<u8>>) -> bool {
        forall|m: u32| self.cache@.contains_key(m) ==> first_spelling(tokens, m) == Some(
            #[trigger] self.cache@[m]@,
        )
    }

    /// An empty cache, consistent with any token list.
    pub fn new() -> (r: Materializer)
        ensures
            forall|tokens: Seq<Seq<u8>>| r.wf(tokens),
    {
        let cache: HashMap<u32, Vec<u8>> = HashMap::new();
        Materializer { cache }
    }

    /// Resolves a letter set to its spelling: from the cache when present,
    /// else by a scan of the token list, memoized for the next call. The
    /// answer is always the list's first spelling of the set, so resolving
    /// the same set twice yields the same spelling. `None` exactly when no
    /// token of the list spells the set.
    pub fn resolve(&mut self, tokens: &Vec<Vec<u8>>, w: WordSet) -> (r: Option<Vec<u8>>)
        requires
            old(self).wf(views(tokens@)),
        ensures
            final(self).wf(views(tokens@)),
            match r {
                Some(t) => first_spelling(views(tokens@), w.0) == Some(t@),
                None => first_spelling(views(tokens@), w.0) is None,
            },
    {
        let ghost tv = views(tokens@);
        if let Some(t) = self.cache.get(&w.0) {
            let r = clone_token(t);
            return Some(r);
        }
        match scan_spelling(tokens, w.0) {
            Some(t) => {
                let r = clone_token(&t);
                self.cache.insert(w.0, t);
                Some(r)
            },
            None => None,
        }
    }

    /// One spelling per element of the Solution, in order. `None` signals
    /// the internal-consistency fault: a set in the Solution that no token
    /// of the list spells, which cannot happen when the Solution came from
    /// the same list.
    pub fn materialize(&mut self, tokens: &Vec<Vec<u8>>, s: Solution) -> (r: Option<Vec<Vec<u8>>>)
        requires
            old(self).wf(views(tokens@)),
        ensures
            final(self).wf(views(tokens@)),
            match r {
                Some(v) => {
                    &&& v@.len() == 5
                    &&& first_spelling(views(tokens@), s.0.0) == Some(v@[0]@)
                    &&& first_spelling(views(tokens@), s.1.0) == Some(v@[1]@)
                    &&& first_spelling(views(tokens@), s.2.0) == Some(v@[2]@)
                    &&& first_spelling(views(tokens@), s.3.0) == Some(v@[3]@)
                    &&& first_spelling(views(tokens@), s.4.0) == Some(v@[4]@)
                },
                None => first_spelling(views(tokens@), s.0.0) is None || first_spelling(
                    views(tokens@),
                    s.1.0,
                ) is None || first_spelling(views(tokens@), s.2.0) is None || first_spelling(
                    views(tokens@),
                    s.3.0,
                ) is None || first_spelling(views(tokens@), s.4.0) is None,
            },
    {
        let mut v: Vec<Vec<u8>> = Vec::new();
        match self.resolve(tokens, s.0) {
            Some(t) => v.push(t),
            None => {
                return None;
            },
        }
        match self.resolve(tokens, s.1) {
            Some(t) => v.push(t),
            None => {
                return None;
            },
        }
        match self.resolve(tokens, s.2) {
            Some(t) => v.push(t),
            None => {
                return None;
            },
        }
        match self.resolve(tokens, s.3) {
            Some(t) => v.push(t),
            None => {
                return None;
            },
        }
        match self.resolve(tokens, s.4) {
            Some(t) => v.push(t),
            None => {
                return None;
            },
        }
        Some(v)
    }
}

} // verus!
