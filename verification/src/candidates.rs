//! Candidate extraction: filters the token sequence down to five-letter
//! words with five distinct letters, encodes each as a mask, sorts the masks
//! into their numeric order and removes duplicates. The resulting sequence
//! is the fixed, duplicate-free Candidate Set every later stage works on.

use vstd::prelude::*;
use rayon::slice::ParallelSliceMut;
use crate::letterset::{WordSet, card, is_ascii_letter, word_mask};

verus! {

/// The views of a list of byte tokens.
pub open spec fn views(tokens: Seq<Vec<u8>>) -> Seq<Seq<u8>> {
    tokens.map_values(|t: Vec<u8>| t@)
}

/// A token that yields a candidate: exactly five bytes, all ASCII letters,
/// and five distinct letters among them.
pub open spec fn is_candidate_token(t: Seq<u8>) -> bool {
    &&& t.len() == 5
    &&& forall|i: int| 0 <= i < t.len() ==> is_ascii_letter(t[i])
    &&& card(word_mask(t)) == 5
}

/// `m` is the mask of some candidate token among the first `n` tokens.
pub open spec fn candidate_in_prefix(tokens: Seq<Seq<u8>>, n: int, m: u32) -> bool {
    exists|k: int| 0 <= k < n && is_candidate_token(tokens[k]) && word_mask(tokens[k]) == m
}

/// `m` is the mask of some candidate token of the list.
pub open spec fn is_candidate_mask(tokens: Seq<Seq<u8>>, m: u32) -> bool {
    candidate_in_prefix(tokens, tokens.len() as int, m)
}

/// `true` iff every byte of `t` is an ASCII letter.
pub(crate) fn all_letters(t: &Vec<u8>) -> (r: bool)
    ensures
        r == (forall|i: int| 0 <= i < t@.len() ==> is_ascii_letter(t@[i])),
{
    let mut ix: usize = 0;
    while ix < t.len()
        invariant
            ix <= t@.len(),
            forall|i: int| 0 <= i < ix ==> is_ascii_letter(t@[i]),
        decreases t@.len() - ix,
    {
        let c = t[ix];
        if !((c >= 65 && c <= 90) || (c >= 97 && c <= 122)) {
            return false;
        }
        ix = ix + 1;
    }
    true
}

/// Relies on rayon's `ParallelSliceMut::par_sort` (a parallel stable merge
/// sort): it reorders the slice into non-descending order and keeps exactly
/// the same elements.
#[verifier::external_body]
fn par_sort_masks(v: &mut Vec<u32>)
    ensures
        final(v)@.to_multiset() == old(v)@.to_multiset(),
        forall|i: int, j: int| 0 <= i <= j < final(v)@.len() ==> final(v)@[i] <= final(v)@[j],
{
    v.par_sort();
}

/// Removes adjacent duplicates from a non-decreasing list of masks: the
/// result is strictly increasing and holds exactly the same values.
fn dedup_sorted(v: &Vec<u32>) -> (r: Vec<u32>)
    requires
        forall|i: int, j: int| 0 <= i <= j < v@.len() ==> v@[i] <= v@[j],
    ensures
        forall|i: int, j: int| 0 <= i < j < r@.len() ==> r@[i] < r@[j],
        forall|m: u32| r@.contains(m) <==> v@.contains(m),
{
    let mut out: Vec<u32> = Vec::new();
    let mut ix: usize = 0;
    while ix < v.len()
        invariant
            ix <= v@.len(),
            forall|i: int, j: int| 0 <= i <= j < v@.len() ==> v@[i] <= v@[j],
            forall|i: int, j: int| 0 <= i < j < out@.len() ==> out@[i] < out@[j],
            ix > 0 ==> out@.len() > 0 && out@.last() == v@[ix - 1],
            ix == 0 ==> out@.len() == 0,
            forall|m: u32| out@.contains(m) <==> v@.subrange(0, ix as int).contains(m),
        decreases v@.len() - ix,
    {
        let x = v[ix];
        let ghost pre = out@;
        let ghost prefix = v@.subrange(0, ix as int);
        proof {
            assert(v@.subrange(0, (ix + 1) as int) =~= prefix.push(x));
        }
        if out.len() == 0 || out[out.len() - 1] != x {
            out.push(x);
        } else {
            proof {
                assert(out@.last() == x);
                assert(out@.contains(x));
            }
        }
        proof {
            assert forall|m: u32| out@.contains(m) implies v@.subrange(
                0,
                (ix + 1) as int,
            ).contains(m) by {
                let i = choose|i: int| 0 <= i < out@.len() && out@[i] == m;
                if i < pre.len() {
                    assert(pre[i] == m);
                    assert(pre.contains(m));
                    let k = choose|k: int| 0 <= k < prefix.len() && prefix[k] == m;
                    assert(prefix.push(x)[k] == m);
                } else {
                    assert(m == x);
                    assert(prefix.push(x).last() == m);
                }
            }
            assert forall|m: u32| v@.subrange(0, (ix + 1) as int).contains(m) implies
                out@.contains(m) by {
                let k = choose|k: int| 0 <= k < prefix.push(x).len() && prefix.push(x)[k] == m;
                if k < prefix.len() {
                    assert(prefix[k] == m);
                    assert(prefix.contains(m));
                    assert(pre.contains(m));
                    let i = choose|i: int| 0 <= i < pre.len() && pre[i] == m;
                    assert(out@[i] == m);
                } else {
                    assert(m == x);
                    assert(out@.last() == x);
                    assert(out@.contains(x));
                }
            }
        }
        ix = ix + 1;
    }
    proof {
        assert(v@.subrange(0, v@.len() as int) =~= v@);
    }
    out
}

/// Derives the Candidate Set from the token list: the strictly increasing,
/// duplicate-free sequence of exactly the candidate masks of the list.
pub fn extract_candidates(tokens: &Vec<Vec<u8>>) -> (r: Vec<WordSet>)
    ensures
        forall|i: int, j: int| 0 <= i < j < r@.len() ==> r@[i].0 < r@[j].0,
        forall|i: int, j: int| 0 <= i < j < r@.len() ==> r@[i] != r@[j],
        forall|i: int| 0 <= i < r@.len() ==> is_candidate_mask(views(tokens@), r@[i].0),
        forall|m: u32| is_candidate_mask(views(tokens@), m) ==> exists|i: int|
            0 <= i < r@.len() && r@[i].0 == m,
        forall|i: int| 0 <= i < r@.len() ==> #[trigger] r@[i].wf(),
        forall|i: int| 0 <= i < r@.len() ==> card(#[trigger] r@[i].0) == 5,
{
    broadcast use vstd::seq_lib::group_to_multiset_ensures;

    let ghost tv = views(tokens@);
    let mut masks: Vec<u32> = Vec::new();
    let mut ix: usize = 0;
    while ix < tokens.len()
        invariant
            ix <= tokens@.len(),
            tv == views(tokens@),
            forall|m: u32| masks@.contains(m) <==> candidate_in_prefix(tv, ix as int, m),
            forall|i: int| 0 <= i < masks@.len() ==> masks@[i] < 0x4000000u32,
        decreases tokens@.len() - ix,
    {
        let t = &tokens[ix];
        let ghost pre = masks@;
        let ghost mut added: Option<u32> = None;
        if t.len() == 5 && all_letters(t) {
            let w = WordSet::from_word(t.as_slice());
            if w.size() == 5 {
                masks.push(w.0);
                proof {
                    added = Some(w.0);
                    assert(is_candidate_token(tv[ix as int]));
                }
            } else {
                proof {
                    assert(!is_candidate_token(tv[ix as int]));
                }
            }
        } else {
            proof {
                assert(!is_candidate_token(tv[ix as int]));
            }
        }
        proof {
            match added {
                Some(a) => {
                    assert(masks@ == pre.push(a));
                    assert(is_candidate_token(tv[ix as int]) && word_mask(tv[ix as int]) == a);
                },
                None => {
                    assert(masks@ == pre);
                    assert(!is_candidate_token(tv[ix as int]));
                },
            }
            assert forall|m: u32| masks@.contains(m) implies candidate_in_prefix(
                tv,
                ix + 1 as int,
                m,
            ) by {
                let i = choose|i: int| 0 <= i < masks@.len() && masks@[i] == m;
                if i < pre.len() {
                    assert(pre[i] == m);
                    assert(pre.contains(m));
                    assert(candidate_in_prefix(tv, ix as int, m));
                    let k = choose|k: int|
                        0 <= k < ix && is_candidate_token(tv[k]) && word_mask(tv[k]) == m;
                    assert(0 <= k < ix + 1 && is_candidate_token(tv[k]) && word_mask(tv[k])
                        == m);
                } else {
                    assert(m == added->Some_0);
                    assert(is_candidate_token(tv[ix as int]) && word_mask(tv[ix as int]) == m);
                }
            }
            assert forall|m: u32| candidate_in_prefix(tv, ix + 1 as int, m) implies
                masks@.contains(m) by {
                let k = choose|k: int|
                    0 <= k < ix + 1 && is_candidate_token(tv[k]) && word_mask(tv[k]) == m;
                if k < ix {
                    assert(candidate_in_prefix(tv, ix as int, m));
                    assert(pre.contains(m));
                    let i = choose|i: int| 0 <= i < pre.len() && pre[i] == m;
                    assert(masks@[i] == m);
                } else {
                    assert(is_candidate_token(tv[ix as int]));
                    assert(added is Some && added->Some_0 == m);
                    assert(masks@[masks@.len() - 1] == m);
                }
            }
        }
        ix = ix + 1;
    }
    let ghost unsorted = masks@;
    par_sort_masks(&mut masks);
    proof {
        assert forall|m: u32| masks@.contains(m) <==> unsorted.contains(m) by {
            assert(masks@.contains(m) <==> masks@.to_multiset().count(m) > 0);
            assert(unsorted.contains(m) <==> unsorted.to_multiset().count(m) > 0);
        }
    }
    let dedup = dedup_sorted(&masks);
    let mut r: Vec<WordSet> = Vec::new();
    let mut j: usize = 0;
    while j < dedup.len()
        invariant
            j <= dedup@.len(),
            r@.len() == j,
            forall|i: int| 0 <= i < j ==> r@[i].0 == dedup@[i],
        decreases dedup@.len() - j,
    {
        r.push(WordSet(dedup[j]));
        j = j + 1;
    }
    proof {
        assert(tv.len() == tokens@.len());
        assert forall|i: int, j: int| 0 <= i < j < r@.len() implies r@[i].0 < r@[j].0 by {
            assert(r@[i].0 == dedup@[i]);
            assert(r@[j].0 == dedup@[j]);
        }
        assert forall|i: int| 0 <= i < r@.len() implies is_candidate_mask(tv, #[trigger] r@[i].0)
            by {
            assert(dedup@.contains(dedup@[i]));
            assert(masks@.contains(dedup@[i]));
            assert(unsorted.contains(dedup@[i]));
        }
        assert forall|i: int| 0 <= i < r@.len() implies card(#[trigger] r@[i].0) == 5 by {
            assert(is_candidate_mask(tv, r@[i].0));
            let k = choose|k: int|
                0 <= k < tv.len() && is_candidate_token(tv[k]) && word_mask(tv[k]) == r@[i].0;
        }
        assert forall|i: int| 0 <= i < r@.len() implies #[trigger] r@[i].wf() by {
            assert(dedup@.contains(dedup@[i]));
            assert(masks@.contains(dedup@[i]));
            assert(unsorted.contains(dedup@[i]));
            let k = choose|k: int| 0 <= k < unsorted.len() && unsorted[k] == dedup@[i];
            assert(unsorted[k] < 0x4000000u32);
        }
        assert forall|m: u32| is_candidate_mask(tv, m) implies exists|i: int|
            0 <= i < r@.len() && r@[i].0 == m by {
            assert(unsorted.contains(m));
            assert(masks@.contains(m));
            assert(dedup@.contains(m));
            let i = choose|i: int| 0 <= i < dedup@.len() && dedup@[i] == m;
            assert(r@[i].0 == m);
        }
    }
    r
}

} // verus!
