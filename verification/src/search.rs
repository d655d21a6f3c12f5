//! The Chain Enumerator: an exhaustive depth-five walk of the Disjointness
//! Index that records every ordered 5-tuple of pairwise disjoint candidate
//! masks, each exactly once. An edge of the index only proves the consecutive
//! pair disjoint, so every deeper level re-checks the new element against all
//! earlier ones.

use vstd::prelude::*;
use vstd::multiset::Multiset;
use crate::letterset::{WordSet, card, lemma_card_disjoint_union, word_mask};
use crate::candidates::{extract_candidates, is_candidate_mask, is_candidate_token, views};
use crate::index::DisjointIndex;

verus! {

/// An ordered 5-tuple of pairwise disjoint letter sets, ascending in the
/// fixed numeric order of the masks.
#[derive(Clone, Copy, PartialEq, Eq, Structural, Debug)]
pub struct Solution(
    pub WordSet,
    pub WordSet,
    pub WordSet,
    pub WordSet,
    pub WordSet,
);

/// The Solution holding the candidates at the five given positions.
pub open spec fn sol_of(
    words: Seq<WordSet>,
    i1: int,
    i2: int,
    i3: int,
    i4: int,
    i5: int,
) -> Solution {
    Solution(words[i1], words[i2], words[i3], words[i4], words[i5])
}

/// Two positions forming a chain: ascending, disjoint masks.
pub open spec fn chain2(words: Seq<WordSet>, i1: int, i2: int) -> bool {
    &&& 0 <= i1 < i2 < words.len()
    &&& words[i1].0 & words[i2].0 == 0
}

/// Three positions forming a chain: ascending, pairwise disjoint masks.
pub open spec fn chain3(words: Seq<WordSet>, i1: int, i2: int, i3: int) -> bool {
    &&& chain2(words, i1, i2)
    &&& i2 < i3 < words.len()
    &&& words[i1].0 & words[i3].0 == 0
    &&& words[i2].0 & words[i3].0 == 0
}

/// Four positions forming a chain: ascending, pairwise disjoint masks.
pub open spec fn chain4(words: Seq<WordSet>, i1: int, i2: int, i3: int, i4: int) -> bool {
    &&& chain3(words, i1, i2, i3)
    &&& i3 < i4 < words.len()
    &&& words[i1].0 & words[i4].0 == 0
    &&& words[i2].0 & words[i4].0 == 0
    &&& words[i3].0 & words[i4].0 == 0
}

/// Five positions forming a chain: ascending, pairwise disjoint masks.
pub open spec fn chain5(words: Seq<WordSet>, i1: int, i2: int, i3: int, i4: int, i5: int) -> bool {
    &&& chain4(words, i1, i2, i3, i4)
    &&& i4 < i5 < words.len()
    &&& words[i1].0 & words[i5].0 == 0
    &&& words[i2].0 & words[i5].0 == 0
    &&& words[i3].0 & words[i5].0 == 0
    &&& words[i4].0 & words[i5].0 == 0
}

/// No Solution occurs twice in the list.
pub open spec fn no_dup(s: Seq<Solution>) -> bool {
    forall|p: int, q: int| 0 <= p < q < s.len() ==> s[p] != s[q]
}

/// `s` is the tuple of the chain `i1..i5`.
pub open spec fn hit5(words: Seq<WordSet>, i1: int, i2: int, i3: int, i4: int, i5: int, s: Solution) -> bool {
    chain5(words, i1, i2, i3, i4, i5) && s == sol_of(words, i1, i2, i3, i4, i5)
}

/// `s` completes the 4-chain `i1..i4` with some fifth position.
pub open spec fn completes4(words: Seq<WordSet>, i1: int, i2: int, i3: int, i4: int, s: Solution) -> bool {
    exists|i5: int| #[trigger] hit5(words, i1, i2, i3, i4, i5, s)
}

/// `s` completes the 3-chain `i1..i3`, with `i4` its fourth position.
pub open spec fn hit4(words: Seq<WordSet>, i1: int, i2: int, i3: int, i4: int, s: Solution) -> bool {
    chain4(words, i1, i2, i3, i4) && completes4(words, i1, i2, i3, i4, s)
}

/// `s` completes the 3-chain `i1..i3` with some fourth and fifth position.
pub open spec fn completes3(words: Seq<WordSet>, i1: int, i2: int, i3: int, s: Solution) -> bool {
    exists|i4: int| #[trigger] hit4(words, i1, i2, i3, i4, s)
}

/// `s` completes the 2-chain `i1, i2`, with `i3` its third position.
pub open spec fn hit3(words: Seq<WordSet>, i1: int, i2: int, i3: int, s: Solution) -> bool {
    chain3(words, i1, i2, i3) && completes3(words, i1, i2, i3, s)
}

/// `s` completes the 2-chain `i1, i2`.
pub open spec fn completes2(words: Seq<WordSet>, i1: int, i2: int, s: Solution) -> bool {
    exists|i3: int| #[trigger] hit3(words, i1, i2, i3, s)
}

/// `s` starts at `i1`, with `i2` its second position.
pub open spec fn hit2(words: Seq<WordSet>, i1: int, i2: int, s: Solution) -> bool {
    chain2(words, i1, i2) && completes2(words, i1, i2, s)
}

/// `s` is a chain starting at position `i1`.
pub open spec fn completes1(words: Seq<WordSet>, i1: int, s: Solution) -> bool {
    exists|i2: int| #[trigger] hit2(words, i1, i2, s)
}

/// `s` is a chain starting at position `i1` (with the bound made explicit).
pub open spec fn hit1(words: Seq<WordSet>, i1: int, s: Solution) -> bool {
    0 <= i1 < words.len() && completes1(words, i1, s)
}

/// `s` is one of the chains of the Candidate Set: five ascending positions
/// with pairwise disjoint masks.
pub open spec fn is_chain_solution(words: Seq<WordSet>, s: Solution) -> bool {
    exists|i1: int| #[trigger] hit1(words, i1, s)
}

/// A tuple completing the 4-chain `i1..i4` starts with the candidates at
/// those four positions.
proof fn lemma_completes4_fields(
    words: Seq<WordSet>,
    i1: int,
    i2: int,
    i3: int,
    i4: int,
    s: Solution,
)
    requires
        completes4(words, i1, i2, i3, i4, s),
    ensures
        s.0 == words[i1] && s.1 == words[i2] && s.2 == words[i3] && s.3 == words[i4],
{
    let i5 = choose|i5: int| #[trigger] hit5(words, i1, i2, i3, i4, i5, s);
}

/// A tuple completing the 3-chain `i1..i3` starts with the candidates at
/// those three positions.
proof fn lemma_completes3_fields(words: Seq<WordSet>, i1: int, i2: int, i3: int, s: Solution)
    requires
        completes3(words, i1, i2, i3, s),
    ensures
        s.0 == words[i1] && s.1 == words[i2] && s.2 == words[i3],
{
    let i4 = choose|i4: int| #[trigger] hit4(words, i1, i2, i3, i4, s);
    lemma_completes4_fields(words, i1, i2, i3, i4, s);
}

/// A tuple completing the 2-chain `i1, i2` starts with the candidates at
/// those two positions.
proof fn lemma_completes2_fields(words: Seq<WordSet>, i1: int, i2: int, s: Solution)
    requires
        completes2(words, i1, i2, s),
    ensures
        s.0 == words[i1] && s.1 == words[i2],
{
    let i3 = choose|i3: int| #[trigger] hit3(words, i1, i2, i3, s);
    lemma_completes3_fields(words, i1, i2, i3, s);
}

/// A tuple of a chain starting at `i1` starts with the candidate there.
proof fn lemma_completes1_fields(words: Seq<WordSet>, i1: int, s: Solution)
    requires
        completes1(words, i1, s),
    ensures
        s.0 == words[i1],
{
    let i2 = choose|i2: int| #[trigger] hit2(words, i1, i2, s);
    lemma_completes2_fields(words, i1, i2, s);
}

/// Appending a freshly found block to the accumulated results keeps them
/// duplicate-free and exactly characterized, provided the block's tuples are
/// new: the old part satisfies `oldp`, the block `newp`, and no tuple both.
proof fn lemma_merge_block(
    pre: Seq<Solution>,
    sub: Seq<Solution>,
    out: Seq<Solution>,
    oldp: spec_fn(Solution) -> bool,
    newp: spec_fn(Solution) -> bool,
)
    requires
        out == pre + sub,
        no_dup(pre),
        no_dup(sub),
        forall|s: Solution| #![trigger oldp(s)] #![trigger pre.contains(s)] (pre.contains(s)
            <==> oldp(s)),
        forall|s: Solution| #![trigger newp(s)] #![trigger sub.contains(s)] (sub.contains(s)
            <==> newp(s)),
        forall|s: Solution| #![trigger oldp(s)] #![trigger newp(s)] !(oldp(s) && newp(s)),
    ensures
        no_dup(out),
        forall|s: Solution| #![trigger oldp(s)] #![trigger newp(s)] #![trigger out.contains(s)] (
        out.contains(s) <==> oldp(s) || newp(s)),
{
    assert forall|p: int, q: int| 0 <= p < q < out.len() implies out[p] != out[q] by {
        if q < pre.len() {
            assert(out[p] == pre[p] && out[q] == pre[q]);
        } else if p >= pre.len() {
            assert(out[p] == sub[p - pre.len()] && out[q] == sub[q - pre.len()]);
        } else {
            assert(out[p] == pre[p] && out[q] == sub[q - pre.len()]);
            assert(pre.contains(pre[p]));
            assert(sub.contains(sub[q - pre.len()]));
        }
    }
    assert forall|s: Solution| out.contains(s) implies oldp(s) || newp(s) by {
        let i = choose|i: int| 0 <= i < out.len() && out[i] == s;
        if i < pre.len() {
            assert(pre[i] == s);
            assert(pre.contains(s));
        } else {
            assert(sub[i - pre.len()] == s);
            assert(sub.contains(s));
        }
    }
    assert forall|s: Solution| oldp(s) || newp(s) implies out.contains(s) by {
        if oldp(s) {
            let i = choose|i: int| 0 <= i < pre.len() && pre[i] == s;
            assert(out[i] == s);
        } else {
            let j = choose|j: int| 0 <= j < sub.len() && sub[j] == s;
            assert(out[pre.len() + j] == s);
        }
    }
}

/// Fifth level: extends the 4-chain `i1..i4` by every later candidate
/// disjoint from all four, and returns the completed tuples.
fn level5(idx: &DisjointIndex, i1: usize, i2: usize, i3: usize, i4: usize) -> (r: Vec<Solution>)
    requires
        idx.wf(),
        chain4(idx.words@, i1 as int, i2 as int, i3 as int, i4 as int),
    ensures
        forall|s: Solution| r@.contains(s) <==> completes4(
            idx.words@,
            i1 as int,
            i2 as int,
            i3 as int,
            i4 as int,
            s,
        ),
        no_dup(r@),
{
    broadcast use vstd::seq_lib::lemma_seq_contains_after_push;

    let ghost words = idx.words@;
    let ghost n = words.len() as int;
    let ghost (gi1, gi2, gi3, gi4) = (i1 as int, i2 as int, i3 as int, i4 as int);
    let w1 = idx.words[i1];
    let w2 = idx.words[i2];
    let w3 = idx.words[i3];
    let w4 = idx.words[i4];
    let row = &idx.adj[i4];
    let mut out: Vec<Solution> = Vec::new();
    let mut a: usize = 0;
    while a < row.len()
        invariant
            idx.wf(),
            words == idx.words@,
            chain4(words, gi1, gi2, gi3, gi4),
            (gi1, gi2, gi3, gi4) == (i1 as int, i2 as int, i3 as int, i4 as int),
            w1 == words[gi1] && w2 == words[gi2] && w3 == words[gi3] && w4 == words[gi4],
            row@ == idx.adj@[gi4]@,
            n == words.len(),
            a <= row@.len(),
            no_dup(out@),
            forall|s: Solution| out@.contains(s) <==> exists|b: int|
                0 <= b < a && #[trigger] hit5(words, gi1, gi2, gi3, gi4, row@[b] as int, s),
        decreases row@.len() - a,
    {
        let k = row[a];
        proof {
            assert(idx.adj@[gi4]@[a as int] == row@[a as int]);
            assert(gi4 < row@[a as int] < n && words[gi4].0 & words[row@[a as int] as int].0
                == 0);
        }
        let wk = idx.words[k];
        let ghost gk = k as int;
        let ghost pre = out@;
        if w1.intersection(wk).0 == 0 && w2.intersection(wk).0 == 0 && w3.intersection(wk).0
            == 0 {
            proof {
                assert(chain5(words, gi1, gi2, gi3, gi4, gk));
                let snew = sol_of(words, gi1, gi2, gi3, gi4, gk);
                // not seen yet: everything recorded so far ends in a strictly
                // smaller fifth mask
                assert(!pre.contains(snew)) by {
                    if pre.contains(snew) {
                        let b = choose|b: int|
                            0 <= b < a && #[trigger] hit5(
                                words,
                                gi1,
                                gi2,
                                gi3,
                                gi4,
                                row@[b] as int,
                                snew,
                            );
                        assert(idx.adj@[gi4]@[b] < idx.adj@[gi4]@[a as int]);
                        assert(words[row@[b] as int].0 < words[gk].0);
                        assert(snew.4 == words[row@[b] as int] && snew.4 == words[gk]);
                    }
                }
            }
            out.push(Solution(w1, w2, w3, w4, wk));
            proof {
                let snew = sol_of(words, gi1, gi2, gi3, gi4, gk);
                assert(out@ == pre.push(snew));
                assert(no_dup(out@)) by {
                    assert forall|p: int, q: int| 0 <= p < q < out@.len() implies out@[p]
                        != out@[q] by {
                        if q < pre.len() {
                            assert(out@[p] == pre[p] && out@[q] == pre[q]);
                        } else {
                            assert(out@[q] == snew && out@[p] == pre[p]);
                            assert(pre.contains(pre[p]));
                        }
                    }
                }
                assert(hit5(words, gi1, gi2, gi3, gi4, row@[a as int] as int, snew));
                assert forall|s: Solution| out@.contains(s) implies exists|b: int|
                    0 <= b < a + 1 && #[trigger] hit5(
                        words,
                        gi1,
                        gi2,
                        gi3,
                        gi4,
                        row@[b] as int,
                        s,
                    ) by {
                    if pre.contains(s) {
                        let b = choose|b: int|
                            0 <= b < a && #[trigger] hit5(
                                words,
                                gi1,
                                gi2,
                                gi3,
                                gi4,
                                row@[b] as int,
                                s,
                            );
                        assert(0 <= b < a + 1);
                    } else {
                        assert(s == snew);
                        assert(0 <= a < a + 1 && hit5(
                            words,
                            gi1,
                            gi2,
                            gi3,
                            gi4,
                            row@[a as int] as int,
                            s,
                        ));
                    }
                }
                assert forall|s: Solution|
                    (exists|b: int|
                        0 <= b < a + 1 && #[trigger] hit5(
                            words,
                            gi1,
                            gi2,
                            gi3,
                            gi4,
                            row@[b] as int,
                            s,
                        )) implies out@.contains(s) by {
                    let b = choose|b: int|
                        0 <= b < a + 1 && #[trigger] hit5(
                            words,
                            gi1,
                            gi2,
                            gi3,
                            gi4,
                            row@[b] as int,
                            s,
                        );
                    if b < a {
                        assert(pre.contains(s));
                        let ip = choose|ip: int| 0 <= ip < pre.len() && pre[ip] == s;
                        assert(out@[ip] == s);
                    } else {
                        assert(row@[b] as int == gk);
                        assert(s == snew);
                        assert(out@[out@.len() - 1] == snew);
                        assert(out@.contains(snew));
                    }
                }
            }
        } else {
            proof {
                assert(!chain5(words, gi1, gi2, gi3, gi4, gk));
                assert forall|s: Solution| out@.contains(s) <==> exists|b: int|
                    0 <= b < a + 1 && #[trigger] hit5(
                        words,
                        gi1,
                        gi2,
                        gi3,
                        gi4,
                        row@[b] as int,
                        s,
                    ) by {
                    if exists|b: int|
                        0 <= b < a + 1 && #[trigger] hit5(
                            words,
                            gi1,
                            gi2,
                            gi3,
                            gi4,
                            row@[b] as int,
                            s,
                        ) {
                        let b = choose|b: int|
                            0 <= b < a + 1 && #[trigger] hit5(
                                words,
                                gi1,
                                gi2,
                                gi3,
                                gi4,
                                row@[b] as int,
                                s,
                            );
                        assert(b < a);
                    }
                }
            }
        }
        a = a + 1;
    }
    proof {
        assert(idx.words.len() == words.len());
        assert forall|s: Solution| out@.contains(s) <==> completes4(
            words,
            gi1,
            gi2,
            gi3,
            gi4,
            s,
        ) by {
            if out@.contains(s) {
                let b = choose|b: int|
                    0 <= b < row@.len() && #[trigger] hit5(
                        words,
                        gi1,
                        gi2,
                        gi3,
                        gi4,
                        row@[b] as int,
                        s,
                    );
            }
            if completes4(words, gi1, gi2, gi3, gi4, s) {
                let i5 = choose|i5: int| #[trigger] hit5(words, gi1, gi2, gi3, gi4, i5, s);
                assert(0 <= i5 < words.len());
                let u5 = i5 as usize;
                assert(u5 as int == i5);
                assert(idx.adj@[gi4]@.contains(u5));
                let b = choose|b: int| 0 <= b < row@.len() && row@[b] == u5;
                assert(hit5(words, gi1, gi2, gi3, gi4, row@[b] as int, s));
            }
        }
    }
    out
}

/// Fourth level: extends the 3-chain `i1..i3` by every later candidate
/// disjoint from all three, and gathers the tuples the fifth level finds.
fn level4(idx: &DisjointIndex, i1: usize, i2: usize, i3: usize) -> (r: Vec<Solution>)
    requires
        idx.wf(),
        chain3(idx.words@, i1 as int, i2 as int, i3 as int),
    ensures
        forall|s: Solution| r@.contains(s) <==> completes3(
            idx.words@,
            i1 as int,
            i2 as int,
            i3 as int,
            s,
        ),
        no_dup(r@),
{
    let ghost words = idx.words@;
    let ghost n = words.len() as int;
    let ghost (gi1, gi2, gi3) = (i1 as int, i2 as int, i3 as int);
    let w1 = idx.words[i1];
    let w2 = idx.words[i2];
    let row = &idx.adj[i3];
    let mut out: Vec<Solution> = Vec::new();
    let mut a: usize = 0;
    while a < row.len()
        invariant
            idx.wf(),
            words == idx.words@,
            chain3(words, gi1, gi2, gi3),
            (gi1, gi2, gi3) == (i1 as int, i2 as int, i3 as int),
            w1 == words[gi1] && w2 == words[gi2],
            row@ == idx.adj@[gi3]@,
            n == words.len(),
            a <= row@.len(),
            no_dup(out@),
            forall|s: Solution| out@.contains(s) <==> exists|b: int|
                0 <= b < a && #[trigger] hit4(words, gi1, gi2, gi3, row@[b] as int, s),
        decreases row@.len() - a,
    {
        let k = row[a];
        proof {
            assert(idx.adj@[gi3]@[a as int] == row@[a as int]);
            assert(gi3 < row@[a as int] < n && words[gi3].0 & words[row@[a as int] as int].0
                == 0);
        }
        let wk = idx.words[k];
        let ghost gk = k as int;
        let ghost ga = a as int;
        let ghost pre = out@;
        let ghost oldp = |s: Solution| exists|b: int|
            0 <= b < ga && #[trigger] hit4(words, gi1, gi2, gi3, row@[b] as int, s);
        if w1.intersection(wk).0 == 0 && w2.intersection(wk).0 == 0 {
            proof {
                assert(chain4(words, gi1, gi2, gi3, gk));
            }
            let mut sub = level5(idx, i1, i2, i3, k);
            let ghost subv = sub@;
            let ghost newp = |s: Solution| hit4(words, gi1, gi2, gi3, gk, s);
            out.append(&mut sub);
            proof {
                assert forall|s: Solution| subv.contains(s) <==> #[trigger] newp(s) by {
                    assert(newp(s) == hit4(words, gi1, gi2, gi3, gk, s));
                    assert(subv.contains(s) <==> completes4(words, gi1, gi2, gi3, gk, s));
                }
                assert forall|s: Solution| !(#[trigger] oldp(s) && newp(s)) by {
                    if oldp(s) && newp(s) {
                        let b = choose|b: int|
                            0 <= b < ga && #[trigger] hit4(words, gi1, gi2, gi3, row@[b] as int, s);
                        lemma_completes4_fields(words, gi1, gi2, gi3, row@[b] as int, s);
                        lemma_completes4_fields(words, gi1, gi2, gi3, gk, s);
                        assert(idx.adj@[gi3]@[b] < idx.adj@[gi3]@[ga]);
                        assert(words[row@[b] as int].0 < words[gk].0);
                    }
                }
                assert forall|s: Solution| pre.contains(s) <==> #[trigger] oldp(s) by {}
                lemma_merge_block(pre, subv, out@, oldp, newp);
                assert forall|s: Solution| out@.contains(s) implies exists|b: int|
                    0 <= b < ga + 1 && #[trigger] hit4(words, gi1, gi2, gi3, row@[b] as int, s) by {
                    if oldp(s) {
                        let b = choose|b: int|
                            0 <= b < ga && #[trigger] hit4(words, gi1, gi2, gi3, row@[b] as int, s);
                        assert(0 <= b < ga + 1);
                    } else {
                        assert(newp(s));
                        assert(row@[ga] as int == gk);
                        assert(hit4(words, gi1, gi2, gi3, row@[ga] as int, s));
                    }
                }
                assert forall|s: Solution|
                    (exists|b: int|
                        0 <= b < ga + 1 && #[trigger] hit4(
                            words,
                            gi1,
                            gi2,
                            gi3,
                            row@[b] as int,
                            s,
                        )) implies out@.contains(s) by {
                    let b = choose|b: int|
                        0 <= b < ga + 1 && #[trigger] hit4(words, gi1, gi2, gi3, row@[b] as int, s);
                    if b < ga {
                        assert(oldp(s));
                    } else {
                        assert(row@[b] as int == gk);
                        assert(newp(s));
                    }
                }
            }
        } else {
            proof {
                assert(!chain4(words, gi1, gi2, gi3, gk));
                assert forall|s: Solution| out@.contains(s) <==> exists|b: int|
                    0 <= b < ga + 1 && #[trigger] hit4(words, gi1, gi2, gi3, row@[b] as int, s) by {
                    if exists|b: int|
                        0 <= b < ga + 1 && #[trigger] hit4(
                            words,
                            gi1,
                            gi2,
                            gi3,
                            row@[b] as int,
                            s,
                        ) {
                        let b = choose|b: int|
                            0 <= b < ga + 1 && #[trigger] hit4(
                                words,
                                gi1,
                                gi2,
                                gi3,
                                row@[b] as int,
                                s,
                            );
                        assert(b < ga);
                        assert(oldp(s));
                    }
                    if out@.contains(s) {
                        assert(oldp(s));
                        let b = choose|b: int|
                            0 <= b < ga && #[trigger] hit4(words, gi1, gi2, gi3, row@[b] as int, s);
                        assert(0 <= b < ga + 1);
                    }
                }
            }
        }
        a = a + 1;
    }
    proof {
        assert(idx.words.len() == words.len());
        assert forall|s: Solution| out@.contains(s) <==> completes3(words, gi1, gi2, gi3, s) by {
            if out@.contains(s) {
                let b = choose|b: int|
                    0 <= b < row@.len() && #[trigger] hit4(words, gi1, gi2, gi3, row@[b] as int, s);
            }
            if completes3(words, gi1, gi2, gi3, s) {
                let i4 = choose|i4: int| #[trigger] hit4(words, gi1, gi2, gi3, i4, s);
                assert(0 <= i4 < words.len());
                let u4 = i4 as usize;
                assert(u4 as int == i4);
                assert(idx.adj@[gi3]@.contains(u4));
                let b = choose|b: int| 0 <= b < row@.len() && row@[b] == u4;
                assert(hit4(words, gi1, gi2, gi3, row@[b] as int, s));
            }
        }
    }
    out
}

/// Third level: extends the 2-chain `i1, i2` by every later candidate
/// disjoint from both, and gathers the tuples the deeper levels find.
fn level3(idx: &DisjointIndex, i1: usize, i2: usize) -> (r: Vec<Solution>)
    requires
        idx.wf(),
        chain2(idx.words@, i1 as int, i2 as int),
    ensures
        forall|s: Solution| r@.contains(s) <==> completes2(idx.words@, i1 as int, i2 as int, s),
        no_dup(r@),
{
    let ghost words = idx.words@;
    let ghost n = words.len() as int;
    let ghost (gi1, gi2) = (i1 as int, i2 as int);
    let w1 = idx.words[i1];
    let row = &idx.adj[i2];
    let mut out: Vec<Solution> = Vec::new();
    let mut a: usize = 0;
    while a < row.len()
        invariant
            idx.wf(),
            words == idx.words@,
            chain2(words, gi1, gi2),
            (gi1, gi2) == (i1 as int, i2 as int),
            w1 == words[gi1],
            row@ == idx.adj@[gi2]@,
            n == words.len(),
            a <= row@.len(),
            no_dup(out@),
            forall|s: Solution| out@.contains(s) <==> exists|b: int|
                0 <= b < a && #[trigger] hit3(words, gi1, gi2, row@[b] as int, s),
        decreases row@.len() - a,
    {
        let k = row[a];
        proof {
            assert(idx.adj@[gi2]@[a as int] == row@[a as int]);
            assert(gi2 < row@[a as int] < n && words[gi2].0 & words[row@[a as int] as int].0
                == 0);
        }
        let wk = idx.words[k];
        let ghost gk = k as int;
        let ghost ga = a as int;
        let ghost pre = out@;
        let ghost oldp = |s: Solution| exists|b: int|
            0 <= b < ga && #[trigger] hit3(words, gi1, gi2, row@[b] as int, s);
        if w1.intersection(wk).0 == 0 {
            proof {
                assert(chain3(words, gi1, gi2, gk));
            }
            let mut sub = level4(idx, i1, i2, k);
            let ghost subv = sub@;
            let ghost newp = |s: Solution| hit3(words, gi1, gi2, gk, s);
            out.append(&mut sub);
            proof {
                assert forall|s: Solution| subv.contains(s) <==> #[trigger] newp(s) by {
                    assert(newp(s) == hit3(words, gi1, gi2, gk, s));
                    assert(subv.contains(s) <==> completes3(words, gi1, gi2, gk, s));
                }
                assert forall|s: Solution| !(#[trigger] oldp(s) && newp(s)) by {
                    if oldp(s) && newp(s) {
                        let b = choose|b: int|
                            0 <= b < ga && #[trigger] hit3(words, gi1, gi2, row@[b] as int, s);
                        lemma_completes3_fields(words, gi1, gi2, row@[b] as int, s);
                        lemma_completes3_fields(words, gi1, gi2, gk, s);
                        assert(idx.adj@[gi2]@[b] < idx.adj@[gi2]@[ga]);
                        assert(words[row@[b] as int].0 < words[gk].0);
                    }
                }
                assert forall|s: Solution| pre.contains(s) <==> #[trigger] oldp(s) by {}
                lemma_merge_block(pre, subv, out@, oldp, newp);
                assert forall|s: Solution| out@.contains(s) implies exists|b: int|
                    0 <= b < ga + 1 && #[trigger] hit3(words, gi1, gi2, row@[b] as int, s) by {
                    if oldp(s) {
                        let b = choose|b: int|
                            0 <= b < ga && #[trigger] hit3(words, gi1, gi2, row@[b] as int, s);
                        assert(0 <= b < ga + 1);
                    } else {
                        assert(newp(s));
                        assert(row@[ga] as int == gk);
                        assert(hit3(words, gi1, gi2, row@[ga] as int, s));
                    }
                }
                assert forall|s: Solution|
                    (exists|b: int|
                        0 <= b < ga + 1 && #[trigger] hit3(
                            words,
                            gi1,
                            gi2,
                            row@[b] as int,
                            s,
                        )) implies out@.contains(s) by {
                    let b = choose|b: int|
                        0 <= b < ga + 1 && #[trigger] hit3(words, gi1, gi2, row@[b] as int, s);
                    if b < ga {
                        assert(oldp(s));
                    } else {
                        assert(row@[b] as int == gk);
                        assert(newp(s));
                    }
                }
            }
        } else {
            proof {
                assert(!chain3(words, gi1, gi2, gk));
                assert forall|s: Solution| out@.contains(s) <==> exists|b: int|
                    0 <= b < ga + 1 && #[trigger] hit3(words, gi1, gi2, row@[b] as int, s) by {
                    if exists|b: int|
                        0 <= b < ga + 1 && #[trigger] hit3(words, gi1, gi2, row@[b] as int, s) {
                        let b = choose|b: int|
                            0 <= b < ga + 1 && #[trigger] hit3(words, gi1, gi2, row@[b] as int, s);
                        assert(b < ga);
                        assert(oldp(s));
                    }
                    if out@.contains(s) {
                        assert(oldp(s));
                        let b = choose|b: int|
                            0 <= b < ga && #[trigger] hit3(words, gi1, gi2, row@[b] as int, s);
                        assert(0 <= b < ga + 1);
                    }
                }
            }
        }
        a = a + 1;
    }
    proof {
        assert(idx.words.len() == words.len());
        assert forall|s: Solution| out@.contains(s) <==> completes2(words, gi1, gi2, s) by {
            if out@.contains(s) {
                let b = choose|b: int|
                    0 <= b < row@.len() && #[trigger] hit3(words, gi1, gi2, row@[b] as int, s);
            }
            if completes2(words, gi1, gi2, s) {
                let i3 = choose|i3: int| #[trigger] hit3(words, gi1, gi2, i3, s);
                assert(0 <= i3 < words.len());
                let u3 = i3 as usize;
                assert(u3 as int == i3);
                assert(idx.adj@[gi2]@.contains(u3));
                let b = choose|b: int| 0 <= b < row@.len() && row@[b] == u3;
                assert(hit3(words, gi1, gi2, row@[b] as int, s));
            }
        }
    }
    out
}

/// Second level: pairs the candidate at `i1` with every later disjoint
/// candidate, and gathers the tuples the deeper levels find.
fn level2(idx: &DisjointIndex, i1: usize) -> (r: Vec<Solution>)
    requires
        idx.wf(),
        i1 < idx.words@.len(),
    ensures
        forall|s: Solution| r@.contains(s) <==> completes1(idx.words@, i1 as int, s),
        no_dup(r@),
{
    let ghost words = idx.words@;
    let ghost n = words.len() as int;
    let ghost gi1 = i1 as int;
    let row = &idx.adj[i1];
    let mut out: Vec<Solution> = Vec::new();
    let mut a: usize = 0;
    while a < row.len()
        invariant
            idx.wf(),
            words == idx.words@,
            gi1 == i1 as int,
            0 <= gi1 < words.len(),
            row@ == idx.adj@[gi1]@,
            n == words.len(),
            a <= row@.len(),
            no_dup(out@),
            forall|s: Solution| out@.contains(s) <==> exists|b: int|
                0 <= b < a && #[trigger] hit2(words, gi1, row@[b] as int, s),
        decreases row@.len() - a,
    {
        let k = row[a];
        proof {
            assert(idx.adj@[gi1]@[a as int] == row@[a as int]);
            assert(gi1 < row@[a as int] < n && words[gi1].0 & words[row@[a as int] as int].0
                == 0);
        }
        let ghost gk = k as int;
        let ghost ga = a as int;
        let ghost pre = out@;
        let ghost oldp = |s: Solution| exists|b: int|
            0 <= b < ga && #[trigger] hit2(words, gi1, row@[b] as int, s);
        proof {
            assert(chain2(words, gi1, gk));
        }
        let mut sub = level3(idx, i1, k);
        let ghost subv = sub@;
        let ghost newp = |s: Solution| hit2(words, gi1, gk, s);
        out.append(&mut sub);
        proof {
            assert forall|s: Solution| subv.contains(s) <==> #[trigger] newp(s) by {
                assert(newp(s) == hit2(words, gi1, gk, s));
                assert(subv.contains(s) <==> completes2(words, gi1, gk, s));
            }
            assert forall|s: Solution| !(#[trigger] oldp(s) && newp(s)) by {
                if oldp(s) && newp(s) {
                    let b = choose|b: int|
                        0 <= b < ga && #[trigger] hit2(words, gi1, row@[b] as int, s);
                    lemma_completes2_fields(words, gi1, row@[b] as int, s);
                    lemma_completes2_fields(words, gi1, gk, s);
                    assert(idx.adj@[gi1]@[b] < idx.adj@[gi1]@[ga]);
                    assert(words[row@[b] as int].0 < words[gk].0);
                }
            }
            assert forall|s: Solution| pre.contains(s) <==> #[trigger] oldp(s) by {}
            lemma_merge_block(pre, subv, out@, oldp, newp);
            assert forall|s: Solution| out@.contains(s) implies exists|b: int|
                0 <= b < ga + 1 && #[trigger] hit2(words, gi1, row@[b] as int, s) by {
                if oldp(s) {
                    let b = choose|b: int|
                        0 <= b < ga && #[trigger] hit2(words, gi1, row@[b] as int, s);
                    assert(0 <= b < ga + 1);
                } else {
                    assert(newp(s));
                    assert(row@[ga] as int == gk);
                    assert(hit2(words, gi1, row@[ga] as int, s));
                }
            }
            assert forall|s: Solution|
                (exists|b: int|
                    0 <= b < ga + 1 && #[trigger] hit2(words, gi1, row@[b] as int, s)) implies
                out@.contains(s) by {
                let b = choose|b: int|
                    0 <= b < ga + 1 && #[trigger] hit2(words, gi1, row@[b] as int, s);
                if b < ga {
                    assert(oldp(s));
                } else {
                    assert(row@[b] as int == gk);
                    assert(newp(s));
                }
            }
        }
        a = a + 1;
    }
    proof {
        assert(idx.words.len() == words.len());
        assert forall|s: Solution| out@.contains(s) <==> completes1(words, gi1, s) by {
            if out@.contains(s) {
                let b = choose|b: int|
                    0 <= b < row@.len() && #[trigger] hit2(words, gi1, row@[b] as int, s);
            }
            if completes1(words, gi1, s) {
                let i2 = choose|i2: int| #[trigger] hit2(words, gi1, i2, s);
                assert(0 <= i2 < words.len());
                let u2 = i2 as usize;
                assert(u2 as int == i2);
                assert(idx.adj@[gi1]@.contains(u2));
                let b = choose|b: int| 0 <= b < row@.len() && row@[b] == u2;
                assert(hit2(words, gi1, row@[b] as int, s));
            }
        }
    }
    out
}

/// Walks the whole index: returns every chain of five pairwise disjoint
/// candidates, each exactly once.
fn enumerate_chains(idx: &DisjointIndex) -> (r: Vec<Solution>)
    requires
        idx.wf(),
    ensures
        forall|s: Solution| r@.contains(s) <==> is_chain_solution(idx.words@, s),
        no_dup(r@),
{
    let ghost words = idx.words@;
    let n = idx.words.len();
    let mut out: Vec<Solution> = Vec::new();
    let mut i: usize = 0;
    while i < n
        invariant
            idx.wf(),
            words == idx.words@,
            n == words.len(),
            i <= n,
            no_dup(out@),
            forall|s: Solution| out@.contains(s) <==> exists|j: int|
                0 <= j < i && #[trigger] hit1(words, j, s),
        decreases n - i,
    {
        let ghost gi = i as int;
        let ghost pre = out@;
        let ghost oldp = |s: Solution| exists|j: int|
            0 <= j < gi && #[trigger] hit1(words, j, s);
        let mut sub = level2(idx, i);
        let ghost subv = sub@;
        let ghost newp = |s: Solution| hit1(words, gi, s);
        out.append(&mut sub);
        proof {
            assert forall|s: Solution| subv.contains(s) <==> #[trigger] newp(s) by {
                assert(newp(s) == hit1(words, gi, s));
                assert(subv.contains(s) <==> completes1(words, gi, s));
            }
            assert forall|s: Solution| !(#[trigger] oldp(s) && newp(s)) by {
                if oldp(s) && newp(s) {
                    let j = choose|j: int| 0 <= j < gi && #[trigger] hit1(words, j, s);
                    lemma_completes1_fields(words, j, s);
                    lemma_completes1_fields(words, gi, s);
                    assert(words[j].0 < words[gi].0);
                }
            }
            assert forall|s: Solution| pre.contains(s) <==> #[trigger] oldp(s) by {}
            lemma_merge_block(pre, subv, out@, oldp, newp);
            assert forall|s: Solution| out@.contains(s) implies exists|j: int|
                0 <= j < gi + 1 && #[trigger] hit1(words, j, s) by {
                if oldp(s) {
                    let j = choose|j: int| 0 <= j < gi && #[trigger] hit1(words, j, s);
                    assert(0 <= j < gi + 1);
                } else {
                    assert(newp(s));
                    assert(hit1(words, gi, s));
                }
            }
            assert forall|s: Solution|
                (exists|j: int| 0 <= j < gi + 1 && #[trigger] hit1(words, j, s)) implies
                out@.contains(s) by {
                let j = choose|j: int| 0 <= j < gi + 1 && #[trigger] hit1(words, j, s);
                if j < gi {
                    assert(oldp(s));
                } else {
                    assert(newp(s));
                }
            }
        }
        i = i + 1;
    }
    out
}

/// `m` is one of the masks of the Candidate Set.
pub open spec fn contains_mask(words: Seq<WordSet>, m: u32) -> bool {
    exists|i: int| 0 <= i < words.len() && words[i].0 == m
}

/// What makes a tuple a Solution over a Candidate Set: five of its masks,
/// ascending in the fixed numeric order, with all ten pairwise intersections
/// empty.
pub open spec fn valid_solution(words: Seq<WordSet>, s: Solution) -> bool {
    &&& contains_mask(words, s.0.0)
    &&& contains_mask(words, s.1.0)
    &&& contains_mask(words, s.2.0)
    &&& contains_mask(words, s.3.0)
    &&& contains_mask(words, s.4.0)
    &&& s.0.0 < s.1.0 && s.1.0 < s.2.0 && s.2.0 < s.3.0 && s.3.0 < s.4.0
    &&& s.0.0 & s.1.0 == 0 && s.0.0 & s.2.0 == 0 && s.0.0 & s.3.0 == 0 && s.0.0 & s.4.0 == 0
    &&& s.1.0 & s.2.0 == 0 && s.1.0 & s.3.0 == 0 && s.1.0 & s.4.0 == 0
    &&& s.2.0 & s.3.0 == 0 && s.2.0 & s.4.0 == 0
    &&& s.3.0 & s.4.0 == 0
}

/// Over a strictly ordered Candidate Set, the chains the walk finds are
/// exactly the valid Solutions.
proof fn lemma_chain_iff_valid(words: Seq<WordSet>, s: Solution)
    requires
        forall|i: int, j: int| 0 <= i < j < words.len() ==> words[i].0 < words[j].0,
    ensures
        is_chain_solution(words, s) <==> valid_solution(words, s),
{
    if is_chain_solution(words, s) {
        let i1 = choose|i1: int| #[trigger] hit1(words, i1, s);
        let i2 = choose|i2: int| #[trigger] hit2(words, i1, i2, s);
        let i3 = choose|i3: int| #[trigger] hit3(words, i1, i2, i3, s);
        let i4 = choose|i4: int| #[trigger] hit4(words, i1, i2, i3, i4, s);
        let i5 = choose|i5: int| #[trigger] hit5(words, i1, i2, i3, i4, i5, s);
        assert(s == sol_of(words, i1, i2, i3, i4, i5));
        assert(contains_mask(words, s.0.0));
        assert(contains_mask(words, s.1.0));
        assert(contains_mask(words, s.2.0));
        assert(contains_mask(words, s.3.0));
        assert(contains_mask(words, s.4.0));
    }
    if valid_solution(words, s) {
        let i1 = choose|i1: int| 0 <= i1 < words.len() && words[i1].0 == s.0.0;
        let i2 = choose|i2: int| 0 <= i2 < words.len() && words[i2].0 == s.1.0;
        let i3 = choose|i3: int| 0 <= i3 < words.len() && words[i3].0 == s.2.0;
        let i4 = choose|i4: int| 0 <= i4 < words.len() && words[i4].0 == s.3.0;
        let i5 = choose|i5: int| 0 <= i5 < words.len() && words[i5].0 == s.4.0;
        // the strict mask order reflects back onto the positions
        assert(i1 < i2 && i2 < i3 && i3 < i4 && i4 < i5) by {
            if i2 <= i1 {
                assert(words[i2].0 <= words[i1].0);
            }
            if i3 <= i2 {
                assert(words[i3].0 <= words[i2].0);
            }
            if i4 <= i3 {
                assert(words[i4].0 <= words[i3].0);
            }
            if i5 <= i4 {
                assert(words[i5].0 <= words[i4].0);
            }
        }
        assert(s == sol_of(words, i1, i2, i3, i4, i5));
        assert(chain5(words, i1, i2, i3, i4, i5));
        assert(hit5(words, i1, i2, i3, i4, i5, s));
        assert(completes4(words, i1, i2, i3, i4, s));
        assert(hit4(words, i1, i2, i3, i4, s));
        assert(completes3(words, i1, i2, i3, s));
        assert(hit3(words, i1, i2, i3, s));
        assert(completes2(words, i1, i2, s));
        assert(hit2(words, i1, i2, s));
        assert(completes1(words, i1, s));
        assert(hit1(words, i1, s));
    }
}

/// Enumerates every Solution of the index's Candidate Set, each exactly
/// once: the result holds a tuple if and only if it is a valid Solution.
pub fn find_solutions(idx: &DisjointIndex) -> (r: Vec<Solution>)
    requires
        idx.wf(),
    ensures
        forall|s: Solution| r@.contains(s) <==> valid_solution(idx.words@, s),
        no_dup(r@),
{
    let r = enumerate_chains(idx);
    proof {
        assert forall|s: Solution| r@.contains(s) <==> valid_solution(idx.words@, s) by {
            lemma_chain_iff_valid(idx.words@, s);
        }
    }
    r
}

/// The five masks of a Solution, as a multiset.
pub open spec fn sol_multiset(s: Solution) -> Multiset<u32> {
    seq![s.0.0, s.1.0, s.2.0, s.3.0, s.4.0].to_multiset()
}

/// A Solution's masks are ascending in the fixed numeric order; both
/// `valid_solution` and `is_puzzle_solution` demand it.
pub open spec fn sol_ascending(s: Solution) -> bool {
    s.0.0 < s.1.0 && s.1.0 < s.2.0 && s.2.0 < s.3.0 && s.3.0 < s.4.0
}

/// Two ascending Solutions made of the same five masks are the same
/// Solution: the fixed order pins the arrangement, so no multiset of masks
/// is ever reported twice under different orders.
pub proof fn lemma_same_masks_same_solution(s1: Solution, s2: Solution)
    requires
        sol_ascending(s1),
        sol_ascending(s2),
        sol_multiset(s1) == sol_multiset(s2),
    ensures
        s1 == s2,
{
    let q1 = seq![s1.0.0, s1.1.0, s1.2.0, s1.3.0, s1.4.0];
    let q2 = seq![s2.0.0, s2.1.0, s2.2.0, s2.3.0, s2.4.0];
    let leq = |x: u32, y: u32| x <= y;
    assert(vstd::relations::total_ordering(leq));
    assert(vstd::relations::sorted_by(q1, leq));
    assert(vstd::relations::sorted_by(q2, leq));
    vstd::seq_lib::lemma_sorted_unique(q1, q2, leq);
    assert(q1 =~= q2);
    assert(s1.0.0 == s2.0.0 && s1.1.0 == s2.1.0 && s1.2.0 == s2.2.0 && s1.3.0 == s2.3.0
        && s1.4.0 == s2.4.0);
}

/// Five pairwise disjoint five-letter sets cover exactly twenty-five
/// distinct letters: disjoint unions add cardinalities.
proof fn lemma_disjoint_five_union(m1: u32, m2: u32, m3: u32, m4: u32, m5: u32)
    requires
        card(m1) == 5 && card(m2) == 5 && card(m3) == 5 && card(m4) == 5 && card(m5) == 5,
        m1 & m2 == 0 && m1 & m3 == 0 && m1 & m4 == 0 && m1 & m5 == 0,
        m2 & m3 == 0 && m2 & m4 == 0 && m2 & m5 == 0,
        m3 & m4 == 0 && m3 & m5 == 0,
        m4 & m5 == 0,
    ensures
        card(m1 | m2 | m3 | m4 | m5) == 25,
{
    lemma_card_disjoint_union(m1, m2);
    assert((m1 | m2) & m3 == 0) by (bit_vector)
        requires
            m1 & m3 == 0u32,
            m2 & m3 == 0u32,
    ;
    lemma_card_disjoint_union(m1 | m2, m3);
    assert((m1 | m2 | m3) & m4 == 0) by (bit_vector)
        requires
            m1 & m4 == 0u32,
            m2 & m4 == 0u32,
            m3 & m4 == 0u32,
    ;
    lemma_card_disjoint_union(m1 | m2 | m3, m4);
    assert((m1 | m2 | m3 | m4) & m5 == 0) by (bit_vector)
        requires
            m1 & m5 == 0u32,
            m2 & m5 == 0u32,
            m3 & m5 == 0u32,
            m4 & m5 == 0u32,
    ;
    lemma_card_disjoint_union(m1 | m2 | m3 | m4, m5);
}

/// A valid Solution over five-letter candidates covers exactly twenty-five
/// distinct letters: the pairwise intersections are empty (part of validity),
/// so the five cardinalities add up.
pub proof fn lemma_solution_covers_25(words: Seq<WordSet>, s: Solution)
    requires
        valid_solution(words, s),
        forall|i: int| 0 <= i < words.len() ==> card(#[trigger] words[i].0) == 5,
    ensures
        card(s.0.0 | s.1.0 | s.2.0 | s.3.0 | s.4.0) == 25,
{
    let (m1, m2, m3, m4, m5) = (s.0.0, s.1.0, s.2.0, s.3.0, s.4.0);
    assert(card(m1) == 5 && card(m2) == 5 && card(m3) == 5 && card(m4) == 5 && card(m5) == 5)
        by {
        let i1 = choose|i: int| 0 <= i < words.len() && words[i].0 == m1;
        let i2 = choose|i: int| 0 <= i < words.len() && words[i].0 == m2;
        let i3 = choose|i: int| 0 <= i < words.len() && words[i].0 == m3;
        let i4 = choose|i: int| 0 <= i < words.len() && words[i].0 == m4;
        let i5 = choose|i: int| 0 <= i < words.len() && words[i].0 == m5;
    }
    lemma_disjoint_five_union(m1, m2, m3, m4, m5);
}

/// What makes a tuple a Solution of the whole puzzle for a given token
/// list: five candidate masks of the list, ascending, pairwise disjoint.
pub open spec fn is_puzzle_solution(tokens: Seq<Seq<u8>>, s: Solution) -> bool {
    &&& is_candidate_mask(tokens, s.0.0)
    &&& is_candidate_mask(tokens, s.1.0)
    &&& is_candidate_mask(tokens, s.2.0)
    &&& is_candidate_mask(tokens, s.3.0)
    &&& is_candidate_mask(tokens, s.4.0)
    &&& s.0.0 < s.1.0 && s.1.0 < s.2.0 && s.2.0 < s.3.0 && s.3.0 < s.4.0
    &&& s.0.0 & s.1.0 == 0 && s.0.0 & s.2.0 == 0 && s.0.0 & s.3.0 == 0 && s.0.0 & s.4.0 == 0
    &&& s.1.0 & s.2.0 == 0 && s.1.0 & s.3.0 == 0 && s.1.0 & s.4.0 == 0
    &&& s.2.0 & s.3.0 == 0 && s.2.0 & s.4.0 == 0
    &&& s.3.0 & s.4.0 == 0
}

/// A Solution of the puzzle covers exactly twenty-five distinct letters:
/// each of its five masks comes from a five-letter candidate token, and the
/// pairwise intersections are empty.
pub proof fn lemma_puzzle_solution_covers_25(tokens: Seq<Seq<u8>>, s: Solution)
    requires
        is_puzzle_solution(tokens, s),
    ensures
        card(s.0.0 | s.1.0 | s.2.0 | s.3.0 | s.4.0) == 25,
{
    let (m1, m2, m3, m4, m5) = (s.0.0, s.1.0, s.2.0, s.3.0, s.4.0);
    assert(card(m1) == 5 && card(m2) == 5 && card(m3) == 5 && card(m4) == 5 && card(m5) == 5)
        by {
        let k1 = choose|k: int|
            0 <= k < tokens.len() && is_candidate_token(tokens[k]) && word_mask(tokens[k]) == m1;
        let k2 = choose|k: int|
            0 <= k < tokens.len() && is_candidate_token(tokens[k]) && word_mask(tokens[k]) == m2;
        let k3 = choose|k: int|
            0 <= k < tokens.len() && is_candidate_token(tokens[k]) && word_mask(tokens[k]) == m3;
        let k4 = choose|k: int|
            0 <= k < tokens.len() && is_candidate_token(tokens[k]) && word_mask(tokens[k]) == m4;
        let k5 = choose|k: int|
            0 <= k < tokens.len() && is_candidate_token(tokens[k]) && word_mask(tokens[k]) == m5;
    }
    lemma_disjoint_five_union(m1, m2, m3, m4, m5);
}

/// The whole pipeline on a token list: extracts the Candidate Set, builds
/// the Disjointness Index, and enumerates every Solution of the puzzle,
/// each exactly once.
pub fn solve(tokens: &Vec<Vec<u8>>) -> (r: Vec<Solution>)
    ensures
        forall|s: Solution| r@.contains(s) <==> is_puzzle_solution(views(tokens@), s),
        no_dup(r@),
{
    let ghost tv = views(tokens@);
    let words = extract_candidates(tokens);
    let ghost wv = words@;
    let idx = DisjointIndex::build(words);
    let r = find_solutions(&idx);
    proof {
        assert forall|m: u32| contains_mask(wv, m) <==> is_candidate_mask(tv, m) by {
            if contains_mask(wv, m) {
                let i = choose|i: int| 0 <= i < wv.len() && wv[i].0 == m;
            }
            if is_candidate_mask(tv, m) {
                let i = choose|i: int| 0 <= i < wv.len() && wv[i].0 == m;
            }
        }
    }
    r
}

} // verus!
