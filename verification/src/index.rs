//! The Disjointness Index: for every element of the Candidate Set, the
//! positions of the elements that occur strictly after it in the fixed order
//! and share no letter with it. It is the adjacency structure the chain
//! enumeration walks, built once and read-only afterwards.

use vstd::prelude::*;
use crate::letterset::WordSet;

verus! {

/// The Candidate Set together with, for each position, the ordered list of
/// later positions holding a disjoint mask.
pub struct DisjointIndex {
    /// The Candidate Set, strictly increasing by mask value.
    pub words: Vec<WordSet>,
    /// `adj[i]` lists every `k > i` with `words[i]` and `words[k]` disjoint,
    /// in increasing order.
    pub adj: Vec<Vec<usize>>,
}

impl DisjointIndex {
    /// The index is fully populated and sound: one adjacency list per
    /// candidate; every listed position is a later, disjoint candidate;
    /// every later, disjoint candidate is listed; lists are strictly
    /// increasing; and the candidates themselves are strictly ordered.
    pub open spec fn wf(self) -> bool {
        &&& self.adj@.len() == self.words@.len()
        &&& forall|i: int, j: int| 0 <= i < j < self.words@.len() ==> self.words@[i].0
            < self.words@[j].0
        &&& forall|i: int, a: int|
            0 <= i < self.adj@.len() && 0 <= a < self.adj@[i]@.len() ==> i < #[trigger] self.adj@[i]@[a]
                < self.words@.len() && self.words@[i].0 & self.words@[self.adj@[i]@[a] as int].0
                == 0
        &&& forall|i: int, k: int|
            0 <= i < k < self.words@.len() && self.words@[i].0 & self.words@[k].0 == 0
                ==> #[trigger] self.adj@[i]@.contains(k as usize)
        &&& forall|i: int, a: int, b: int|
            0 <= i < self.adj@.len() && 0 <= a < b < self.adj@[i]@.len() ==> self.adj@[i]@[a]
                < self.adj@[i]@[b]
    }

    /// Builds the index over a strictly ordered Candidate Set, comparing
    /// every pair once.
    pub fn build(words: Vec<WordSet>) -> (r: DisjointIndex)
        requires
            forall|i: int, j: int| 0 <= i < j < words@.len() ==> words@[i].0 < words@[j].0,
        ensures
            r.wf(),
            r.words@ == words@,
    {
        let n = words.len();
        let mut adj: Vec<Vec<usize>> = Vec::new();
        let mut i: usize = 0;
        while i < n
            invariant
                i <= n,
                n == words@.len(),
                adj@.len() == i,
                forall|p: int, a: int|
                    0 <= p < i && 0 <= a < adj@[p]@.len() ==> p < #[trigger] adj@[p]@[a] < n
                        && words@[p].0 & words@[adj@[p]@[a] as int].0 == 0,
                forall|p: int, k: int|
                    0 <= p < i && p < k < n && words@[p].0 & words@[k].0 == 0
                        ==> #[trigger] adj@[p]@.contains(k as usize),
                forall|p: int, a: int, b: int|
                    0 <= p < i && 0 <= a < b < adj@[p]@.len() ==> adj@[p]@[a] < adj@[p]@[b],
            decreases n - i,
        {
            let wi = words[i];
            let mut row: Vec<usize> = Vec::new();
            let mut k: usize = i + 1;
            while k < n
                invariant
                    i < k <= n,
                    i < n,
                    n == words@.len(),
                    wi == words@[i as int],
                    forall|a: int| 0 <= a < row@.len() ==> i < #[trigger] row@[a] < k
                        && words@[i as int].0 & words@[row@[a] as int].0 == 0,
                    forall|q: int|
                        i < q < k && words@[i as int].0 & words@[q].0 == 0
                            ==> #[trigger] row@.contains(q as usize),
                    forall|a: int, b: int| 0 <= a < b < row@.len() ==> row@[a] < row@[b],
                decreases n - k,
            {
                let wk = words[k];
                let ghost prev = row@;
                if wi.intersection(wk).0 == 0 {
                    row.push(k);
                }
                proof {
                    assert forall|q: int|
                        i < q < k + 1 && words@[i as int].0 & words@[q].0 == 0 implies
                        #[trigger] row@.contains(q as usize) by {
                        if q < k {
                            assert(prev.contains(q as usize));
                            let a = choose|a: int| 0 <= a < prev.len() && prev[a] == q as usize;
                            assert(row@[a] == q as usize);
                        } else {
                            assert(row@.last() == k as usize);
                        }
                    }
                }
                k = k + 1;
            }
            adj.push(row);
            i = i + 1;
        }
        DisjointIndex { words, adj }
    }
}

} // verus!
