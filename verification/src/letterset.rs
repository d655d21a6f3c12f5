//! The atomic value type of the search: a set of letters packed into the low
//! 26 bits of a `u32`. Letter `'A'` is the highest of those bits and `'Z'`
//! the lowest, so the numeric order of masks is the fixed total order that
//! the later stages use to direct the enumeration.

use vstd::prelude::*;

verus! {

/// `true` iff `c` is an ASCII letter, upper or lower case.
pub open spec fn is_ascii_letter(c: u8) -> bool {
    (65 <= c && c <= 90) || (97 <= c && c <= 122)
}

/// Uppercases an ASCII lowercase letter byte; leaves every other byte as it is.
pub open spec fn spec_upper(c: u8) -> u8 {
    if 97 <= c && c <= 122 {
        (c - 32) as u8
    } else {
        c
    }
}

/// Position of the bit that stands for the letter of byte `c`:
/// `'A'` maps to bit 25, `'Z'` to bit 0.
pub open spec fn letter_shift(c: u8) -> u32 {
    (25 - (spec_upper(c) - 65)) as u32
}

/// The mask holding exactly the letter of byte `c`.
pub open spec fn byte_mask(c: u8) -> u32 {
    1u32 << letter_shift(c)
}

/// The mask holding every letter of the word `w`.
pub open spec fn word_mask(w: Seq<u8>) -> u32
    decreases w.len(),
{
    if w.len() == 0 {
        0u32
    } else {
        word_mask(w.drop_last()) | byte_mask(w.last())
    }
}

/// Number of set bits of `m` among the bits strictly below position `n`.
pub open spec fn pop_below(m: u32, n: nat) -> nat
    decreases n,
{
    if n == 0 {
        0
    } else {
        pop_below(m, (n - 1) as nat) + (if (m >> ((n - 1) as u32)) & 1u32 == 1u32 {
            1nat
        } else {
            0nat
        })
    }
}

/// Number of set bits of `m`: the cardinality of the letter set.
pub open spec fn card(m: u32) -> nat {
    pop_below(m, 32)
}

/// What slot `i` of the 26-character rendering of `m` shows: the `i`-th
/// letter of the alphabet if it is in the set, a dash otherwise.
pub open spec fn display_byte(m: u32, i: int) -> u8 {
    if (m >> ((25 - i) as u32)) & 1u32 == 1u32 {
        (65 + i) as u8
    } else {
        45u8
    }
}

/// Counting bit by bit distributes over a disjoint union.
proof fn lemma_pop_below_disjoint_or(a: u32, b: u32, n: nat)
    requires
        a & b == 0,
        n <= 32,
    ensures
        pop_below(a | b, n) == pop_below(a, n) + pop_below(b, n),
    decreases n,
{
    if n > 0 {
        lemma_pop_below_disjoint_or(a, b, (n - 1) as nat);
        let k = (n - 1) as u32;
        assert(((a | b) >> k) & 1u32 == ((a >> k) & 1u32) + ((b >> k) & 1u32)) by (bit_vector)
            requires
                a & b == 0u32,
        ;
        assert((a >> k) & 1u32 == 0u32 || (a >> k) & 1u32 == 1u32) by (bit_vector);
        assert((b >> k) & 1u32 == 0u32 || (b >> k) & 1u32 == 1u32) by (bit_vector);
        assert(((a | b) >> k) & 1u32 == 0u32 || ((a | b) >> k) & 1u32 == 1u32) by (bit_vector);
    }
}

/// The cardinality of a union of disjoint letter sets is the sum of the
/// cardinalities.
pub proof fn lemma_card_disjoint_union(a: u32, b: u32)
    requires
        a & b == 0,
    ensures
        card(a | b) == card(a) + card(b),
{
    lemma_pop_below_disjoint_or(a, b, 32);
}

/// The set of distinct letters of a word, packed into the low 26 bits of a
/// `u32`; the value type used by every later stage.
#[derive(Clone, Copy, PartialEq, Eq, Structural, Debug)]
pub struct WordSet(pub u32);

impl WordSet {
    /// Only the low 26 bits may be set.
    pub open spec fn wf(self) -> bool {
        self.0 < 0x4000000u32
    }

    /// The set with no letters.
    pub fn empty() -> (r: WordSet)
        ensures
            r.0 == 0u32,
    {
        WordSet(0)
    }

    /// Letters common to `self` and `other`.
    pub fn intersection(self, other: WordSet) -> (r: WordSet)
        ensures
            r.0 == self.0 & other.0,
    {
        WordSet(self.0 & other.0)
    }

    /// Letters of `self` or `other`.
    pub fn union(self, other: WordSet) -> (r: WordSet)
        ensures
            r.0 == self.0 | other.0,
    {
        WordSet(self.0 | other.0)
    }

    /// `true` iff the set holds no letter.
    pub fn is_empty(self) -> (r: bool)
        ensures
            r == (self.0 == 0u32),
    {
        self.0 == 0
    }

    /// How many letters the set holds.
    pub fn size(self) -> (r: u32)
        ensures
            r == card(self.0),
    {
        let m = self.0;
        let mut count: u32 = 0;
        let mut i: u32 = 0;
        while i < 32
            invariant
                i <= 32,
                count == pop_below(m, i as nat),
                count <= i,
            decreases 32 - i,
        {
            if (m >> i) & 1 == 1 {
                count = count + 1;
            }
            i = i + 1;
        }
        count
    }

    /// Folds the letters of a word into a mask, case-insensitively.
    /// Only defined on purely alphabetic tokens; the stages upstream
    /// filter out everything else.
    pub fn from_word(word: &[u8]) -> (r: WordSet)
        requires
            forall|i: int| 0 <= i < word@.len() ==> is_ascii_letter(word@[i]),
        ensures
            r.0 == word_mask(word@),
            r.wf(),
    {
        let mut res: u32 = 0;
        let mut ix: usize = 0;
        while ix < word.len()
            invariant
                ix <= word@.len(),
                forall|i: int| 0 <= i < word@.len() ==> is_ascii_letter(word@[i]),
                res == word_mask(word@.subrange(0, ix as int)),
                res < 0x4000000u32,
            decreases word@.len() - ix,
        {
            let c = word[ix];
            let u = if c >= 97 {
                c - 32
            } else {
                c
            };
            let sh: u32 = 25 - (u as u32 - 65);
            proof {
                assert(word@.subrange(0, (ix + 1) as int).drop_last() =~= word@.subrange(
                    0,
                    ix as int,
                ));
                assert(res < 0x4000000u32 && sh <= 25 ==> (res | (1u32 << sh)) < 0x4000000u32)
                    by (bit_vector);
            }
            res = res | (1u32 << sh);
            ix = ix + 1;
        }
        proof {
            assert(word@.subrange(0, word@.len() as int) =~= word@);
        }
        WordSet(res)
    }

    /// Renders the 26 slots of the mask as ASCII bytes: a letter where
    /// the set holds it, a dash where it does not.
    pub fn show(self) -> (r: Vec<u8>)
        ensures
            r@.len() == 26,
            forall|i: int| 0 <= i < 26 ==> r@[i] == display_byte(self.0, i),
    {
        let mut res: Vec<u8> = Vec::new();
        let mut i: u32 = 0;
        while i < 26
            invariant
                i <= 26,
                res@.len() == i,
                forall|j: int| 0 <= j < i ==> res@[j] == display_byte(self.0, j),
            decreases 26 - i,
        {
            if (self.0 >> (25 - i)) & 1 == 1 {
                res.push(65 + i as u8);
            } else {
                res.push(45);
            }
            i = i + 1;
        }
        res
    }
}

} // verus!
