use crate::engine::{
    bdd_and, bdd_constant, bdd_functions, bdd_labels, bdd_not, bdd_terminal, keeps_functions,
    words_with_bit,
};
use boolean_expression::BDD;
use vstd::prelude::*;

verus! {

/// A constraint on a 32-bit word: the bits set in `mask` must equal the
/// corresponding bits of `bits`; the other positions are free.
#[derive(Clone, Copy, Debug, PartialEq, Eq, Structural)]
pub struct Encoding {
    pub bits: u32,
    pub mask: u32,
}

/// Bit `k` of `x` is set.
pub open spec fn bit_of(x: u32, k: u32) -> bool {
    x & (1u32 << k) != 0
}

/// The mask of the positions below `n` (all of them when `n >= 32`).
pub open spec fn low_mask(n: u32) -> u32 {
    if n < 32 {
        !(0xffff_ffffu32 << n)
    } else {
        0xffff_ffffu32
    }
}

/// `w` agrees with `e` on every constrained position below `n`.
pub open spec fn matches_below(e: Encoding, w: u32, n: u32) -> bool {
    (w ^ e.bits) & e.mask & low_mask(n) == 0
}

impl Encoding {
    /// The word `w` satisfies this encoding: it equals `bits` on every
    /// position of `mask`, whatever it holds elsewhere.
    pub open spec fn matches(self, w: u32) -> bool {
        w & self.mask == self.bits & self.mask
    }

    /// The words that satisfy this encoding.
    pub open spec fn words(self) -> Set<u32> {
        Set::new(|w: u32| self.matches(w))
    }

    /// Builds in `bdd` the function that is true exactly on the words that
    /// satisfy this encoding: the conjunction, from the low position up, of
    /// one literal per constrained position.
    pub fn to_bdd(&self, bdd: &mut BDD<u32>) -> (r: usize)
        ensures
            keeps_functions(*old(bdd), *final(bdd)),
            forall|t: u32| #[trigger]
                bdd_labels(*final(bdd)).contains(t) ==> t < 32 || bdd_labels(*old(bdd)).contains(t),
            bdd_functions(*final(bdd)).contains_key(r),
            bdd_functions(*final(bdd))[r] == self.words(),
    {
        let mut func = bdd_constant(bdd, true);
        proof {
            assert forall|w: u32| #[trigger] bdd_functions(*bdd)[func].contains(w) == matches_below(*self, w, 0) by {
                lemma_matches_below_zero(*self, w);
            }
            assert(bdd_functions(*bdd)[func] =~= Set::new(|w: u32| matches_below(*self, w, 0)));
        }
        let mut i: u32 = 0;
        while i < 32
            invariant
                i <= 32,
                keeps_functions(*old(bdd), *bdd),
                forall|t: u32| #[trigger]
                    bdd_labels(*bdd).contains(t) ==> t < 32 || bdd_labels(*old(bdd)).contains(t),
                bdd_functions(*bdd).contains_key(func),
                bdd_functions(*bdd)[func] == Set::new(|w: u32| matches_below(*self, w, i)),
            decreases 32 - i,
        {
            let bit = 1u32 << i;
            if self.mask & bit != 0 {
                let bit_term = bdd_terminal(bdd, i);
                let bit_is_correct = if self.bits & bit != 0 {
                    bit_term
                } else {
                    bdd_not(bdd, bit_term)
                };
                func = bdd_and(bdd, func, bit_is_correct);
                proof {
                    let want = bdd_functions(*bdd)[func];
                    assert forall|w: u32| #[trigger] want.contains(w) == matches_below(*self, w, (i + 1) as u32) by {
                        lemma_matches_below_step(*self, w, i);
                    }
                    assert(want =~= Set::new(|w: u32| matches_below(*self, w, (i + 1) as u32)));
                }
            } else {
                proof {
                    let want = bdd_functions(*bdd)[func];
                    assert forall|w: u32| #[trigger] want.contains(w) == matches_below(*self, w, (i + 1) as u32) by {
                        lemma_matches_below_step(*self, w, i);
                    }
                    assert(want =~= Set::new(|w: u32| matches_below(*self, w, (i + 1) as u32)));
                }
            }
            i += 1;
        }
        proof {
            assert forall|w: u32| #[trigger] bdd_functions(*bdd)[func].contains(w) == self.matches(w) by {
                lemma_matches_below_all(*self, w);
            }
            assert(bdd_functions(*bdd)[func] =~= self.words());
        }
        func
    }
}

/// Nothing is constrained below position zero.
proof fn lemma_matches_below_zero(e: Encoding, w: u32)
    ensures
        matches_below(e, w, 0),
{
    let (x, b, m) = (w, e.bits, e.mask);
    assert((x ^ b) & m & !(0xffff_ffffu32 << 0u32) == 0) by (bit_vector);
}

/// Below 32 positions, agreement is matching.
proof fn lemma_matches_below_all(e: Encoding, w: u32)
    ensures
        matches_below(e, w, 32) == e.matches(w),
{
    let (x, b, m) = (w, e.bits, e.mask);
    assert(((x ^ b) & m & 0xffff_ffffu32 == 0) == (x & m == b & m)) by (bit_vector);
}

/// Agreement below `n + 1` adds the constraint at position `n`, if any.
proof fn lemma_matches_below_step(e: Encoding, w: u32, n: u32)
    requires
        n < 32,
    ensures
        matches_below(e, w, (n + 1) as u32) == (matches_below(e, w, n) && (bit_of(e.mask, n)
            ==> bit_of(w, n) == bit_of(e.bits, n))),
{
    let (x, b, m) = (w, e.bits, e.mask);
    if n < 31 {
        assert(((x ^ b) & m & !(0xffff_ffffu32 << ((n + 1) as u32)) == 0) == (((x ^ b) & m & !(
        0xffff_ffffu32 << n) == 0) && ((m & (1u32 << n) != 0) ==> ((x & (1u32 << n) != 0) == (b
            & (1u32 << n) != 0))))) by (bit_vector)
            requires
                n < 31,
        ;
    } else {
        assert(((x ^ b) & m & 0xffff_ffffu32 == 0) == (((x ^ b) & m & !(0xffff_ffffu32 << n)
            == 0) && ((m & (1u32 << n) != 0) ==> ((x & (1u32 << n) != 0) == (b & (1u32 << n)
            != 0))))) by (bit_vector)
            requires
                n == 31,
        ;
    }
}

} // verus!
