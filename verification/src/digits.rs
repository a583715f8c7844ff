//! Sets of the digits 1..=9, as used for the candidates of a cell.

use vstd::prelude::*;
use crate::counting::{below, is_least, lemma_below_start, lemma_below_step, lemma_below_end, lemma_bounded_set_finite};

verus! {

/// The set of all nine digits.
pub open spec fn all_digits() -> Set<int> {
    Set::new(|d: int| 1 <= d <= 9)
}

/// A set of digits between 1 and 9, kept as one bit per digit.
#[derive(Clone, Copy, Debug, PartialEq, Eq)]
pub struct DigitSet {
    bits: u16,
}

spec fn bit(bits: u16, d: int) -> bool {
    (bits >> (d as u16)) & 1 == 1
}

proof fn lemma_bit_cleared(m: u16, d: u16, e: u16)
    by (bit_vector)
    requires
        d < 16,
        e < 16,
    ensures
        (((m & !(1u16 << d)) >> e) & 1 == 1) == (e != d && (m >> e) & 1 == 1),
{
}

proof fn lemma_bit_raised(m: u16, d: u16, e: u16)
    by (bit_vector)
    requires
        d < 16,
        e < 16,
    ensures
        (((m | (1u16 << d)) >> e) & 1 == 1) == (e == d || (m >> e) & 1 == 1),
{
}

proof fn lemma_bits_of_full(e: u16)
    by (bit_vector)
    requires
        e < 16,
    ensures
        ((0x3feu16 >> e) & 1 == 1) == (1 <= e && e <= 9),
{
}

proof fn lemma_bits_of_empty(e: u16)
    by (bit_vector)
    requires
        e < 16,
    ensures
        (0u16 >> e) & 1 == 0,
{
}

impl View for DigitSet {
    type V = Set<int>;

    closed spec fn view(&self) -> Set<int> {
        Set::new(|d: int| 1 <= d <= 9 && bit(self.bits, d))
    }
}

impl DigitSet {
    /// Every member is a digit, so the set is finite with at most nine members.
    pub proof fn lemma_bounds(self)
        ensures
            self@.finite(),
            self@.len() <= 9,
            forall|d: int| self@.contains(d) ==> 1 <= d <= 9,
    {
        lemma_bounded_set_finite(self@, 1, 10);
    }

    /// The set without any digit.
    pub fn empty() -> (s: DigitSet)
        ensures
            s@ == Set::<int>::empty(),
    {
        let s = DigitSet { bits: 0 };
        proof {
            assert forall|d: int| !s@.contains(d) by {
                if 1 <= d <= 9 {
                    lemma_bits_of_empty(d as u16);
                }
            }
            assert(s@ =~= Set::<int>::empty());
        }
        s
    }

    /// The set of all nine digits.
    pub fn full() -> (s: DigitSet)
        ensures
            s@ == all_digits(),
    {
        let s = DigitSet { bits: 0x3fe };
        proof {
            assert forall|d: int| s@.contains(d) == all_digits().contains(d) by {
                if 1 <= d <= 9 {
                    lemma_bits_of_full(d as u16);
                }
            }
            assert(s@ =~= all_digits());
        }
        s
    }

    /// Whether `d` is in the set.
    pub fn contains(&self, d: u8) -> (b: bool)
        ensures
            b == self@.contains(d as int),
    {
        d >= 1 && d <= 9 && (self.bits >> (d as u16)) & 1 == 1
    }

    /// The set with `d` added; unchanged if `d` is no digit.
    pub fn insert(self, d: u8) -> (s: DigitSet)
        ensures
            s@ == if 1 <= d <= 9 {
                self@.insert(d as int)
            } else {
                self@
            },
    {
        if d >= 1 && d <= 9 {
            let s = DigitSet { bits: self.bits | (1u16 << (d as u16)) };
            proof {
                assert forall|e: int| s@.contains(e) == self@.insert(d as int).contains(e) by {
                    if 1 <= e <= 9 {
                        lemma_bit_raised(self.bits, d as u16, e as u16);
                    }
                }
                assert(s@ =~= self@.insert(d as int));
            }
            s
        } else {
            self
        }
    }

    /// The set with `d` taken out.
    pub fn remove(self, d: u8) -> (s: DigitSet)
        ensures
            s@ == self@.remove(d as int),
    {
        if d >= 1 && d <= 9 {
            let s = DigitSet { bits: self.bits & !(1u16 << (d as u16)) };
            proof {
                assert forall|e: int| s@.contains(e) == self@.remove(d as int).contains(e) by {
                    if 1 <= e <= 9 {
                        lemma_bit_cleared(self.bits, d as u16, e as u16);
                    }
                }
                assert(s@ =~= self@.remove(d as int));
            }
            s
        } else {
            proof {
                assert(self@ =~= self@.remove(d as int));
            }
            self
        }
    }

    /// The number of digits in the set.
    pub fn len(&self) -> (n: usize)
        ensures
            n == self@.len(),
            n <= 9,
    {
        let mut n: usize = 0;
        let mut d: u8 = 1;
        proof {
            lemma_below_start(self@, 1);
        }
        while d <= 9
            invariant
                1 <= d <= 10,
                below(self@, d as int).finite(),
                n == below(self@, d as int).len(),
                n < d,
            decreases 10 - d,
        {
            proof {
                lemma_below_step(self@, d as int);
            }
            if self.contains(d) {
                n = n + 1;
            }
            d = d + 1;
        }
        proof {
            lemma_below_end(self@, 10);
        }
        n
    }

    /// Whether the set has no digit.
    pub fn is_empty(&self) -> (b: bool)
        ensures
            b == (self@ == Set::<int>::empty()),
    {
        let n = self.len();
        proof {
            self.lemma_bounds();
            if n == 0 {
                assert(self@ =~= Set::<int>::empty());
            }
        }
        n == 0
    }

    /// The smallest digit of the set, if it has one.
    pub fn first(&self) -> (r: Option<u8>)
        ensures
            match r {
                Some(d) => is_least(self@, d as int),
                None => self@ == Set::<int>::empty(),
            },
    {
        let mut d: u8 = 1;
        while d <= 9
            invariant
                1 <= d <= 10,
                forall|e: int| 1 <= e < d ==> !self@.contains(e),
            decreases 10 - d,
        {
            if self.contains(d) {
                return Some(d);
            }
            d = d + 1;
        }
        proof {
            assert(self@ =~= Set::<int>::empty());
        }
        None
    }
}

} // verus!
