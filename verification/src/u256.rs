//! A 256-bit unsigned integer with checked arithmetic.
//!
//! Difficulty, gas and timestamp quantities are 256-bit wide; machine-word
//! arithmetic would silently truncate them, so the chain works on this pair of
//! 128-bit limbs with an explicit checked overflow policy.

use vstd::prelude::*;
use vstd::arithmetic::mul::{
    lemma_mul_inequality, lemma_mul_is_commutative, lemma_mul_is_distributive_add,
};
use vstd::arithmetic::div_mod::{
    lemma_fundamental_div_mod_converse_div, lemma_fundamental_div_mod_converse_mod,
    lemma_mod_multiples_vanish, lemma_small_mod,
};

verus! {

/// A 256-bit unsigned integer, split into a low and a high 128-bit limb.
#[derive(Clone, Copy, Debug, PartialEq, Eq, Hash, Structural)]
pub struct U256 {
    pub lo: u128,
    pub hi: u128,
}

/// 2^128, the weight of the high limb.
#[verifier::inline]
pub open spec fn limb_base() -> int {
    0x100000000000000000000000000000000int
}

/// 2^256, the first value that does not fit in a `U256`.
#[verifier::inline]
pub open spec fn u256_bound() -> int {
    0x10000000000000000000000000000000000000000000000000000000000000000int
}

/// The unsigned 256-bit value written by an integer in `[0, 2^256)`.
pub open spec fn u256_from_int(x: int) -> U256 {
    U256 { lo: (x % limb_base()) as u128, hi: (x / limb_base()) as u128 }
}

impl U256 {
    /// The mathematical value of this integer.
    pub open spec fn as_int(self) -> int {
        self.lo as int + self.hi as int * limb_base()
    }

    /// The limb split is the base-2^128 expansion: it is unique, so equal
    /// values have equal limbs.
    pub proof fn lemma_as_int_bounds(self)
        ensures
            0 <= self.as_int() < u256_bound(),
            u256_from_int(self.as_int()) == self,
    {
        lemma_fundamental_div_mod_converse_mod(
            self.as_int(),
            limb_base(),
            self.hi as int,
            self.lo as int,
        );
        lemma_fundamental_div_mod_converse_div(
            self.as_int(),
            limb_base(),
            self.hi as int,
            self.lo as int,
        );
        lemma_mul_is_commutative(self.hi as int, limb_base());
    }

    /// The zero value.
    pub fn zero() -> (r: U256)
        ensures
            r.as_int() == 0,
            r == (U256 { lo: 0, hi: 0 }),
    {
        U256 { lo: 0, hi: 0 }
    }

    /// The value of a 64-bit integer.
    pub fn from_u64(x: u64) -> (r: U256)
        ensures
            r.as_int() == x as int,
    {
        U256 { lo: x as u128, hi: 0 }
    }

    /// The value with the given limbs.
    pub fn new(lo: u128, hi: u128) -> (r: U256)
        ensures
            r == (U256 { lo, hi }),
            r.as_int() == lo as int + hi as int * limb_base(),
    {
        U256 { lo, hi }
    }

    /// Addition under the checked overflow policy: `None` exactly when the sum
    /// does not fit in 256 bits.
    pub fn checked_add(self, other: U256) -> (r: Option<U256>)
        ensures
            match r {
                Some(v) => v.as_int() == self.as_int() + other.as_int(),
                None => self.as_int() + other.as_int() >= u256_bound(),
            },
    {
        let (lo, carry): (u128, u128) = match self.lo.checked_add(other.lo) {
            Some(v) => (v, 0u128),
            None => {
                let w = self.lo.wrapping_add(other.lo);
                proof {
                    let s = self.lo as int + other.lo as int;
                    lemma_mod_multiples_vanish(1, s - limb_base(), limb_base());
                    lemma_small_mod((s - limb_base()) as nat, limb_base() as nat);
                    assert(w as int == s - limb_base());
                }
                (w, 1u128)
            },
        };
        let hi_partial = match self.hi.checked_add(other.hi) {
            Some(v) => v,
            None => {
                return None;
            },
        };
        let hi = match hi_partial.checked_add(carry) {
            Some(v) => v,
            None => {
                return None;
            },
        };
        Some(U256 { lo, hi })
    }

    /// Addition of a sum already known to fit in 256 bits.
    pub fn add_exact(self, other: U256) -> (r: U256)
        requires
            self.as_int() + other.as_int() < u256_bound(),
        ensures
            r.as_int() == self.as_int() + other.as_int(),
    {
        match self.checked_add(other) {
            Some(v) => v,
            None => {
                proof {
                    assert(false);
                }
                U256 { lo: 0, hi: 0 }
            },
        }
    }

    /// `self + count * step`, computed by repeated checked addition; the bound
    /// in the precondition keeps every partial sum inside 256 bits.
    pub fn add_multiple(self, step: U256, count: u64) -> (r: U256)
        requires
            self.as_int() + count as int * step.as_int() < u256_bound(),
        ensures
            r.as_int() == self.as_int() + count as int * step.as_int(),
    {
        let mut acc = self;
        let mut i: u64 = 0;
        while i < count
            invariant
                i <= count,
                acc.as_int() == self.as_int() + i as int * step.as_int(),
                self.as_int() + count as int * step.as_int() < u256_bound(),
            decreases count - i,
        {
            proof {
                lemma_mul_is_distributive_add(step.as_int(), i as int, 1);
                lemma_mul_is_commutative(step.as_int(), i as int);
                lemma_mul_is_commutative(step.as_int(), i as int + 1);
                lemma_mul_inequality(i as int + 1, count as int, step.as_int());
                lemma_mul_is_commutative(step.as_int(), count as int);
            }
            acc = acc.add_exact(step);
            i = i + 1;
        }
        acc
    }
}

} // verus!
