//! Bitwise operations and shifts on words.
//!
//! Shifts are expressed through their arithmetic meaning: a left shift
//! multiplies by a power of two modulo 2^256, a right shift divides by one.
//! Shift amounts of 256 or more saturate as the instruction set prescribes.

use vstd::prelude::*;
use vstd::arithmetic::power2::{pow2, lemma_pow2_adds, lemma2_to64, lemma_pow2_strictly_increases};
use vstd::arithmetic::div_mod::{
    lemma_fundamental_div_mod_converse, lemma_small_mod, lemma_add_mod_noop,
};
use vstd::arithmetic::mul::lemma_mul_is_distributive_add;
use crate::word::{Word, p256, p255, lemma_powers};
use crate::arith::lemma_div_div;

verus! {

impl Word {
    /// Bitwise and, limb by limb.
    pub fn bit_and(self, other: Word) -> (r: Word)
        ensures
            r.limb0 == (self.limb0 & other.limb0),
            r.limb1 == (self.limb1 & other.limb1),
            r.limb2 == (self.limb2 & other.limb2),
            r.limb3 == (self.limb3 & other.limb3),
    {
        Word {
            limb0: self.limb0 & other.limb0,
            limb1: self.limb1 & other.limb1,
            limb2: self.limb2 & other.limb2,
            limb3: self.limb3 & other.limb3,
        }
    }

    /// Bitwise or, limb by limb.
    pub fn bit_or(self, other: Word) -> (r: Word)
        ensures
            r.limb0 == (self.limb0 | other.limb0),
            r.limb1 == (self.limb1 | other.limb1),
            r.limb2 == (self.limb2 | other.limb2),
            r.limb3 == (self.limb3 | other.limb3),
    {
        Word {
            limb0: self.limb0 | other.limb0,
            limb1: self.limb1 | other.limb1,
            limb2: self.limb2 | other.limb2,
            limb3: self.limb3 | other.limb3,
        }
    }

    /// Bitwise exclusive or, limb by limb.
    pub fn bit_xor(self, other: Word) -> (r: Word)
        ensures
            r.limb0 == (self.limb0 ^ other.limb0),
            r.limb1 == (self.limb1 ^ other.limb1),
            r.limb2 == (self.limb2 ^ other.limb2),
            r.limb3 == (self.limb3 ^ other.limb3),
    {
        Word {
            limb0: self.limb0 ^ other.limb0,
            limb1: self.limb1 ^ other.limb1,
            limb2: self.limb2 ^ other.limb2,
            limb3: self.limb3 ^ other.limb3,
        }
    }

    /// Bitwise complement: every bit flipped, so the value becomes
    /// `2^256 - 1 - self`.
    pub fn bit_not(self) -> (r: Word)
        ensures
            r@ == p256() - 1 - self@,
    {
        Word::max().wrapping_sub(self)
    }

    /// Whether the two's-complement sign bit (bit 255) is set.
    pub fn is_negative(&self) -> (r: bool)
        ensures
            r == (self@ >= p255()),
    {
        self.limb3 >= 0x8000_0000_0000_0000
    }

    /// Left shift by fewer than 256 bit positions, modulo 2^256.
    pub fn shl_small(self, n: usize) -> (r: Word)
        requires
            n < 256,
        ensures
            r@ == (self@ * pow2(n as nat)) % p256(),
    {
        let mut w = self;
        let mut i: usize = 0;
        proof {
            lemma_powers();
            lemma2_to64();
            vstd::arithmetic::mul::lemma_mul_basics(self@ as int);
            lemma_small_mod(self@, p256());
        }
        while i < n
            invariant
                i <= n,
                w@ == (self@ * pow2(i as nat)) % p256(),
            decreases n - i,
        {
            let ghost i0 = i as nat;
            let w2 = w.wrapping_add(w);
            proof {
                lemma_add_mod_noop(
                    (self@ * pow2(i0)) as int,
                    (self@ * pow2(i0)) as int,
                    p256() as int,
                );
                lemma_small_mod(
                    ((self@ * pow2(i0)) % p256() + (self@ * pow2(i0)) % p256()) % p256(),
                    p256(),
                );
                assert(self@ * pow2(i0) + self@ * pow2(i0) == self@ * (pow2(i0) + pow2(i0))) by {
                    lemma_mul_is_distributive_add(self@ as int, pow2(i0) as int, pow2(i0) as int);
                }
                lemma_pow2_adds(i0, 1);
                lemma2_to64();
                assert(w2@ == (self@ * pow2(i0 + 1)) % p256());
            }
            w = w2;
            i = i + 1;
        }
        w
    }

    /// Right shift by fewer than 256 bit positions.
    pub fn shr_small(self, n: usize) -> (r: Word)
        requires
            n < 256,
        ensures
            r@ == self@ / pow2(n as nat),
    {
        let mut w = self;
        let mut i: usize = 0;
        proof {
            lemma2_to64();
            assert(self@ / pow2(0) == self@);
        }
        while i < n
            invariant
                i <= n,
                w@ == self@ / pow2(i as nat),
            decreases n - i,
        {
            let ghost i0 = i as nat;
            let (w2, _) = w.half();
            proof {
                lemma_pow2_adds(i0, 1);
                lemma2_to64();
                vstd::arithmetic::power2::lemma_pow2_pos(i0);
                lemma_div_div(self@, pow2(i0), 2);
            }
            w = w2;
            i = i + 1;
        }
        w
    }

    /// The power of two with the given exponent, below 256.
    pub fn pow2_word(n: usize) -> (r: Word)
        requires
            n < 256,
        ensures
            r@ == pow2(n as nat),
    {
        let r = Word::one().shl_small(n);
        proof {
            lemma_powers();
            vstd::arithmetic::mul::lemma_mul_basics(pow2(n as nat) as int);
            lemma_pow2_strictly_increases(n as nat, 256);
            lemma_small_mod(pow2(n as nat), p256());
        }
        r
    }

    /// Whether the shift amount held in this word reaches 256.
    pub fn shift_saturates(&self) -> (r: bool)
        ensures
            r == (self@ >= 256),
    {
        self.limb1 != 0 || self.limb2 != 0 || self.limb3 != 0 || self.limb0 >= 256
    }

    /// The least significant byte, `self % 256`.
    pub fn low_byte(&self) -> (r: u8)
        ensures
            r == self@ % 256,
    {
        let r = (self.limb0 % 256) as u8;
        proof {
            let k = self.limb1 * 0x100_0000_0000_0000nat + self.limb2
                * 0x100_0000_0000_0000_0000_0000_0000_0000nat + self.limb3
                * 0x100_0000_0000_0000_0000_0000_0000_0000_0000_0000_0000_0000nat + self.limb0
                as nat / 256;
            assert(self@ == 256 * k + r);
            lemma_fundamental_div_mod_converse(self@ as int, 256, k as int, r as int);
        }
        r
    }

    /// The least significant bit, as the parity of the value.
    pub fn is_odd(&self) -> (r: bool)
        ensures
            r == (self@ % 2 == 1),
    {
        let r = self.limb0 % 2 == 1;
        proof {
            let b: nat = (self.limb0 % 2) as nat;
            let k = self.limb1 * 0x8000_0000_0000_0000nat + self.limb2
                * 0x8000_0000_0000_0000_0000_0000_0000_0000nat + self.limb3
                * 0x8000_0000_0000_0000_0000_0000_0000_0000_0000_0000_0000_0000nat + self.limb0
                as nat / 2;
            assert(self@ == 2 * k + b);
            lemma_fundamental_div_mod_converse(self@ as int, 2, k as int, b as int);
        }
        r
    }
}

} // verus!
