//! The 256-bit unsigned machine word.
//!
//! A `Word` is four 64-bit limbs, least significant first.  Its mathematical
//! value is given by the view `w@`, a natural number below 2^256.  All
//! arithmetic on words wraps modulo 2^256 unless a contract says otherwise.

use vstd::prelude::*;
use vstd::arithmetic::power2::{pow2, lemma_pow2_adds, lemma2_to64, lemma2_to64_rest};
use vstd::arithmetic::div_mod::{
    lemma_fundamental_div_mod, lemma_mod_multiples_vanish, lemma_small_mod,
};

verus! {

/// Addition wrapping modulo 2^256.
pub open spec fn add_wrap(a: nat, b: nat) -> nat {
    (a + b) % p256()
}

/// Subtraction wrapping modulo 2^256.
pub open spec fn sub_wrap(a: nat, b: nat) -> nat {
    if a >= b {
        (a - b) as nat
    } else {
        (a + p256() - b) as nat
    }
}

/// 2^64 as a natural number.
#[verifier::inline]
pub open spec fn p64() -> nat {
    0x1_0000_0000_0000_0000nat
}

/// 2^128 as a natural number.
#[verifier::inline]
pub open spec fn p128() -> nat {
    0x1_0000_0000_0000_0000_0000_0000_0000_0000nat
}

/// 2^192 as a natural number.
#[verifier::inline]
pub open spec fn p192() -> nat {
    0x1_0000_0000_0000_0000_0000_0000_0000_0000_0000_0000_0000_0000nat
}

/// 2^256, the word modulus: every word value is below it.
#[verifier::inline]
pub open spec fn p256() -> nat {
    0x1_0000_0000_0000_0000_0000_0000_0000_0000_0000_0000_0000_0000_0000_0000_0000_0000nat
}

/// 2^255, the weight of the sign bit in the two's-complement reading.
#[verifier::inline]
pub open spec fn p255() -> nat {
    0x8000_0000_0000_0000_0000_0000_0000_0000_0000_0000_0000_0000_0000_0000_0000_0000nat
}

/// A 256-bit unsigned integer, stored as four 64-bit limbs, least
/// significant limb first.
#[derive(Clone, Copy, PartialEq, Eq, Structural, Debug)]
pub struct Word {
    pub limb0: u64,
    pub limb1: u64,
    pub limb2: u64,
    pub limb3: u64,
}

impl View for Word {
    type V = nat;

    open spec fn view(&self) -> nat {
        (self.limb0 + self.limb1 * 0x1_0000_0000_0000_0000nat + self.limb2
            * 0x1_0000_0000_0000_0000_0000_0000_0000_0000nat + self.limb3
            * 0x1_0000_0000_0000_0000_0000_0000_0000_0000_0000_0000_0000_0000nat) as nat
    }
}

/// Every word value lies below the modulus: the data model's basic bound.
pub broadcast proof fn lemma_word_view_bound(w: Word)
    ensures
        #[trigger] w@ < p256(),
{
}

/// The spec-level powers of two used by the word layout agree with `pow2`.
pub proof fn lemma_powers()
    ensures
        p64() == pow2(64),
        p128() == pow2(128),
        p192() == pow2(192),
        p255() == pow2(255),
        p256() == pow2(256),
{
    lemma2_to64();
    lemma2_to64_rest();
    lemma_pow2_adds(64, 64);
    lemma_pow2_adds(128, 64);
    lemma_pow2_adds(192, 64);
    lemma_pow2_adds(192, 63);
    assert(pow2(255) == p255()) by (nonlinear_arith)
        requires
            pow2(255) == pow2(192) * pow2(63),
            pow2(192) == p192(),
            pow2(63) == 0x8000_0000_0000_0000nat,
    ;
}

impl Word {
    /// The word of value 0.
    pub fn zero() -> (r: Word)
        ensures
            r@ == 0,
    {
        Word { limb0: 0, limb1: 0, limb2: 0, limb3: 0 }
    }

    /// The word of value 1.
    pub fn one() -> (r: Word)
        ensures
            r@ == 1,
    {
        Word { limb0: 1, limb1: 0, limb2: 0, limb3: 0 }
    }

    /// The all-ones word, 2^256 - 1.
    pub fn max() -> (r: Word)
        ensures
            r@ == p256() - 1,
    {
        Word {
            limb0: 0xffff_ffff_ffff_ffff,
            limb1: 0xffff_ffff_ffff_ffff,
            limb2: 0xffff_ffff_ffff_ffff,
            limb3: 0xffff_ffff_ffff_ffff,
        }
    }

    /// A word from a 64-bit value.
    pub fn from_u64(x: u64) -> (r: Word)
        ensures
            r@ == x,
    {
        Word { limb0: x, limb1: 0, limb2: 0, limb3: 0 }
    }

    /// A word from its four limbs, least significant first.
    pub fn from_limbs(limb0: u64, limb1: u64, limb2: u64, limb3: u64) -> (r: Word)
        ensures
            r@ == limb0 + limb1 * p64() + limb2 * p128() + limb3 * p192(),
    {
        Word { limb0, limb1, limb2, limb3 }
    }

    /// Whether the value is zero.
    pub fn is_zero(&self) -> (r: bool)
        ensures
            r == (self@ == 0),
    {
        self.limb0 == 0 && self.limb1 == 0 && self.limb2 == 0 && self.limb3 == 0
    }

    /// Limb-wise addition with the carry out: the exact sum is
    /// `r.0@ + p256()` when `r.1` is set, else `r.0@`.
    pub fn add_with_carry(self, other: Word) -> (r: (Word, bool))
        ensures
            r.0@ + (if r.1 {
                p256()
            } else {
                0nat
            }) == self@ + other@,
            r.1 == (self@ + other@ >= p256()),
    {
        let s0: u128 = self.limb0 as u128 + other.limb0 as u128;
        let z0: u64 = (s0 % 0x1_0000_0000_0000_0000u128) as u64;
        let c0: u128 = s0 / 0x1_0000_0000_0000_0000u128;
        let s1: u128 = self.limb1 as u128 + other.limb1 as u128 + c0;
        let z1: u64 = (s1 % 0x1_0000_0000_0000_0000u128) as u64;
        let c1: u128 = s1 / 0x1_0000_0000_0000_0000u128;
        let s2: u128 = self.limb2 as u128 + other.limb2 as u128 + c1;
        let z2: u64 = (s2 % 0x1_0000_0000_0000_0000u128) as u64;
        let c2: u128 = s2 / 0x1_0000_0000_0000_0000u128;
        let s3: u128 = self.limb3 as u128 + other.limb3 as u128 + c2;
        let z3: u64 = (s3 % 0x1_0000_0000_0000_0000u128) as u64;
        let c3: u128 = s3 / 0x1_0000_0000_0000_0000u128;
        proof {
            lemma_fundamental_div_mod(s0 as int, 0x1_0000_0000_0000_0000);
            lemma_fundamental_div_mod(s1 as int, 0x1_0000_0000_0000_0000);
            lemma_fundamental_div_mod(s2 as int, 0x1_0000_0000_0000_0000);
            lemma_fundamental_div_mod(s3 as int, 0x1_0000_0000_0000_0000);
        }
        (Word { limb0: z0, limb1: z1, limb2: z2, limb3: z3 }, c3 == 1)
    }

    /// Addition modulo 2^256.
    pub fn wrapping_add(self, other: Word) -> (r: Word)
        ensures
            r@ == add_wrap(self@, other@),
    {
        let (w, carry) = self.add_with_carry(other);
        proof {
            if carry {
                lemma_mod_multiples_vanish(1, w@ as int, p256() as int);
                lemma_small_mod(w@, p256());
            } else {
                lemma_small_mod((self@ + other@) as nat, p256());
            }
        }
        w
    }

    /// Limb-wise subtraction with the borrow out: the exact difference
    /// `self@ - other@` equals `r.0@ - p256()` when `r.1` is set, else `r.0@`.
    pub fn sub_with_borrow(self, other: Word) -> (r: (Word, bool))
        ensures
            r.0@ - (if r.1 {
                p256() as int
            } else {
                0
            }) == self@ - other@,
            r.1 == (self@ < other@),
    {
        let t0: u128 = 0x1_0000_0000_0000_0000u128 + self.limb0 as u128 - other.limb0 as u128;
        let z0: u64 = (t0 % 0x1_0000_0000_0000_0000u128) as u64;
        let b0: u128 = 1 - t0 / 0x1_0000_0000_0000_0000u128;
        let t1: u128 = 0x1_0000_0000_0000_0000u128 + self.limb1 as u128 - other.limb1 as u128
            - b0;
        let z1: u64 = (t1 % 0x1_0000_0000_0000_0000u128) as u64;
        let b1: u128 = 1 - t1 / 0x1_0000_0000_0000_0000u128;
        let t2: u128 = 0x1_0000_0000_0000_0000u128 + self.limb2 as u128 - other.limb2 as u128
            - b1;
        let z2: u64 = (t2 % 0x1_0000_0000_0000_0000u128) as u64;
        let b2: u128 = 1 - t2 / 0x1_0000_0000_0000_0000u128;
        let t3: u128 = 0x1_0000_0000_0000_0000u128 + self.limb3 as u128 - other.limb3 as u128
            - b2;
        let z3: u64 = (t3 % 0x1_0000_0000_0000_0000u128) as u64;
        let b3: u128 = 1 - t3 / 0x1_0000_0000_0000_0000u128;
        proof {
            lemma_fundamental_div_mod(t0 as int, 0x1_0000_0000_0000_0000);
            lemma_fundamental_div_mod(t1 as int, 0x1_0000_0000_0000_0000);
            lemma_fundamental_div_mod(t2 as int, 0x1_0000_0000_0000_0000);
            lemma_fundamental_div_mod(t3 as int, 0x1_0000_0000_0000_0000);
        }
        (Word { limb0: z0, limb1: z1, limb2: z2, limb3: z3 }, b3 == 1)
    }

    /// Subtraction modulo 2^256.
    pub fn wrapping_sub(self, other: Word) -> (r: Word)
        ensures
            r@ == sub_wrap(self@, other@),
    {
        let (w, _) = self.sub_with_borrow(other);
        w
    }

    /// Two's-complement negation, `(2^256 - self) % 2^256`.
    pub fn wrapping_neg(self) -> (r: Word)
        ensures
            r@ == sub_wrap(0, self@),
            self@ != 0 ==> r@ == p256() - self@,
            self@ == 0 ==> r@ == 0,
    {
        Word::zero().wrapping_sub(self)
    }

    /// Unsigned comparison: `self < other`.
    pub fn lt_unsigned(&self, other: &Word) -> (r: bool)
        ensures
            r == (self@ < other@),
    {
        if self.limb3 != other.limb3 {
            self.limb3 < other.limb3
        } else if self.limb2 != other.limb2 {
            self.limb2 < other.limb2
        } else if self.limb1 != other.limb1 {
            self.limb1 < other.limb1
        } else {
            self.limb0 < other.limb0
        }
    }
}

/// Words with equal values are equal limb for limb.
pub proof fn lemma_view_injective(a: Word, b: Word)
    ensures
        a@ == b@ ==> a == b,
{
}

/// Adding a word and then subtracting it again returns the first operand:
/// wraparound addition and subtraction are mutually inverse.
pub proof fn lemma_add_then_sub(x: Word, y: Word)
    ensures
        sub_wrap(add_wrap(x@, y@), y@) == x@,
{
    if x@ + y@ < p256() {
        lemma_small_mod((x@ + y@) as nat, p256());
    } else {
        lemma_mod_multiples_vanish(1, (x@ + y@ - p256()) as int, p256() as int);
        lemma_small_mod((x@ + y@ - p256()) as nat, p256());
    }
}

} // verus!
