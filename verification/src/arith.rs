//! Word multiplication, division, modulo, exponentiation and the
//! wide-intermediate `addmod` / `mulmod` operations.
//!
//! All loops work one bit at a time: multiplication scans the multiplier from
//! the least significant bit upward, division feeds the dividend into the
//! remainder from the most significant bit downward.  Nothing here calls out;
//! every result is proved against its mathematical definition.

use vstd::prelude::*;
use vstd::arithmetic::power2::{pow2, lemma_pow2_adds, lemma2_to64, lemma_pow2_strictly_increases};
use vstd::arithmetic::div_mod::{
    lemma_fundamental_div_mod, lemma_fundamental_div_mod_converse, lemma_small_mod,
    lemma_mod_multiples_vanish, lemma_add_mod_noop, lemma_mul_mod_noop_general, lemma_breakdown,
};
use vstd::arithmetic::mul::lemma_mul_is_distributive_add;
use vstd::arithmetic::power::{pow, lemma_pow0, lemma_pow1, lemma_pow_adds};
use crate::word::{Word, p256, lemma_powers};

verus! {

impl Word {
    /// Halving: the value divided by two, and the bit shifted out.
    pub fn half(self) -> (r: (Word, bool))
        ensures
            r.0@ == self@ / 2,
            r.1 == (self@ % 2 == 1),
    {
        let z0: u64 = self.limb0 / 2 + (self.limb1 % 2) * 0x8000_0000_0000_0000;
        let z1: u64 = self.limb1 / 2 + (self.limb2 % 2) * 0x8000_0000_0000_0000;
        let z2: u64 = self.limb2 / 2 + (self.limb3 % 2) * 0x8000_0000_0000_0000;
        let z3: u64 = self.limb3 / 2;
        let bit = self.limb0 % 2 == 1;
        let r = Word { limb0: z0, limb1: z1, limb2: z2, limb3: z3 };
        proof {
            assert(self@ == 2 * r@ + (if bit {
                1nat
            } else {
                0nat
            }));
            lemma_fundamental_div_mod_converse(
                self@ as int,
                2,
                r@ as int,
                if bit {
                    1
                } else {
                    0
                },
            );
        }
        (r, bit)
    }

    /// Multiplication modulo 2^256.
    pub fn wrapping_mul(self, other: Word) -> (r: Word)
        ensures
            r@ == (self@ * other@) % p256(),
    {
        let x = self;
        let mut acc = Word::zero();
        let mut shifted = x;
        let mut rest = other;
        let mut k: usize = 0;
        proof {
            lemma_powers();
            lemma2_to64();
            vstd::arithmetic::mul::lemma_mul_basics(x@ as int);
            assert(other@ % pow2(0) == 0);
            assert(other@ / pow2(0) == other@);
            lemma_small_mod(x@, p256());
            lemma_small_mod(0, p256());
        }
        while k < 256
            invariant
                k <= 256,
                acc@ == (x@ * (other@ % pow2(k as nat))) % p256(),
                shifted@ == (x@ * pow2(k as nat)) % p256(),
                rest@ == other@ / pow2(k as nat),
            decreases 256 - k,
        {
            let ghost k0 = k as nat;
            let ghost low = other@ % pow2(k0);
            let (rest2, bit) = rest.half();
            proof {
                // other % 2^(k+1) splits into the low bits and the next bit.
                lemma_pow2_adds(k0, 1);
                lemma2_to64();
                vstd::arithmetic::power2::lemma_pow2_pos(k0);
                lemma_breakdown(other@ as int, pow2(k0) as int, 2);
                assert(other@ % pow2(k0 + 1) == low + pow2(k0) * ((other@ / pow2(k0)) % 2));
                // Halving the remaining bits moves to the next exponent.
                assert(rest2@ == other@ / pow2(k0 + 1)) by {
                    lemma_div_div(other@, pow2(k0), 2);
                }
            }
            if bit {
                let acc2 = acc.wrapping_add(shifted);
                proof {
                    lemma_add_mod_noop(
                        (x@ * low) as int,
                        (x@ * pow2(k0)) as int,
                        p256() as int,
                    );
                    lemma_mul_is_distributive_add(x@ as int, low as int, pow2(k0) as int);
                    lemma_small_mod(
                        ((x@ * low) % p256() + (x@ * pow2(k0)) % p256()) % p256(),
                        p256(),
                    );
                    assert(acc2@ == (x@ * (low + pow2(k0))) % p256());
                }
                acc = acc2;
            } else {
                proof {
                    assert(other@ % pow2(k0 + 1) == low);
                }
            }
            let shifted2 = shifted.wrapping_add(shifted);
            proof {
                lemma_add_mod_noop(
                    (x@ * pow2(k0)) as int,
                    (x@ * pow2(k0)) as int,
                    p256() as int,
                );
                lemma_small_mod(
                    ((x@ * pow2(k0)) % p256() + (x@ * pow2(k0)) % p256()) % p256(),
                    p256(),
                );
                assert(x@ * pow2(k0) + x@ * pow2(k0) == x@ * (pow2(k0) + pow2(k0))) by {
                    lemma_mul_is_distributive_add(x@ as int, pow2(k0) as int, pow2(k0) as int);
                }
                lemma_pow2_adds(k0, 1);
                lemma2_to64();
                assert(shifted2@ == (x@ * pow2(k0 + 1)) % p256());
            }
            shifted = shifted2;
            rest = rest2;
            k = k + 1;
        }
        proof {
            lemma_powers();
            lemma_small_mod(other@, pow2(256));
        }
        acc
    }
}

impl Word {
    /// Long division: quotient and remainder of `self` by a nonzero divisor.
    ///
    /// The dividend enters the remainder one bit at a time, most significant
    /// first; after each shift the divisor is subtracted once if it fits.
    pub fn udiv_rem(self, divisor: Word) -> (r: (Word, Word))
        requires
            divisor@ != 0,
        ensures
            r.0@ == self@ / divisor@,
            r.1@ == self@ % divisor@,
    {
        let x = self;
        let d = divisor;
        let one = Word::one();
        let mut quot = Word::zero();
        let mut rem = Word::zero();
        let mut shifted = x;
        let mut k: usize = 0;
        proof {
            lemma_powers();
            lemma2_to64();
            vstd::arithmetic::mul::lemma_mul_basics(x@ as int);
            lemma_small_mod(x@, pow2(256));
            vstd::arithmetic::div_mod::lemma_basic_div(x@ as int, pow2(256) as int);
            lemma_small_mod(0, d@);
            assert(0int / d@ as int == 0) by {
                vstd::arithmetic::div_mod::lemma_div_basics(d@ as int);
            }
        }
        while k < 256
            invariant
                k <= 256,
                d@ != 0,
                shifted@ == (x@ % pow2((256 - k) as nat)) * pow2(k as nat),
                quot@ == (x@ / pow2((256 - k) as nat)) / d@,
                rem@ == (x@ / pow2((256 - k) as nat)) % d@,
                rem@ < d@,
                quot@ < pow2(k as nat),
                one@ == 1,
                d == divisor,
                x == self,
            decreases 256 - k,
        {
            let ghost n = (256 - k) as nat;
            let ghost prefix = x@ / pow2(n);
            let ghost low = x@ % pow2(n);
            let ghost bit: nat = low / pow2((n - 1) as nat);
            let ghost low2 = low % pow2((n - 1) as nat);
            proof {
                lemma_powers();
                lemma_pow2_adds((n - 1) as nat, 1);
                lemma_pow2_adds((n - 1) as nat, (k + 1) as nat);
                lemma_pow2_adds(k as nat, 1);
                lemma2_to64();
                vstd::arithmetic::power2::lemma_pow2_pos((n - 1) as nat);
                vstd::arithmetic::power2::lemma_pow2_pos(n);
                vstd::arithmetic::power2::lemma_pow2_pos(k as nat);
                // The next dividend bit is 0 or 1.
                lemma_fundamental_div_mod(low as int, pow2((n - 1) as nat) as int);
                assert(low < pow2(n));
                assert(pow2(n) == 2 * pow2((n - 1) as nat));
                assert(bit == 0 || bit == 1) by (nonlinear_arith)
                    requires
                        low < 2 * pow2((n - 1) as nat),
                        pow2((n - 1) as nat) > 0,
                        bit == low / pow2((n - 1) as nat),
                ;
                // x % pow2(n - 1) is the tail of x % pow2(n).
                vstd::arithmetic::div_mod::lemma_mod_mod(
                    x@ as int,
                    pow2((n - 1) as nat) as int,
                    2,
                );
                assert(low2 == x@ % pow2((n - 1) as nat));
                // The new prefix gains the bit that leaves the low part.
                assert(x@ == prefix * pow2(n) + low) by {
                    lemma_fundamental_div_mod(x@ as int, pow2(n) as int);
                }
                assert(x@ == (2 * prefix + bit) * pow2((n - 1) as nat) + low2)
                    by (nonlinear_arith)
                    requires
                        x@ == prefix * pow2(n) + low,
                        pow2(n) == 2 * pow2((n - 1) as nat),
                        low == bit * pow2((n - 1) as nat) + low2,
                ;
                lemma_fundamental_div_mod_converse(
                    x@ as int,
                    pow2((n - 1) as nat) as int,
                    (2 * prefix + bit) as int,
                    low2 as int,
                );
                assert(x@ / pow2((n - 1) as nat) == 2 * prefix + bit);
            }
            // Shift the next bit out of the stored low part.
            let (sh2, b) = shifted.add_with_carry(shifted);
            proof {
                assert(2 * shifted@ == bit * pow2(256) + low2 * pow2((k + 1) as nat))
                    by (nonlinear_arith)
                    requires
                        shifted@ == low * pow2(k as nat),
                        low == bit * pow2((n - 1) as nat) + low2,
                        pow2((n - 1) as nat) * pow2((k + 1) as nat) == pow2(256),
                        pow2((k + 1) as nat) == 2 * pow2(k as nat),
                ;
                assert(low2 * pow2((k + 1) as nat) < pow2(256)) by (nonlinear_arith)
                    requires
                        low2 < pow2((n - 1) as nat),
                        pow2((n - 1) as nat) * pow2((k + 1) as nat) == pow2(256),
                        pow2((k + 1) as nat) > 0,
                ;
                assert(if b {
                    bit == 1
                } else {
                    bit == 0
                });
                assert(sh2@ == low2 * pow2((k + 1) as nat));
            }
            // Feed the bit into the remainder.
            let (t1, c1) = rem.add_with_carry(rem);
            let (t2, c2) = if b {
                t1.add_with_carry(one)
            } else {
                (t1, false)
            };
            let ghost tv: nat = (2 * rem@ + bit) as nat;
            let cc = c1 || c2;
            proof {
                assert(!(c1 && c2));
                assert(tv == t2@ + (if cc {
                    p256()
                } else {
                    0nat
                }));
                assert(tv < 2 * d@);
            }
            let fits = cc || !t2.lt_unsigned(&d);
            let rem2 = if fits {
                t2.wrapping_sub(d)
            } else {
                t2
            };
            proof {
                assert(fits == (tv >= d@));
                if fits {
                    assert(rem2@ == tv - d@);
                } else {
                    assert(rem2@ == tv);
                }
            }
            // Extend the quotient by the new bit.
            let (q1, qc1) = quot.add_with_carry(quot);
            proof {
                assert(2 * quot@ < 2 * pow2(k as nat));
                if k + 1 < 256 {
                    lemma_pow2_strictly_increases((k + 1) as nat, 256);
                }
                assert(2 * pow2(k as nat) == pow2((k + 1) as nat));
                assert(!qc1);
            }
            let quot2 = if fits {
                q1.wrapping_add(one)
            } else {
                q1
            };
            proof {
                let qbit: nat = if fits {
                    1
                } else {
                    0
                };
                assert(quot2@ == 2 * quot@ + qbit) by {
                    lemma_small_mod(2 * quot@ + qbit, p256());
                }
                // New prefix = divisor * new quotient + new remainder.
                let prefix2 = (2 * prefix + bit) as int;
                assert(prefix == d@ * quot@ + rem@) by {
                    lemma_fundamental_div_mod(prefix as int, d@ as int);
                }
                assert(prefix2 == (2 * quot@ + qbit) * d@ + rem2@) by (nonlinear_arith)
                    requires
                        prefix == d@ * quot@ + rem@,
                        prefix2 == 2 * prefix + bit,
                        tv == 2 * rem@ + bit,
                        qbit == (if fits {
                            1int
                        } else {
                            0int
                        }),
                        rem2@ == tv - qbit * d@,
                ;
                lemma_fundamental_div_mod_converse(
                    prefix2,
                    d@ as int,
                    (2 * quot@ + qbit) as int,
                    rem2@ as int,
                );
                // New quotient stays below the processed-bit budget.
                assert((2 * quot@ + qbit) < pow2((k + 1) as nat));
            }
            shifted = sh2;
            rem = rem2;
            quot = quot2;
            k = k + 1;
        }
        proof {
            lemma2_to64();
            assert(x@ / pow2(0) == x@);
        }
        (quot, rem)
    }
}

impl Word {
    /// Division with the machine's convention: a zero divisor gives zero.
    pub fn wrapping_div(self, other: Word) -> (r: Word)
        ensures
            other@ == 0 ==> r@ == 0,
            other@ != 0 ==> r@ == self@ / other@,
    {
        if other.is_zero() {
            Word::zero()
        } else {
            self.udiv_rem(other).0
        }
    }

    /// Remainder with the machine's convention: a zero divisor gives zero.
    pub fn wrapping_rem(self, other: Word) -> (r: Word)
        ensures
            other@ == 0 ==> r@ == 0,
            other@ != 0 ==> r@ == self@ % other@,
    {
        if other.is_zero() {
            Word::zero()
        } else {
            self.udiv_rem(other).1
        }
    }

    /// Modular exponentiation: `self` raised to `other`, reduced modulo 2^256.
    pub fn wrapping_pow(self, other: Word) -> (r: Word)
        ensures
            r@ == pow(self@ as int, other@) % (p256() as int),
    {
        let x = self;
        let mut acc = Word::one();
        let mut base = x;
        let mut rest = other;
        let mut k: usize = 0;
        proof {
            lemma_powers();
            lemma2_to64();
            lemma_pow0(x@ as int);
            lemma_pow1(x@ as int);
            assert(other@ % pow2(0) == 0);
            assert(other@ / pow2(0) == other@);
            lemma_small_mod(1, p256());
            lemma_small_mod(x@, p256());
        }
        while k < 256
            invariant
                k <= 256,
                acc@ == pow(x@ as int, (other@ % pow2(k as nat)) as nat) % (p256() as int),
                base@ == pow(x@ as int, pow2(k as nat)) % (p256() as int),
                rest@ == other@ / pow2(k as nat),
                x == self,
            decreases 256 - k,
        {
            let ghost k0 = k as nat;
            let ghost low = (other@ % pow2(k0)) as nat;
            let (rest2, bit) = rest.half();
            proof {
                lemma_pow2_adds(k0, 1);
                lemma2_to64();
                vstd::arithmetic::power2::lemma_pow2_pos(k0);
                lemma_breakdown(other@ as int, pow2(k0) as int, 2);
                assert(rest2@ == other@ / pow2(k0 + 1)) by {
                    lemma_div_div(other@, pow2(k0), 2);
                }
            }
            if bit {
                let acc2 = acc.wrapping_mul(base);
                proof {
                    lemma_mul_mod_noop_general(
                        pow(x@ as int, low),
                        pow(x@ as int, pow2(k0)),
                        p256() as int,
                    );
                    lemma_pow_adds(x@ as int, low, pow2(k0));
                    assert(other@ % pow2(k0 + 1) == low + pow2(k0));
                    assert(acc2@ == pow(x@ as int, (other@ % pow2(k0 + 1)) as nat) % (
                    p256() as int));
                }
                acc = acc2;
            } else {
                proof {
                    assert(other@ % pow2(k0 + 1) == low);
                }
            }
            let base2 = base.wrapping_mul(base);
            proof {
                lemma_mul_mod_noop_general(
                    pow(x@ as int, pow2(k0)),
                    pow(x@ as int, pow2(k0)),
                    p256() as int,
                );
                lemma_pow_adds(x@ as int, pow2(k0), pow2(k0));
                lemma_pow2_adds(k0, 1);
                lemma2_to64();
                assert(base2@ == pow(x@ as int, pow2(k0 + 1)) % (p256() as int));
            }
            base = base2;
            rest = rest2;
            k = k + 1;
        }
        proof {
            lemma_powers();
            lemma_small_mod(other@, pow2(256));
        }
        acc
    }

    /// `(self + other) % m` for summands already reduced below `m`.
    fn add_mod_bounded(self, other: Word, m: Word) -> (r: Word)
        requires
            m@ != 0,
            self@ < m@,
            other@ < m@,
        ensures
            r@ == (self@ + other@) % m@,
    {
        let (s, c) = self.add_with_carry(other);
        let r = if c || !s.lt_unsigned(&m) {
            s.wrapping_sub(m)
        } else {
            s
        };
        proof {
            if self@ + other@ >= m@ {
                assert(r@ == self@ + other@ - m@);
                lemma_mod_multiples_vanish(-1, (self@ + other@) as int, m@ as int);
                lemma_small_mod((self@ + other@ - m@) as nat, m@);
            } else {
                lemma_small_mod((self@ + other@) as nat, m@);
            }
        }
        r
    }

    /// `(self + other) % m` over the unbounded sum; zero when `m` is zero.
    pub fn add_mod_word(self, other: Word, m: Word) -> (r: Word)
        ensures
            m@ == 0 ==> r@ == 0,
            m@ != 0 ==> r@ == (self@ + other@) % m@,
    {
        if m.is_zero() {
            return Word::zero();
        }
        let (s, c) = self.add_with_carry(other);
        let a = s.udiv_rem(m).1;
        if !c {
            proof {
                lemma_small_mod(s@, p256());
            }
            return a;
        }
        // The sum overflowed: fold 2^256 % m in as well.
        let pm = Word::p256_mod(m);
        let r = a.add_mod_bounded(pm, m);
        proof {
            lemma_add_mod_noop(s@ as int, p256() as int, m@ as int);
            lemma_small_mod(((s@ % m@) + (p256() % m@)) % m@, m@);
        }
        r
    }

    /// `2^256 % m` for a nonzero modulus.
    fn p256_mod(m: Word) -> (r: Word)
        requires
            m@ != 0,
        ensures
            r@ == p256() % m@,
    {
        let u = Word::max().udiv_rem(m).1;
        let up = u.wrapping_add(Word::one());
        proof {
            lemma_small_mod((u@ + 1) as nat, p256());
        }
        let r = if up.lt_unsigned(&m) {
            up
        } else {
            Word::zero()
        };
        proof {
            lemma_add_mod_noop((p256() - 1) as int, 1, m@ as int);
            if m@ == 1 {
                assert(r@ == p256() % m@);
            } else {
                lemma_small_mod(1, m@);
                if u@ + 1 == m@ {
                    assert((u@ + 1) % m@ == 0) by {
                        lemma_mod_multiples_vanish(1, 0, m@ as int);
                    }
                } else {
                    lemma_small_mod((u@ + 1) as nat, m@);
                }
            }
        }
        r
    }

    /// `(self * other) % m` over the unbounded product; zero when `m` is zero.
    pub fn mul_mod_word(self, other: Word, m: Word) -> (r: Word)
        ensures
            m@ == 0 ==> r@ == 0,
            m@ != 0 ==> r@ == (self@ * other@) % m@,
    {
        if m.is_zero() {
            return Word::zero();
        }
        let x = self;
        let mut acc = Word::zero();
        let mut cur = x.udiv_rem(m).1;
        let mut rest = other;
        let mut k: usize = 0;
        proof {
            lemma_powers();
            lemma2_to64();
            vstd::arithmetic::mul::lemma_mul_basics(x@ as int);
            assert(other@ % pow2(0) == 0);
            assert(other@ / pow2(0) == other@);
            lemma_small_mod(0, m@);
        }
        while k < 256
            invariant
                k <= 256,
                m@ != 0,
                acc@ == (x@ * (other@ % pow2(k as nat))) % m@,
                cur@ == (x@ * pow2(k as nat)) % m@,
                rest@ == other@ / pow2(k as nat),
                x == self,
            decreases 256 - k,
        {
            let ghost k0 = k as nat;
            let ghost low = other@ % pow2(k0);
            let (rest2, bit) = rest.half();
            proof {
                lemma_pow2_adds(k0, 1);
                lemma2_to64();
                vstd::arithmetic::power2::lemma_pow2_pos(k0);
                lemma_breakdown(other@ as int, pow2(k0) as int, 2);
                assert(rest2@ == other@ / pow2(k0 + 1)) by {
                    lemma_div_div(other@, pow2(k0), 2);
                }
            }
            if bit {
                let acc2 = acc.add_mod_bounded(cur, m);
                proof {
                    lemma_add_mod_noop((x@ * low) as int, (x@ * pow2(k0)) as int, m@ as int);
                    lemma_mul_is_distributive_add(x@ as int, low as int, pow2(k0) as int);
                    lemma_small_mod(((x@ * low) % m@ + (x@ * pow2(k0)) % m@) % m@, m@);
                    assert(acc2@ == (x@ * (low + pow2(k0))) % m@);
                }
                acc = acc2;
            } else {
                proof {
                    assert(other@ % pow2(k0 + 1) == low);
                }
            }
            let cur2 = cur.add_mod_bounded(cur, m);
            proof {
                lemma_add_mod_noop((x@ * pow2(k0)) as int, (x@ * pow2(k0)) as int, m@ as int);
                lemma_small_mod(((x@ * pow2(k0)) % m@ + (x@ * pow2(k0)) % m@) % m@, m@);
                assert(x@ * pow2(k0) + x@ * pow2(k0) == x@ * (pow2(k0) + pow2(k0))) by {
                    lemma_mul_is_distributive_add(x@ as int, pow2(k0) as int, pow2(k0) as int);
                }
                lemma_pow2_adds(k0, 1);
                lemma2_to64();
                assert(cur2@ == (x@ * pow2(k0 + 1)) % m@);
            }
            cur = cur2;
            rest = rest2;
            k = k + 1;
        }
        proof {
            lemma_powers();
            lemma_small_mod(other@, pow2(256));
        }
        acc
    }
}

/// Dividing twice by positive divisors is dividing by their product.
pub proof fn lemma_div_div(x: nat, a: nat, b: nat)
    requires
        a > 0,
        b > 0,
    ensures
        (x / a) / b == x / (a * b),
{
    vstd::arithmetic::div_mod::lemma_div_denominator(x as int, a as int, b as int);
}

} // verus!
