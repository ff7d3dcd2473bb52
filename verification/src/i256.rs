//! Two's-complement signed reading of words.
//!
//! A word whose top bit is set denotes the negative number `value - 2^256`.
//! Signed division and remainder convert to sign and magnitude, divide
//! unsigned, and reapply the sign; dividing the minimum negative value by
//! minus one wraps back to itself instead of faulting.

use vstd::prelude::*;
use core::cmp::Ordering;
use vstd::arithmetic::power2::{pow2, lemma_pow2_pos};
use vstd::arithmetic::div_mod::{
    lemma_fundamental_div_mod, lemma_fundamental_div_mod_converse, lemma_div_is_ordered,
    lemma_div_nonincreasing,
};
use crate::word::{Word, p255, p256, sub_wrap};

verus! {

/// The sign of a word under its two's-complement reading.
#[derive(Clone, Copy, Debug, PartialEq, Eq, Structural)]
pub enum Sign {
    Minus,
    Zero,
    Plus,
}

/// The signed integer a word value denotes.
pub open spec fn as_int(a: nat) -> int {
    if a >= p255() {
        a - p256()
    } else {
        a as int
    }
}

/// The magnitude of the signed reading: `|as_int(a)|` as a natural number.
pub open spec fn mag(a: nat) -> nat {
    if a >= p255() {
        (p256() - a) as nat
    } else {
        a
    }
}

/// Signed quotient, truncating toward zero; zero when the divisor is zero.
/// Dividing the minimum negative value by minus one wraps to itself.
pub open spec fn sdiv_spec(a: nat, b: nat) -> nat {
    if b == 0 {
        0
    } else {
        let q = mag(a) / mag(b);
        if (a >= p255()) != (b >= p255()) {
            sub_wrap(0, q)
        } else {
            q
        }
    }
}

/// Signed remainder, taking the dividend's sign; zero when the divisor is
/// zero.
pub open spec fn smod_spec(a: nat, b: nat) -> nat {
    if b == 0 {
        0
    } else {
        let r = mag(a) % mag(b);
        if a >= p255() {
            sub_wrap(0, r)
        } else {
            r
        }
    }
}

/// The minimum representable negative value: only the top bit set.
pub fn min_negative_value() -> (r: Word)
    ensures
        r@ == p255(),
{
    Word { limb0: 0, limb1: 0, limb2: 0, limb3: 0x8000_0000_0000_0000 }
}

/// Classify a word by its two's-complement sign.
pub fn i256_sign(val: &Word) -> (r: Sign)
    ensures
        (r == Sign::Minus) == (val@ >= p255()),
        (r == Sign::Zero) == (val@ == 0),
        (r == Sign::Plus) == (0 < val@ < p255()),
{
    if val.is_negative() {
        Sign::Minus
    } else if val.is_zero() {
        Sign::Zero
    } else {
        Sign::Plus
    }
}

/// Two's-complement negation.
pub fn two_compl(op: Word) -> (r: Word)
    ensures
        r@ == sub_wrap(0, op@),
{
    op.wrapping_neg()
}

/// Two's-complement negation in place.
pub fn two_compl_mut(op: &mut Word)
    ensures
        final(op)@ == sub_wrap(0, old(op)@),
{
    let v = *op;
    *op = v.wrapping_neg();
}

/// Classify a word and replace it by its magnitude.
pub fn i256_sign_compl(val: &mut Word) -> (r: Sign)
    ensures
        (r == Sign::Minus) == (old(val)@ >= p255()),
        (r == Sign::Zero) == (old(val)@ == 0),
        (r == Sign::Plus) == (0 < old(val)@ < p255()),
        final(val)@ == mag(old(val)@),
{
    let sign = i256_sign(val);
    if sign == Sign::Minus {
        two_compl_mut(val);
    }
    sign
}

/// Signed comparison of two words.
pub fn i256_cmp(first: &Word, second: &Word) -> (r: Ordering)
    ensures
        (r == Ordering::Less) == (as_int(first@) < as_int(second@)),
        (r == Ordering::Equal) == (as_int(first@) == as_int(second@)),
        (r == Ordering::Greater) == (as_int(first@) > as_int(second@)),
{
    let first_neg = first.is_negative();
    let second_neg = second.is_negative();
    if first_neg && !second_neg {
        Ordering::Less
    } else if !first_neg && second_neg {
        Ordering::Greater
    } else if first.lt_unsigned(second) {
        Ordering::Less
    } else if second.lt_unsigned(first) {
        Ordering::Greater
    } else {
        Ordering::Equal
    }
}

/// Signed division, truncating toward zero; a zero divisor gives zero.
pub fn i256_div(first: Word, second: Word) -> (r: Word)
    ensures
        r@ == sdiv_spec(first@, second@),
{
    let mut divisor = second;
    let second_sign = i256_sign_compl(&mut divisor);
    if second_sign == Sign::Zero {
        return Word::zero();
    }
    let mut dividend = first;
    let first_sign = i256_sign_compl(&mut dividend);
    let q = dividend.udiv_rem(divisor).0;
    if (first_sign == Sign::Minus) != (second_sign == Sign::Minus) {
        two_compl(q)
    } else {
        q
    }
}

/// Signed remainder, taking the dividend's sign; a zero divisor gives zero.
pub fn i256_mod(first: Word, second: Word) -> (r: Word)
    ensures
        r@ == smod_spec(first@, second@),
{
    let mut dividend = first;
    let first_sign = i256_sign_compl(&mut dividend);
    if first_sign == Sign::Zero {
        return Word::zero();
    }
    let mut divisor = second;
    let second_sign = i256_sign_compl(&mut divisor);
    if second_sign == Sign::Zero {
        return Word::zero();
    }
    let rem = dividend.udiv_rem(divisor).1;
    if first_sign == Sign::Minus {
        two_compl(rem)
    } else {
        rem
    }
}

/// The signed division algorithm: quotient times divisor plus remainder
/// gives back the dividend under the signed reading, the remainder is
/// smaller in magnitude than the divisor, and a nonzero remainder takes the
/// dividend's sign — quotients truncate toward zero.  The one excluded pair
/// is the minimum negative value over minus one, whose true quotient is not
/// representable and wraps to the dividend instead.
pub proof fn lemma_signed_div_mod_identity(a: nat, b: nat)
    requires
        a < p256(),
        b < p256(),
        b != 0,
        !(a == p255() && b == p256() - 1),
    ensures
        as_int(sdiv_spec(a, b)) * as_int(b) + as_int(smod_spec(a, b)) == as_int(a),
        mag(smod_spec(a, b)) < mag(b),
        as_int(smod_spec(a, b)) != 0 ==> (as_int(smod_spec(a, b)) < 0) == (as_int(a) < 0),
{
    let ma = mag(a);
    let mb = mag(b);
    let q = ma / mb;
    let rr = ma % mb;
    lemma_fundamental_div_mod(ma as int, mb as int);
    lemma_div_nonincreasing(ma as int, mb as int);
    // The quotient magnitude stays representable: only MIN / -1 would not.
    assert(q <= p255());
    if (a >= p255()) == (b >= p255()) {
        // Equal signs with a full-magnitude quotient would need the excluded
        // pair: the quotient stays strictly below the sign-bit weight.
        if q >= p255() {
            assert(q == p255() && ma == p255());
            if mb >= 2 {
                vstd::arithmetic::div_mod::lemma_div_is_strictly_smaller(
                    ma as int,
                    mb as int,
                );
            }
            assert(mb == 1);
            assert(a == p255() && b == p256() - 1);
        }
        assert(q < p255());
        assert(as_int(sdiv_spec(a, b)) * as_int(b) + as_int(smod_spec(a, b)) == as_int(a))
            by (nonlinear_arith)
            requires
                ma == q * mb + rr,
                as_int(sdiv_spec(a, b)) == if a >= p255() && b >= p255() {
                    q as int
                } else {
                    q as int
                },
                as_int(a) == if a >= p255() {
                    -(ma as int)
                } else {
                    ma as int
                },
                as_int(b) == if b >= p255() {
                    -(mb as int)
                } else {
                    mb as int
                },
                as_int(smod_spec(a, b)) == if a >= p255() {
                    -(rr as int)
                } else {
                    rr as int
                },
                (a >= p255()) == (b >= p255()),
        ;
    } else {
        assert(as_int(sdiv_spec(a, b)) * as_int(b) + as_int(smod_spec(a, b)) == as_int(a))
            by (nonlinear_arith)
            requires
                ma == q * mb + rr,
                as_int(sdiv_spec(a, b)) == -(q as int),
                as_int(a) == if a >= p255() {
                    -(ma as int)
                } else {
                    ma as int
                },
                as_int(b) == if b >= p255() {
                    -(mb as int)
                } else {
                    mb as int
                },
                as_int(smod_spec(a, b)) == if a >= p255() {
                    -(rr as int)
                } else {
                    rr as int
                },
                (a >= p255()) != (b >= p255()),
        ;
    }
}

/// The arithmetic right shift is floor division of the signed reading:
/// the word the shift produces denotes `as_int(w) / 2^n`, rounding toward
/// minus infinity.
pub proof fn lemma_sar_is_signed_floor_div(w: nat, n: nat)
    requires
        w < p256(),
        n < 256,
    ensures
        as_int(
            if w < p255() {
                w / pow2(n)
            } else {
                (p256() - 1 - ((p256() - 1 - w) as nat) / pow2(n)) as nat
            },
        ) == as_int(w) / (pow2(n) as int),
{
    lemma_pow2_pos(n);
    if w < p255() {
        lemma_div_is_ordered(w as int, p255() as int - 1, pow2(n) as int);
        lemma_div_nonincreasing(w as int, pow2(n) as int);
    } else {
        let a = (p256() - 1 - w) as nat;
        let q = a / pow2(n);
        let rr = a % pow2(n);
        lemma_fundamental_div_mod(a as int, pow2(n) as int);
        lemma_div_nonincreasing(a as int, pow2(n) as int);
        // -(a + 1) = (-q - 1) * 2^n + (2^n - rr - 1), with the remainder in
        // range, so the signed quotient is -q - 1.
        assert((-(a as int) - 1) == (-(q as int) - 1) * (pow2(n) as int) + (pow2(n) - rr - 1))
            by (nonlinear_arith)
            requires
                a == q * pow2(n) + rr,
        ;
        lemma_fundamental_div_mod_converse(
            -(a as int) - 1,
            pow2(n) as int,
            -(q as int) - 1,
            pow2(n) as int - rr - 1,
        );
    }
}

/// Dividing the minimum negative value by minus one yields the minimum
/// negative value again: the one signed quotient that overflows wraps
/// instead of faulting.
pub proof fn lemma_sdiv_min_by_minus_one()
    ensures
        sdiv_spec(p255(), (p256() - 1) as nat) == p255(),
{
    vstd::arithmetic::div_mod::lemma_div_basics(p255() as int);
}

} // verus!
