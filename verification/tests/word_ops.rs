use std::marker::PhantomData;

use evm_core::context::{Context, DummyContractInteractions};
use evm_core::i256::{i256_cmp, i256_sign, min_negative_value, two_compl, Sign};
use evm_core::memory::Memory;
use evm_core::ops;
use evm_core::word::Word;
use std::cmp::Ordering;

fn ctx() -> Context<DummyContractInteractions> {
    Context {
        contract_interactions: PhantomData,
        memory: Memory::new(),
        immutables: Vec::new(),
        address: Word::from_u64(0xabcd),
        caller: Word::from_u64(0x1234),
        callvalue: Word::zero(),
        gas: Word::from_u64(100_000),
        timestamp: Word::from_u64(1_700_000_000),
        calldata: Vec::new(),
        chain_id: Word::from_u64(1),
    }
}

fn w(x: u64) -> Word {
    Word::from_u64(x)
}

#[test]
fn add_wraps_and_sub_undoes_it() {
    let c = ctx();
    let x = Word::max();
    let y = w(5);
    let s = ops::add(x, y, &c).unwrap();
    assert_eq!(s, w(4));
    let back = ops::sub(s, y, &c).unwrap();
    assert_eq!(back, x);
    let zero_sum = ops::add(w(0), w(0), &c).unwrap();
    assert_eq!(ops::sub(zero_sum, w(0), &c).unwrap(), w(0));
}

#[test]
fn mul_wraps() {
    let c = ctx();
    assert_eq!(ops::mul(w(6), w(7), &c).unwrap(), w(42));
    // (2^256 - 1)^2 == 1 modulo 2^256.
    assert_eq!(ops::mul(Word::max(), Word::max(), &c).unwrap(), Word::one());
}

#[test]
fn div_and_mod_by_zero_give_zero() {
    let c = ctx();
    assert_eq!(ops::div(w(123), w(0), &c).unwrap(), w(0));
    assert_eq!(ops::mod_(w(123), w(0), &c).unwrap(), w(0));
    assert_eq!(ops::sdiv(w(123), w(0), &c).unwrap(), w(0));
    assert_eq!(ops::smod(w(123), w(0), &c).unwrap(), w(0));
    assert_eq!(ops::div(Word::max(), w(0), &c).unwrap(), w(0));
    assert_eq!(ops::smod(min_negative_value(), w(0), &c).unwrap(), w(0));
}

#[test]
fn div_and_mod_concrete() {
    let c = ctx();
    assert_eq!(ops::div(w(100), w(7), &c).unwrap(), w(14));
    assert_eq!(ops::mod_(w(100), w(7), &c).unwrap(), w(2));
    assert_eq!(ops::div(Word::max(), Word::max(), &c).unwrap(), w(1));
    assert_eq!(ops::div(w(3), w(5), &c).unwrap(), w(0));
    let big = Word::from_limbs(0, 0, 1, 0);
    assert_eq!(ops::div(big, Word::from_limbs(0, 1, 0, 0), &c).unwrap(), Word::from_limbs(0, 1, 0, 0));
}

#[test]
fn sdiv_min_negative_by_minus_one_wraps() {
    let c = ctx();
    let min = min_negative_value();
    let minus_one = Word::max();
    assert_eq!(ops::sdiv(min, minus_one, &c).unwrap(), min);
    assert_eq!(ops::smod(min, minus_one, &c).unwrap(), w(0));
}

#[test]
fn signed_division_signs() {
    let c = ctx();
    let minus_four = two_compl(w(4));
    let minus_two = two_compl(w(2));
    assert_eq!(ops::sdiv(minus_four, w(2), &c).unwrap(), minus_two);
    assert_eq!(ops::sdiv(w(4), minus_two, &c).unwrap(), two_compl(w(2)));
    assert_eq!(ops::sdiv(minus_four, minus_two, &c).unwrap(), w(2));
    // Truncation toward zero: -7 / 2 == -3.
    assert_eq!(ops::sdiv(two_compl(w(7)), w(2), &c).unwrap(), two_compl(w(3)));
    // Remainder takes the dividend's sign: -7 % 2 == -1, 7 % -2 == 1.
    assert_eq!(ops::smod(two_compl(w(7)), w(2), &c).unwrap(), two_compl(w(1)));
    assert_eq!(ops::smod(w(7), minus_two, &c).unwrap(), w(1));
}

#[test]
fn exp_concrete() {
    let c = ctx();
    assert_eq!(ops::exp(w(2), w(10), &c).unwrap(), w(1024));
    assert_eq!(ops::exp(w(3), w(5), &c).unwrap(), w(243));
    assert_eq!(ops::exp(w(0), w(0), &c).unwrap(), w(1));
    assert_eq!(ops::exp(w(0), w(9), &c).unwrap(), w(0));
    // 2^256 wraps to zero.
    assert_eq!(ops::exp(w(2), w(256), &c).unwrap(), w(0));
    assert_eq!(ops::exp(w(2), w(255), &c).unwrap(), min_negative_value());
}

#[test]
fn addmod_and_mulmod_use_wide_intermediates() {
    let c = ctx();
    // 2^256 % 7 == 2, so (max + 1) % 7 == 2.
    assert_eq!(ops::addmod(Word::max(), w(1), w(7), &c).unwrap(), w(2));
    // (2^256 - 1)^2 % 7 == 1.
    assert_eq!(ops::mulmod(Word::max(), Word::max(), w(7), &c).unwrap(), w(1));
    assert_eq!(ops::addmod(w(10), w(10), w(8), &c).unwrap(), w(4));
    assert_eq!(ops::mulmod(w(10), w(10), w(8), &c).unwrap(), w(4));
    assert_eq!(ops::addmod(w(10), w(10), w(0), &c).unwrap(), w(0));
    assert_eq!(ops::mulmod(w(10), w(10), w(0), &c).unwrap(), w(0));
}

#[test]
fn comparisons_yield_zero_or_one() {
    let c = ctx();
    assert_eq!(ops::lt(w(3), w(4), &c).unwrap(), w(1));
    assert_eq!(ops::lt(w(4), w(3), &c).unwrap(), w(0));
    assert_eq!(ops::gt(w(4), w(3), &c).unwrap(), w(1));
    assert_eq!(ops::gt(w(3), w(4), &c).unwrap(), w(0));
    assert_eq!(ops::eq(w(3), w(3), &c).unwrap(), w(1));
    assert_eq!(ops::eq(w(3), w(4), &c).unwrap(), w(0));
    assert_eq!(ops::iszero(w(0), &c).unwrap(), w(1));
    assert_eq!(ops::iszero(w(9), &c).unwrap(), w(0));
}

#[test]
fn signed_comparisons() {
    let c = ctx();
    let minus_one = Word::max();
    assert_eq!(ops::slt(minus_one, w(0), &c).unwrap(), w(1));
    assert_eq!(ops::sgt(w(0), minus_one, &c).unwrap(), w(1));
    assert_eq!(ops::slt(w(0), minus_one, &c).unwrap(), w(0));
    assert_eq!(ops::slt(min_negative_value(), minus_one, &c).unwrap(), w(1));
    assert_eq!(ops::sgt(w(5), w(5), &c).unwrap(), w(0));
    // Unsigned sees -1 as the largest word.
    assert_eq!(ops::lt(w(0), minus_one, &c).unwrap(), w(1));
}

#[test]
fn i256_sign_and_cmp() {
    assert_eq!(i256_sign(&Word::zero()), Sign::Zero);
    assert_eq!(i256_sign(&Word::from_u64(7)), Sign::Plus);
    assert_eq!(i256_sign(&Word::max()), Sign::Minus);
    assert_eq!(i256_sign(&min_negative_value()), Sign::Minus);
    assert_eq!(i256_cmp(&Word::max(), &Word::zero()), Ordering::Less);
    assert_eq!(i256_cmp(&Word::zero(), &Word::max()), Ordering::Greater);
    assert_eq!(i256_cmp(&Word::from_u64(3), &Word::from_u64(3)), Ordering::Equal);
}

#[test]
fn bitwise_operations() {
    let c = ctx();
    assert_eq!(ops::and(w(0b1100), w(0b1010), &c).unwrap(), w(0b1000));
    assert_eq!(ops::or(w(0b1100), w(0b1010), &c).unwrap(), w(0b1110));
    assert_eq!(ops::xor(w(0b1100), w(0b1010), &c).unwrap(), w(0b0110));
    assert_eq!(ops::not(w(0), &c).unwrap(), Word::max());
    assert_eq!(ops::not(Word::max(), &c).unwrap(), w(0));
}

#[test]
fn shifts_below_256() {
    let c = ctx();
    assert_eq!(ops::shl(w(4), w(1), &c).unwrap(), w(16));
    assert_eq!(ops::shr(w(4), w(16), &c).unwrap(), w(1));
    assert_eq!(ops::shl(w(255), w(1), &c).unwrap(), min_negative_value());
    assert_eq!(ops::shr(w(255), min_negative_value(), &c).unwrap(), w(1));
    // Arithmetic shift keeps the sign: -16 >> 2 == -4.
    let minus_16 = two_compl(w(16));
    assert_eq!(ops::sar(w(2), minus_16, &c).unwrap(), two_compl(w(4)));
    assert_eq!(ops::sar(w(2), w(16), &c).unwrap(), w(4));
    // Rounding toward minus infinity: -1 >> 1 == -1.
    assert_eq!(ops::sar(w(1), Word::max(), &c).unwrap(), Word::max());
}

#[test]
fn shifts_saturate_at_256() {
    let c = ctx();
    let val = w(0x1234);
    assert_eq!(ops::shl(w(256), val, &c).unwrap(), w(0));
    assert_eq!(ops::shr(w(256), val, &c).unwrap(), w(0));
    assert_eq!(ops::shl(Word::max(), val, &c).unwrap(), w(0));
    assert_eq!(ops::shr(Word::max(), val, &c).unwrap(), w(0));
    assert_eq!(ops::sar(w(256), val, &c).unwrap(), w(0));
    assert_eq!(ops::sar(w(256), Word::max(), &c).unwrap(), Word::max());
    assert_eq!(ops::sar(w(300), min_negative_value(), &c).unwrap(), Word::max());
}

#[test]
fn byte_extraction() {
    let c = ctx();
    let val = Word::from_limbs(0x1122, 0, 0, 0xaa00_0000_0000_0000);
    assert_eq!(ops::byte(w(32), val, &c).unwrap(), w(0));
    assert_eq!(ops::byte(w(1000), val, &c).unwrap(), w(0));
    assert_eq!(ops::byte(Word::max(), val, &c).unwrap(), w(0));
    // Byte 0 is the most significant byte.
    assert_eq!(ops::byte(w(0), val, &c).unwrap(), w(0xaa));
    assert_eq!(ops::byte(w(31), val, &c).unwrap(), w(0x22));
    assert_eq!(ops::byte(w(30), val, &c).unwrap(), w(0x11));
    assert_eq!(ops::byte(w(0), w(7), &c).unwrap(), w(0));
}

#[test]
fn signextend_behaviour() {
    let c = ctx();
    let val = w(0x1234);
    // b >= 31 leaves the word unchanged.
    assert_eq!(ops::signextend(w(31), val, &c).unwrap(), val);
    assert_eq!(ops::signextend(w(32), val, &c).unwrap(), val);
    assert_eq!(ops::signextend(Word::max(), val, &c).unwrap(), val);
    // 0xff at byte 0 extends to -1.
    assert_eq!(ops::signextend(w(0), w(0xff), &c).unwrap(), Word::max());
    assert_eq!(ops::signextend(w(0), w(0x7f), &c).unwrap(), w(0x7f));
    // The high bits above the chosen byte are discarded first.
    assert_eq!(ops::signextend(w(0), w(0x1234), &c).unwrap(), w(0x34));
    assert_eq!(ops::signextend(w(1), w(0x1234), &c).unwrap(), w(0x1234));
    assert_eq!(ops::signextend(w(1), w(0x8034), &c).unwrap(), ops::sub(Word::zero(), w(0x7fcc), &c).unwrap());
}

#[test]
fn shift_by_zero_is_identity() {
    let c = ctx();
    let val = Word::from_limbs(1, 2, 3, 4);
    assert_eq!(ops::shl(w(0), val, &c).unwrap(), val);
    assert_eq!(ops::shr(w(0), val, &c).unwrap(), val);
    assert_eq!(ops::sar(w(0), val, &c).unwrap(), val);
}

#[test]
fn sar_by_255_keeps_only_the_sign() {
    let c = ctx();
    assert_eq!(ops::sar(w(255), min_negative_value(), &c).unwrap(), Word::max());
    assert_eq!(ops::sar(w(255), w(5), &c).unwrap(), w(0));
}

#[test]
fn modulus_one_gives_zero() {
    let c = ctx();
    assert_eq!(ops::addmod(Word::max(), Word::max(), w(1), &c).unwrap(), w(0));
    assert_eq!(ops::mulmod(Word::max(), Word::max(), w(1), &c).unwrap(), w(0));
    // 2^255 * 2 == 2^256, and 2^256 % 3 == 1.
    assert_eq!(ops::mulmod(min_negative_value(), w(2), w(3), &c).unwrap(), w(1));
}

#[test]
fn pop_discards() {
    let c = ctx();
    assert!(ops::pop(w(5), &c).is_ok());
}
