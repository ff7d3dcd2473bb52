//! Big-endian byte encoding of words, and the zero-extended byte reads
//! shared by memory and calldata.
//!
//! `be_val` gives the value of a big-endian byte string; `read_bytes` reads a
//! window out of a byte sequence, with every position past its end reading as
//! zero, the way the machine's memory and calldata behave.

use vstd::prelude::*;
use vstd::string::StrSliceExecFns;
use vstd::arithmetic::power2::{pow2, lemma_pow2_adds, lemma2_to64, lemma_pow2_strictly_increases};
use vstd::arithmetic::div_mod::{lemma_fundamental_div_mod, lemma_fundamental_div_mod_converse,
    lemma_small_mod, lemma_basic_div};
use crate::word::{Word, p256, lemma_powers};
use crate::arith::lemma_div_div;

verus! {

/// The value of a big-endian byte string: the first byte is the most
/// significant.
pub open spec fn be_val(s: Seq<u8>) -> nat
    decreases s.len(),
{
    if s.len() == 0 {
        0
    } else {
        (be_val(s.drop_last()) * 256 + s.last()) as nat
    }
}

/// The byte at an index of a conceptually infinite, zero-filled sequence.
pub open spec fn byte_at(s: Seq<u8>, i: nat) -> u8 {
    if i < s.len() {
        s[i as int]
    } else {
        0
    }
}

/// A window of `n` bytes starting at `addr`, reading zero past the end.
pub open spec fn read_bytes(s: Seq<u8>, addr: nat, n: nat) -> Seq<u8> {
    Seq::new(n, |i: int| byte_at(s, (addr + i) as nat))
}

/// The word stored big-endian at `addr` of a byte sequence.
pub open spec fn word_at(s: Seq<u8>, addr: nat) -> nat {
    be_val(read_bytes(s, addr, 32))
}

/// A big-endian byte string of `n` bytes is bounded by `2^(8n)`.
pub proof fn lemma_be_val_bound(s: Seq<u8>)
    ensures
        be_val(s) < pow2(8 * s.len()),
    decreases s.len(),
{
    if s.len() == 0 {
        lemma2_to64();
    } else {
        lemma_be_val_bound(s.drop_last());
        lemma_pow2_adds(8 * (s.len() - 1) as nat, 8);
        lemma2_to64();
        assert(be_val(s.drop_last()) * 256 + 255 < pow2(8 * (s.len() - 1) as nat) * 256);
    }
}

/// The big-endian byte string whose bytes follow the division formula for a
/// value denotes that value: the byte-level encode and decode of a word are
/// mutually inverse.
proof fn lemma_be_val_of_formula(v: nat, n: nat)
    requires
        v < pow2(8 * n),
    ensures
        be_val(Seq::new(n, |j: int| (((v / pow2((8 * (n - 1 - j)) as nat)) % 256) as u8))) == v,
    decreases n,
{
    lemma2_to64();
    let s = Seq::new(n, |j: int| (((v / pow2((8 * (n - 1 - j)) as nat)) % 256) as u8));
    if n == 0 {
        assert(s =~= Seq::<u8>::empty());
    } else {
        let v2 = v / 256;
        lemma_pow2_adds((8 * (n - 1)) as nat, 8);
        // The tail of the formula string is the formula string of v / 256.
        assert forall|j: int| 0 <= j < n - 1 implies s.drop_last()[j] == (((v2 / pow2(
            (8 * (n - 2 - j)) as nat,
        )) % 256) as u8) by {
            vstd::arithmetic::power2::lemma_pow2_pos((8 * (n - 2 - j)) as nat);
            lemma_div_div(v, 256, pow2((8 * (n - 2 - j)) as nat));
            lemma_pow2_adds(8, (8 * (n - 2 - j)) as nat);
            assert((v / pow2((8 * (n - 1 - j)) as nat)) == v2 / pow2((8 * (n - 2 - j)) as nat));
        }
        assert(s.drop_last() =~= Seq::new(
            (n - 1) as nat,
            |j: int| (((v2 / pow2((8 * (n - 2 - j)) as nat)) % 256) as u8),
        ));
        // v / 256 fits in one byte fewer.
        assert(v2 < pow2(8 * (n - 1) as nat)) by {
            let k = pow2(8 * (n - 1) as nat);
            assert(v < k * 256);
            vstd::arithmetic::div_mod::lemma_div_is_ordered(v as int, (k * 256 - 1) as int, 256);
            assert((k * 256 - 1) / 256 == k - 1) by {
                lemma_fundamental_div_mod_converse(
                    (k * 256 - 1) as int,
                    256,
                    (k - 1) as int,
                    255,
                );
            }
        }
        lemma_be_val_of_formula(v2, (n - 1) as nat);
        assert(v / pow2(0) == v) by {
            vstd::arithmetic::div_mod::lemma_div_basics(pow2(0) as int);
        }
        assert(s.last() == ((v % 256) as u8));
        lemma_fundamental_div_mod(v as int, 256);
    }
}

/// Storing a word and loading it back yields the word: a byte sequence whose
/// 32-byte window at `addr` holds the big-endian encoding of `v` reads back
/// as `v` there.  This is the memory round trip behind `mstore` / `mload`,
/// and equally the ABI round trip behind the tuple encoder and decoder.
pub proof fn lemma_word_round_trip(s: Seq<u8>, addr: nat, v: nat)
    requires
        v < p256(),
        forall|j: int|
            0 <= j < 32 ==> #[trigger] byte_at(s, (addr + j) as nat) == (v / pow2(
                (8 * (31 - j)) as nat,
            )) % 256,
    ensures
        word_at(s, addr) == v,
{
    lemma_powers();
    lemma_be_val_of_formula(v, 32);
    assert(read_bytes(s, addr, 32) =~= Seq::new(
        32,
        |j: int| (((v / pow2((8 * (31 - j)) as nat)) % 256) as u8),
    ));
}

/// A 32-byte window of nothing but zero bytes reads as the zero word: an
/// address never written reads as zero.
pub proof fn lemma_zero_window_reads_zero(s: Seq<u8>, addr: nat)
    requires
        forall|j: int| 0 <= j < 32 ==> #[trigger] byte_at(s, (addr + j) as nat) == 0,
    ensures
        word_at(s, addr) == 0,
{
    lemma_powers();
    assert forall|j: int| 0 <= j < 32 implies #[trigger] byte_at(s, (addr + j) as nat) == (
    0nat / pow2((8 * (31 - j)) as nat)) % 256 by {
        vstd::arithmetic::power2::lemma_pow2_pos((8 * (31 - j)) as nat);
        vstd::arithmetic::div_mod::lemma_div_basics(pow2((8 * (31 - j)) as nat) as int);
    }
    lemma_word_round_trip(s, addr, 0);
}

/// Whether a character is an ASCII hexadecimal digit.
pub open spec fn is_hex_digit(c: char) -> bool {
    (48 <= c as u32 <= 57) || (97 <= c as u32 <= 102) || (65 <= c as u32 <= 70)
}

/// The numeric value of an ASCII hexadecimal digit.
pub open spec fn hex_digit_val(c: char) -> nat {
    if 48 <= c as u32 <= 57 {
        (c as u32 - 48) as nat
    } else if 97 <= c as u32 <= 102 {
        (c as u32 - 87) as nat
    } else if 65 <= c as u32 <= 70 {
        (c as u32 - 55) as nat
    } else {
        0
    }
}

/// The value of a big-endian hexadecimal digit string.
pub open spec fn hex_val(s: Seq<char>) -> nat
    decreases s.len(),
{
    if s.len() == 0 {
        0
    } else {
        (hex_val(s.drop_last()) * 16 + hex_digit_val(s.last())) as nat
    }
}

/// The word written as exactly 64 hexadecimal digits.
pub fn from_hex(hex: &str) -> (r: Word)
    requires
        hex@.len() == 64,
        forall|i: int| 0 <= i < 64 ==> is_hex_digit(#[trigger] hex@[i]),
    ensures
        r@ == hex_val(hex@),
{
    let mut w = Word::zero();
    let mut i: usize = 0;
    proof {
        lemma2_to64();
        assert(hex@.subrange(0, 0) =~= Seq::<char>::empty());
    }
    while i < 64
        invariant
            i <= 64,
            hex@.len() == 64,
            forall|k: int| 0 <= k < 64 ==> is_hex_digit(#[trigger] hex@[k]),
            w@ == hex_val(hex@.subrange(0, i as int)),
            w@ < pow2((4 * i) as nat),
        decreases 64 - i,
    {
        let ghost e = (4 * i) as nat;
        let c = hex.get_char(i);
        let cu = c as u32;
        let d: u64 = if cu >= 48 && cu <= 57 {
            (cu - 48) as u64
        } else if cu >= 97 && cu <= 102 {
            (cu - 87) as u64
        } else {
            (cu - 65 + 10) as u64
        };
        proof {
            assert(is_hex_digit(hex@[i as int]));
            assert(d == hex_digit_val(hex@[i as int]));
        }
        let shifted = w.shl_small(4);
        proof {
            lemma_powers();
            lemma2_to64();
            lemma_pow2_adds(e, 4);
            if 4 * i + 4 < 256 {
                lemma_pow2_strictly_increases((4 * i + 4) as nat, 256);
            }
            assert(w@ * 16 < pow2(e + 4));
            lemma_small_mod((w@ * 16) as nat, p256());
        }
        let w2 = shifted.wrapping_add(Word::from_u64(d));
        proof {
            lemma_small_mod((w@ * 16 + d) as nat, p256());
            assert(hex@.subrange(0, i + 1).drop_last() =~= hex@.subrange(0, i as int));
            assert(w2@ == hex_val(hex@.subrange(0, i + 1)));
        }
        w = w2;
        i = i + 1;
    }
    proof {
        assert(hex@.subrange(0, 64) =~= hex@);
    }
    w
}

impl Word {
    /// The 32-byte big-endian encoding of the value.
    pub fn to_be_bytes(&self) -> (r: Vec<u8>)
        ensures
            r@.len() == 32,
            be_val(r@) == self@,
            forall|j: int|
                0 <= j < 32 ==> r@[j] == (self@ / pow2((8 * (31 - j)) as nat)) % 256,
    {
        let mut v: Vec<u8> = Vec::new();
        let mut i: usize = 0;
        proof {
            lemma_powers();
            lemma_basic_div(self@ as int, pow2(256) as int);
        }
        while i < 32
            invariant
                i <= 32,
                v@.len() == i,
                be_val(v@) == self@ / pow2((8 * (32 - i)) as nat),
                forall|j: int|
                    0 <= j < i ==> v@[j] == (self@ / pow2((8 * (31 - j)) as nat)) % 256,
            decreases 32 - i,
        {
            let shifted = self.shr_small(8 * (31 - i));
            let b = shifted.low_byte();
            let ghost prev = v@;
            v.push(b);
            proof {
                let e = (8 * (31 - i)) as nat;
                lemma_pow2_adds(e, 8);
                lemma2_to64();
                vstd::arithmetic::power2::lemma_pow2_pos(e);
                lemma_div_div(self@, pow2(e), 256);
                lemma_fundamental_div_mod((self@ / pow2(e)) as int, 256);
                assert(v@.drop_last() =~= prev);
            }
            i = i + 1;
        }
        proof {
            lemma2_to64();
            assert(self@ / pow2(0) == self@);
        }
        v
    }

    /// The word denoted by 32 big-endian bytes.
    pub fn from_be_bytes(bytes: &[u8]) -> (r: Word)
        requires
            bytes@.len() == 32,
        ensures
            r@ == be_val(bytes@),
    {
        let mut w = Word::zero();
        let mut i: usize = 0;
        proof {
            lemma2_to64();
            assert(bytes@.subrange(0, 0) =~= Seq::<u8>::empty());
        }
        while i < 32
            invariant
                i <= 32,
                bytes@.len() == 32,
                w@ == be_val(bytes@.subrange(0, i as int)),
                w@ < pow2((8 * i) as nat),
            decreases 32 - i,
        {
            let ghost e = (8 * i) as nat;
            let b = bytes[i];
            let shifted = w.shl_small(8);
            proof {
                lemma_powers();
                lemma2_to64();
                lemma_pow2_adds(e, 8);
                if 8 * i + 8 < 256 {
                    lemma_pow2_strictly_increases((8 * i + 8) as nat, 256);
                }
                assert(w@ * 256 < pow2(e + 8));
                lemma_small_mod((w@ * 256) as nat, p256());
            }
            let w2 = shifted.wrapping_add(Word::from_u64(b as u64));
            proof {
                lemma_small_mod((w@ * 256 + b) as nat, p256());
                assert(bytes@.subrange(0, i + 1).drop_last() =~= bytes@.subrange(0, i as int));
                assert(w2@ == be_val(bytes@.subrange(0, i + 1)));
            }
            w = w2;
            i = i + 1;
        }
        proof {
            assert(bytes@.subrange(0, 32) =~= bytes@);
        }
        w
    }
}

} // verus!
