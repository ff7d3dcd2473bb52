//! The opcode library: one total function per instruction.
//!
//! Every operation takes its operands plus the call context and returns
//! `Ok` with a value, or `Err` with the signal that halts the call
//! (`return_` and `revert` are the only ones that produce the signal).
//! Generated code calls these directly; no interpreter loop exists.

use vstd::prelude::*;
use vstd::arithmetic::power2::pow2;
use vstd::arithmetic::power::pow;
use vstd::arithmetic::div_mod::lemma_small_mod;
use crate::word::{Word, p256, p255, add_wrap, sub_wrap};
use crate::i256::{as_int, sdiv_spec, smod_spec, i256_cmp, i256_div, i256_mod};
use crate::bytes::{byte_at, read_bytes, word_at, be_val};
use crate::memory::load_padded;
use crate::context::{Context, ContractInteractions, ReturnOrRevert, YulOutput, imm_lookup};
use core::cmp::Ordering;

verus! {

/// Fields of the context that no opcode but `setimmutable` and the memory
/// writers may change; those two keep everything here intact as well.
pub open spec fn env_eq<CI>(a: Context<CI>, b: Context<CI>) -> bool {
    &&& a.address == b.address
    &&& a.caller == b.caller
    &&& a.callvalue == b.callvalue
    &&& a.gas == b.gas
    &&& a.timestamp == b.timestamp
    &&& a.chain_id == b.chain_id
    &&& a.calldata == b.calldata
}

/// What Keccak-256 returns for a byte string; determined by the input alone.
pub uninterp spec fn keccak_of(data: Seq<u8>) -> Seq<u8>;

/// Relies on `alloy_primitives::keccak256`: the 32-byte Keccak-256 digest of
/// the input, a function of the input bytes alone.
#[verifier::external_body]
fn keccak_bytes(data: &[u8]) -> (r: Vec<u8>)
    ensures
        r@ == keccak_of(data@),
        r@.len() == 32,
{
    alloy_primitives::keccak256(data).to_vec()
}

// Arithmetic opcodes.

/// Wrapping addition modulo 2^256.
pub fn add<CI>(x: Word, y: Word, _context: &Context<CI>) -> (r: YulOutput<Word>)
    ensures
        r matches Ok(v) && v@ == add_wrap(x@, y@),
{
    Ok(x.wrapping_add(y))
}

/// Wrapping subtraction modulo 2^256.
pub fn sub<CI>(x: Word, y: Word, _context: &Context<CI>) -> (r: YulOutput<Word>)
    ensures
        r matches Ok(v) && v@ == sub_wrap(x@, y@),
{
    Ok(x.wrapping_sub(y))
}

/// Wrapping multiplication modulo 2^256.
pub fn mul<CI>(x: Word, y: Word, _context: &Context<CI>) -> (r: YulOutput<Word>)
    ensures
        r matches Ok(v) && v@ == (x@ * y@) % p256(),
{
    Ok(x.wrapping_mul(y))
}

/// Unsigned division; a zero divisor gives zero instead of trapping.
pub fn div<CI>(x: Word, y: Word, _context: &Context<CI>) -> (r: YulOutput<Word>)
    ensures
        r matches Ok(v) && v@ == (if y@ == 0 {
            0nat
        } else {
            x@ / y@
        }),
{
    Ok(x.wrapping_div(y))
}

/// Signed division, truncating toward zero; a zero divisor gives zero.
pub fn sdiv<CI>(x: Word, y: Word, _context: &Context<CI>) -> (r: YulOutput<Word>)
    ensures
        r matches Ok(v) && v@ == sdiv_spec(x@, y@),
{
    Ok(i256_div(x, y))
}

/// Unsigned remainder; a zero divisor gives zero instead of trapping.
pub fn mod_<CI>(x: Word, y: Word, _context: &Context<CI>) -> (r: YulOutput<Word>)
    ensures
        r matches Ok(v) && v@ == (if y@ == 0 {
            0nat
        } else {
            x@ % y@
        }),
{
    Ok(x.wrapping_rem(y))
}

/// Signed remainder, taking the dividend's sign; a zero divisor gives zero.
pub fn smod<CI>(x: Word, y: Word, _context: &Context<CI>) -> (r: YulOutput<Word>)
    ensures
        r matches Ok(v) && v@ == smod_spec(x@, y@),
{
    Ok(i256_mod(x, y))
}

/// Modular exponentiation: base and exponent words, result modulo 2^256.
pub fn exp<CI>(x: Word, y: Word, _context: &Context<CI>) -> (r: YulOutput<Word>)
    ensures
        r matches Ok(v) && v@ == pow(x@ as int, y@) % (p256() as int),
{
    Ok(x.wrapping_pow(y))
}

/// Bitwise complement.
pub fn not<CI>(x: Word, _context: &Context<CI>) -> (r: YulOutput<Word>)
    ensures
        r matches Ok(v) && v@ == p256() - 1 - x@,
{
    Ok(x.bit_not())
}

/// Unsigned less-than, as the word 1 or 0.
pub fn lt<CI>(x: Word, y: Word, _context: &Context<CI>) -> (r: YulOutput<Word>)
    ensures
        r matches Ok(v) && v@ == (if x@ < y@ {
            1nat
        } else {
            0nat
        }),
{
    if x.lt_unsigned(&y) {
        Ok(Word::one())
    } else {
        Ok(Word::zero())
    }
}

/// Unsigned greater-than, as the word 1 or 0.
pub fn gt<CI>(x: Word, y: Word, _context: &Context<CI>) -> (r: YulOutput<Word>)
    ensures
        r matches Ok(v) && v@ == (if x@ > y@ {
            1nat
        } else {
            0nat
        }),
{
    if y.lt_unsigned(&x) {
        Ok(Word::one())
    } else {
        Ok(Word::zero())
    }
}

/// Signed less-than, as the word 1 or 0.
pub fn slt<CI>(x: Word, y: Word, _context: &Context<CI>) -> (r: YulOutput<Word>)
    ensures
        r matches Ok(v) && v@ == (if as_int(x@) < as_int(y@) {
            1nat
        } else {
            0nat
        }),
{
    if matches!(i256_cmp(&x, &y), Ordering::Less) {
        Ok(Word::one())
    } else {
        Ok(Word::zero())
    }
}

/// Signed greater-than, as the word 1 or 0.
pub fn sgt<CI>(x: Word, y: Word, _context: &Context<CI>) -> (r: YulOutput<Word>)
    ensures
        r matches Ok(v) && v@ == (if as_int(x@) > as_int(y@) {
            1nat
        } else {
            0nat
        }),
{
    if matches!(i256_cmp(&x, &y), Ordering::Greater) {
        Ok(Word::one())
    } else {
        Ok(Word::zero())
    }
}

/// Equality, as the word 1 or 0.
pub fn eq<CI>(x: Word, y: Word, _context: &Context<CI>) -> (r: YulOutput<Word>)
    ensures
        r matches Ok(v) && v@ == (if x@ == y@ {
            1nat
        } else {
            0nat
        }),
{
    if x == y {
        Ok(Word::one())
    } else {
        Ok(Word::zero())
    }
}

/// Test for zero, as the word 1 or 0.
pub fn iszero<CI>(x: Word, _context: &Context<CI>) -> (r: YulOutput<Word>)
    ensures
        r matches Ok(v) && v@ == (if x@ == 0 {
            1nat
        } else {
            0nat
        }),
{
    if x.is_zero() {
        Ok(Word::one())
    } else {
        Ok(Word::zero())
    }
}

/// Bitwise and.
pub fn and<CI>(x: Word, y: Word, _context: &Context<CI>) -> (r: YulOutput<Word>)
    ensures
        r matches Ok(v) && v.limb0 == (x.limb0 & y.limb0) && v.limb1 == (x.limb1 & y.limb1)
            && v.limb2 == (x.limb2 & y.limb2) && v.limb3 == (x.limb3 & y.limb3),
{
    Ok(x.bit_and(y))
}

/// Bitwise or.
pub fn or<CI>(x: Word, y: Word, _context: &Context<CI>) -> (r: YulOutput<Word>)
    ensures
        r matches Ok(v) && v.limb0 == (x.limb0 | y.limb0) && v.limb1 == (x.limb1 | y.limb1)
            && v.limb2 == (x.limb2 | y.limb2) && v.limb3 == (x.limb3 | y.limb3),
{
    Ok(x.bit_or(y))
}

/// Bitwise exclusive or.
pub fn xor<CI>(x: Word, y: Word, _context: &Context<CI>) -> (r: YulOutput<Word>)
    ensures
        r matches Ok(v) && v.limb0 == (x.limb0 ^ y.limb0) && v.limb1 == (x.limb1 ^ y.limb1)
            && v.limb2 == (x.limb2 ^ y.limb2) && v.limb3 == (x.limb3 ^ y.limb3),
{
    Ok(x.bit_xor(y))
}

/// Byte extraction, big-endian: byte 0 is the most significant; an index of
/// 32 or more gives zero.
pub fn byte<CI>(op1: Word, op2: Word, _context: &Context<CI>) -> (r: YulOutput<Word>)
    ensures
        r matches Ok(v) && v@ == (if op1@ >= 32 {
            0nat
        } else {
            (op2@ / pow2((8 * (31 - op1@)) as nat)) % 256
        }),
{
    let big = op1.limb1 != 0 || op1.limb2 != 0 || op1.limb3 != 0 || op1.limb0 >= 32;
    if big {
        Ok(Word::zero())
    } else {
        let i = op1.limb0 as usize;
        let shifted = op2.shr_small(8 * (31 - i));
        Ok(Word::from_u64(shifted.low_byte() as u64))
    }
}

/// Logical left shift: zero once the shift amount reaches 256.
pub fn shl<CI>(op1: Word, op2: Word, _context: &Context<CI>) -> (r: YulOutput<Word>)
    ensures
        r matches Ok(v) && v@ == (if op1@ >= 256 {
            0nat
        } else {
            (op2@ * pow2(op1@)) % p256()
        }),
{
    if op1.shift_saturates() {
        Ok(Word::zero())
    } else {
        Ok(op2.shl_small(op1.limb0 as usize))
    }
}

/// Logical right shift: zero once the shift amount reaches 256.
pub fn shr<CI>(op1: Word, op2: Word, _context: &Context<CI>) -> (r: YulOutput<Word>)
    ensures
        r matches Ok(v) && v@ == (if op1@ >= 256 {
            0nat
        } else {
            op2@ / pow2(op1@)
        }),
{
    if op1.shift_saturates() {
        Ok(Word::zero())
    } else {
        Ok(op2.shr_small(op1.limb0 as usize))
    }
}

/// Arithmetic right shift: the sign bit fills in from the left, so a
/// saturated shift gives all ones for a negative word and zero otherwise.
pub fn sar<CI>(op1: Word, op2: Word, _context: &Context<CI>) -> (r: YulOutput<Word>)
    ensures
        r matches Ok(v) && v@ == (if op2@ < p255() {
            if op1@ >= 256 {
                0nat
            } else {
                op2@ / pow2(op1@)
            }
        } else {
            if op1@ >= 256 {
                (p256() - 1) as nat
            } else {
                (p256() - 1 - (((p256() - 1 - op2@) as nat) / pow2(op1@))) as nat
            }
        }),
{
    if op2.is_negative() {
        if op1.shift_saturates() {
            Ok(Word::max())
        } else {
            Ok(op2.bit_not().shr_small(op1.limb0 as usize).bit_not())
        }
    } else {
        if op1.shift_saturates() {
            Ok(Word::zero())
        } else {
            Ok(op2.shr_small(op1.limb0 as usize))
        }
    }
}

/// `(op1 + op2) % op3` over the unbounded sum; zero when `op3` is zero.
pub fn addmod<CI>(op1: Word, op2: Word, op3: Word, _context: &Context<CI>) -> (r: YulOutput<
    Word,
>)
    ensures
        r matches Ok(v) && v@ == (if op3@ == 0 {
            0nat
        } else {
            (op1@ + op2@) % op3@
        }),
{
    Ok(op1.add_mod_word(op2, op3))
}

/// `(op1 * op2) % op3` over the unbounded product; zero when `op3` is zero.
pub fn mulmod<CI>(op1: Word, op2: Word, op3: Word, _context: &Context<CI>) -> (r: YulOutput<
    Word,
>)
    ensures
        r matches Ok(v) && v@ == (if op3@ == 0 {
            0nat
        } else {
            (op1@ * op2@) % op3@
        }),
{
    Ok(op1.mul_mod_word(op2, op3))
}

/// Sign extension from byte position `ext` (0 = least significant byte):
/// bit `8*ext + 7` is copied into every higher bit; `ext >= 31` leaves the
/// word unchanged.
pub fn signextend<CI>(ext: Word, x: Word, _context: &Context<CI>) -> (r: YulOutput<Word>)
    ensures
        r matches Ok(v) && v@ == (if ext@ >= 31 {
            x@
        } else {
            if (x@ / pow2((8 * ext@ + 7) as nat)) % 2 == 1 {
                (x@ % pow2((8 * ext@ + 7) as nat) + p256() - pow2((8 * ext@ + 7) as nat)) as nat
            } else {
                x@ % pow2((8 * ext@ + 7) as nat)
            }
        }),
{
    let big = ext.limb1 != 0 || ext.limb2 != 0 || ext.limb3 != 0 || ext.limb0 >= 31;
    if big {
        Ok(x)
    } else {
        let p = 8 * (ext.limb0 as usize) + 7;
        let m = Word::pow2_word(p);
        proof {
            vstd::arithmetic::power2::lemma_pow2_pos(p as nat);
        }
        let (q, low) = x.udiv_rem(m);
        if q.is_odd() {
            let high = m.wrapping_neg();
            let v = low.wrapping_add(high);
            proof {
                lemma_small_mod((low@ + (p256() - pow2(p as nat))) as nat, p256());
            }
            Ok(v)
        } else {
            Ok(low)
        }
    }
}

/// Keccak-256 of the memory range `[p, p + n)`, read with zero fill.
pub fn keccak256<CI>(p: Word, n: Word, context: &mut Context<CI>) -> (r: YulOutput<Word>)
    requires
        n@ <= usize::MAX,
    ensures
        *final(context) == *old(context),
        r matches Ok(v) && v@ == be_val(
            keccak_of(read_bytes(old(context).memory@, p@, n@)),
        ),
{
    let data = context.memory.load(p, n);
    let digest = keccak_bytes(data.as_slice());
    Ok(Word::from_be_bytes(digest.as_slice()))
}

/// Discard a value.
pub fn pop<CI>(_x: Word, _context: &Context<CI>) -> (r: YulOutput<()>)
    ensures
        r matches Ok(v),
{
    Ok(())
}

// Memory opcodes.

/// Load the 32-byte big-endian word at `address`.
pub fn mload<CI>(address: Word, context: &Context<CI>) -> (r: YulOutput<Word>)
    ensures
        r matches Ok(v) && v@ == word_at(context.memory@, address@),
{
    let bytes = context.memory.load(address, Word::from_u64(32));
    Ok(Word::from_be_bytes(bytes.as_slice()))
}

/// Store `value` as 32 big-endian bytes at `address`.
pub fn mstore<CI>(address: Word, value: Word, context: &mut Context<CI>) -> (r: YulOutput<()>)
    requires
        address@ + 32 <= usize::MAX,
    ensures
        r matches Ok(v),
        word_at(final(context).memory@, address@) == value@,
        forall|j: int|
            0 <= j < 32 ==> #[trigger] byte_at(final(context).memory@, (address@ + j) as nat) == (
            value@ / pow2((8 * (31 - j)) as nat)) % 256,
        forall|i: nat|
            !(address@ <= i < address@ + 32) ==> #[trigger] byte_at(final(context).memory@, i)
                == byte_at(old(context).memory@, i),
        final(context).immutables == old(context).immutables,
        env_eq(*final(context), *old(context)),
{
    let bytes = value.to_be_bytes();
    context.memory.store(address, bytes.as_slice());
    proof {
        assert(read_bytes(context.memory@, address@, 32) =~= bytes@);
    }
    Ok(())
}

/// Store the least significant byte of `value` at `address`.
pub fn mstore8<CI>(address: Word, value: Word, context: &mut Context<CI>) -> (r: YulOutput<()>)
    requires
        address@ + 1 <= usize::MAX,
    ensures
        r matches Ok(v),
        byte_at(final(context).memory@, address@) == value@ % 256,
        forall|i: nat|
            i != address@ ==> #[trigger] byte_at(final(context).memory@, i) == byte_at(
                old(context).memory@,
                i,
            ),
        final(context).immutables == old(context).immutables,
        env_eq(*final(context), *old(context)),
{
    let mut bytes: Vec<u8> = Vec::new();
    bytes.push(value.low_byte());
    context.memory.store(address, bytes.as_slice());
    Ok(())
}

// Context reads.

/// The gas left for the call, as the host reported it.
pub fn gas<CI>(_context: &Context<CI>) -> (r: YulOutput<Word>)
    ensures
        r matches Ok(v) && v == _context.gas,
{
    Ok(_context.gas)
}

/// The executing contract's address.
pub fn address<CI>(context: &Context<CI>) -> (r: YulOutput<Word>)
    ensures
        r matches Ok(v) && v == context.address,
{
    Ok(context.address)
}

/// The balance of an address, answered by the host capability.
pub fn balance<CI>(address: Word, context: &Context<CI>) -> (r: YulOutput<Word>) where
    Context<CI>: ContractInteractions

    ensures
        r matches Ok(v) && v@ == context.balance_of(address@),
{
    Ok(context.get_balance(address))
}

/// The executing contract's own balance.
pub fn selfbalance<CI>(context: &Context<CI>) -> (r: YulOutput<Word>) where
    Context<CI>: ContractInteractions

    ensures
        r matches Ok(v) && v@ == context.balance_of(context.address@),
{
    balance(address(context)?, context)
}

/// The caller's address.
pub fn caller<CI>(context: &Context<CI>) -> (r: YulOutput<Word>)
    ensures
        r matches Ok(v) && v == context.caller,
{
    Ok(context.caller)
}

/// The value sent along with the call.
pub fn callvalue<CI>(context: &Context<CI>) -> (r: YulOutput<Word>)
    ensures
        r matches Ok(v) && v == context.callvalue,
{
    Ok(context.callvalue)
}

/// The 32-byte calldata word at offset `p`, reading zero past the end.
pub fn calldataload<CI>(p: Word, context: &Context<CI>) -> (r: YulOutput<Word>)
    ensures
        r matches Ok(v) && v@ == word_at(context.calldata@, p@),
{
    let bytes = load_padded(context.calldata.as_slice(), p, 32);
    Ok(Word::from_be_bytes(bytes.as_slice()))
}

/// The length of the calldata.
pub fn calldatasize<CI>(context: &Context<CI>) -> (r: YulOutput<Word>)
    ensures
        r matches Ok(v) && v@ == context.calldata@.len(),
        context.calldata@.len() <= usize::MAX,
{
    let len = context.calldata.len();
    Ok(Word::from_u64(len as u64))
}

/// Copy `s` calldata bytes from offset `f` into memory at `t`, zero-filling
/// whatever lies past the calldata's end.
pub fn calldatacopy<CI>(t: Word, f: Word, s: Word, context: &mut Context<CI>) -> (r: YulOutput<
    (),
>)
    requires
        t@ + s@ <= usize::MAX,
    ensures
        r matches Ok(v),
        forall|j: int|
            0 <= j < s@ ==> #[trigger] byte_at(final(context).memory@, (t@ + j) as nat)
                == byte_at(old(context).calldata@, (f@ + j) as nat),
        forall|i: nat|
            !(t@ <= i < t@ + s@) ==> #[trigger] byte_at(final(context).memory@, i) == byte_at(
                old(context).memory@,
                i,
            ),
        final(context).immutables == old(context).immutables,
        env_eq(*final(context), *old(context)),
{
    let bytes = load_padded(context.calldata.as_slice(), f, s.limb0 as usize);
    context.memory.store(t, bytes.as_slice());
    Ok(())
}

// External calls.

/// Static call into a fixed set of well-known precompiled contracts,
/// modeled as an always-succeeding stub with no side effect.
pub fn staticcall<CI>(
    _gas: Word,
    _address: Word,
    _args_offset: Word,
    _args_size: Word,
    _ret_offset: Word,
    _ret_size: Word,
    _context: &Context<CI>,
) -> (r: YulOutput<Word>)
    ensures
        r matches Ok(v) && v@ == 1,
{
    Ok(Word::one())
}

// Halting signals.

/// Halt the call successfully, returning the memory range as output.
pub fn return_<CI>(offset: Word, size: Word, _context: &mut Context<CI>) -> (r: YulOutput<()>)
    ensures
        *final(_context) == *old(_context),
        r == YulOutput::<()>::Err(
            (ReturnOrRevert::Return { start: offset, length: size }),
        ),
{
    Err(ReturnOrRevert::Return { start: offset, length: size })
}

/// Halt the call unsuccessfully, returning the memory range as the revert
/// payload.
pub fn revert<CI>(offset: Word, size: Word, _context: &mut Context<CI>) -> (r: YulOutput<()>)
    ensures
        *final(_context) == *old(_context),
        r == YulOutput::<()>::Err(
            (ReturnOrRevert::Revert { start: offset, length: size }),
        ),
{
    Err(ReturnOrRevert::Revert { start: offset, length: size })
}

// Environment opcodes.

/// The chain id the host reports.
pub fn chainid<CI>(context: &Context<CI>) -> (r: YulOutput<Word>)
    ensures
        r matches Ok(v) && v == context.chain_id,
{
    Ok(context.chain_id)
}

/// The block timestamp the host reports.
pub fn timestamp<CI>(context: &Context<CI>) -> (r: YulOutput<Word>)
    ensures
        r matches Ok(v) && v == context.timestamp,
{
    Ok(context.timestamp)
}

// Special opcodes.

/// A hint to generated code about its memory bound; the identity function.
pub fn memoryguard<CI>(size: Word, _context: &mut Context<CI>) -> (r: YulOutput<Word>)
    ensures
        *final(_context) == *old(_context),
        r matches Ok(v) && v == size,
{
    Ok(size)
}

/// Bind an immutable name to a value; a later binding shadows an earlier one.
pub fn setimmutable<CI>(
    _offset: Word,
    name: Word,
    value: Word,
    context: &mut Context<CI>,
) -> (r: YulOutput<()>)
    ensures
        r matches Ok(v),
        final(context).immutables@ == old(context).immutables@.push((name, value)),
        imm_lookup(final(context).immutables@, name@) == value@,
        final(context).memory == old(context).memory,
        env_eq(*final(context), *old(context)),
{
    context.immutables.push((name, value));
    Ok(())
}

/// Read an immutable name; an unbound name reads as zero.
pub fn loadimmutable<CI>(name: Word, context: &Context<CI>) -> (r: YulOutput<Word>)
    ensures
        r matches Ok(v) && v@ == imm_lookup(context.immutables@, name@),
{
    let entries = &context.immutables;
    let mut j: usize = entries.len();
    proof {
        assert(entries@.subrange(0, entries@.len() as int) =~= entries@);
    }
    while j > 0
        invariant
            j <= entries@.len(),
            entries@ == context.immutables@,
            imm_lookup(entries@, name@) == imm_lookup(entries@.subrange(0, j as int), name@),
        decreases j,
    {
        let pair = entries[j - 1];
        proof {
            assert(entries@.subrange(0, j as int).last() == entries@[j - 1]);
            assert(entries@.subrange(0, j as int).drop_last() =~= entries@.subrange(
                0,
                j - 1,
            ));
        }
        if pair.0 == name {
            proof {
                assert(pair.0@ == name@);
                assert(imm_lookup(entries@.subrange(0, j as int), name@) == pair.1@);
            }
            return Ok(pair.1);
        }
        proof {
            assert(pair.0@ != name@) by {
                if pair.0@ == name@ {
                    assert(pair.0 == name);
                }
            }
        }
        j = j - 1;
    }
    proof {
        assert(entries@.subrange(0, 0) =~= Seq::<(Word, Word)>::empty());
    }
    Ok(Word::zero())
}

} // verus!
