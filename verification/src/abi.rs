//! The generated entry point: selector dispatch, ABI decode and encode,
//! and the checked-arithmetic panic convention.
//!
//! The protocol, in order: initialize the free-memory pointer, reject
//! calldata shorter than the 4-byte selector, extract the selector as the
//! high 4 bytes of the first calldata word, dispatch to the handler, reject
//! nonzero call value, decode the argument tuple (reverting with an empty
//! payload when it is too short), run the business function, encode the
//! result tuple into fresh memory and raise `Return` over it.  Arithmetic
//! that must not wrap raises a `Revert` carrying the standard panic payload:
//! the 4-byte `Panic(uint256)` selector followed by the 32-byte code 0x11.

use vstd::prelude::*;
use vstd::arithmetic::power2::{pow2, lemma_pow2_adds, lemma2_to64, lemma_pow2_pos};
use vstd::arithmetic::div_mod::{lemma_small_mod, lemma_mod_multiples_vanish};
use crate::word::{Word, p256, p255, sub_wrap};
use crate::i256::as_int;
use crate::bytes::{byte_at, read_bytes, word_at};
use crate::context::{Context, ReturnOrRevert, YulOutput};
use crate::ops;
use crate::ops::env_eq;
use crate::arith::lemma_div_div;

verus! {

/// The selector word that routes to the add-one handler.
pub open spec fn add_one_selector() -> nat {
    0xdde38a34
}

/// The `Panic(uint256)` revert payload: the 4-byte panic selector followed
/// by the 32-byte big-endian panic code.
pub open spec fn panic_payload(code: nat) -> Seq<u8> {
    Seq::new(
        36,
        |i: int|
            if i < 4 {
                ((0x4e487b71nat / pow2((8 * (3 - i)) as nat)) % 256) as u8
            } else {
                ((code / pow2((8 * (35 - i)) as nat)) % 256) as u8
            },
    )
}

/// Truthiness of a machine word: anything nonzero means true.
pub fn to_bool(a: Word) -> (r: YulOutput<bool>)
    ensures
        r matches Ok(v) && v == (a@ != 0),
{
    Ok(!a.is_zero())
}

/// The selector of a call: the first calldata word shifted right by 224.
pub fn shift_right_224_unsigned<CI>(value: Word, context: &Context<CI>) -> (r: YulOutput<Word>)
    ensures
        r matches Ok(v) && v@ == value@ / pow2(224),
{
    let new_value = ops::shr(Word::from_u64(224), value, context)?;
    Ok(new_value)
}

/// The current free-memory pointer.
pub fn allocate_unbounded<CI>(context: &Context<CI>) -> (r: YulOutput<Word>)
    ensures
        r matches Ok(v) && v@ == word_at(context.memory@, 0x40),
{
    let mem_ptr = ops::mload(Word::from_u64(0x40), context)?;
    Ok(mem_ptr)
}

/// Revert with an empty payload: a nonzero value was sent to a non-payable
/// function.
pub fn revert_error_ca66f745a3ce8ff40e2ccaf1ad45db7774001b90d25810abd9040049be7bf4bb<CI>(
    context: &mut Context<CI>,
) -> (r: YulOutput<()>)
    ensures
        *final(context) == *old(context),
        r matches Err(sig) && sig matches ReturnOrRevert::Revert { start, length } && start@ == 0
            && length@ == 0,
{
    ops::revert(Word::zero(), Word::zero(), context)?;
    Ok(())
}

/// Revert with an empty payload: the argument area of the calldata is
/// shorter than the tuple's static size.
pub fn revert_error_dbdddcbe895c83990c08b3492a0e83918d802a52331272ac6fdb6a7c4aea3b1b<CI>(
    context: &mut Context<CI>,
) -> (r: YulOutput<()>)
    ensures
        *final(context) == *old(context),
        r matches Err(sig) && sig matches ReturnOrRevert::Revert { start, length } && start@ == 0
            && length@ == 0,
{
    ops::revert(Word::zero(), Word::zero(), context)?;
    Ok(())
}

/// Revert with an empty payload: a decoded scalar was not canonically
/// encoded.
pub fn revert_error_c1322bf8034eace5e0b5c7295db60986aa89aae5e0ea0873e4689e076861a5db<CI>(
    context: &mut Context<CI>,
) -> (r: YulOutput<()>)
    ensures
        *final(context) == *old(context),
        r matches Err(sig) && sig matches ReturnOrRevert::Revert { start, length } && start@ == 0
            && length@ == 0,
{
    ops::revert(Word::zero(), Word::zero(), context)?;
    Ok(())
}

/// Revert with an empty payload: the selector matched no handler.
pub fn revert_error_42b3090547df1d2001c96683413b8cf91c1b902ef5e3cb8d9f6f304cf7446f74<CI>(
    context: &mut Context<CI>,
) -> (r: YulOutput<()>)
    ensures
        *final(context) == *old(context),
        r matches Err(sig) && sig matches ReturnOrRevert::Revert { start, length } && start@ == 0
            && length@ == 0,
{
    ops::revert(Word::zero(), Word::zero(), context)?;
    Ok(())
}

/// Canonicalize a `uint256`: every word is already canonical.
pub fn cleanup_t_uint256<CI>(value: Word, _context: &Context<CI>) -> (r: YulOutput<Word>)
    ensures
        r matches Ok(v) && v == value,
{
    Ok(value)
}

/// Reject a non-canonical `uint256` encoding; for `uint256` every word is
/// canonical, so this never reverts.
pub fn validator_revert_t_uint256<CI>(value: Word, context: &mut Context<CI>) -> (r: YulOutput<
    (),
>)
    ensures
        *final(context) == *old(context),
        r matches Ok(v),
{
    let cleaned = cleanup_t_uint256(value, context)?;
    if to_bool(ops::iszero(ops::eq(value, cleaned, context)?, context)?)? {
        revert_error_c1322bf8034eace5e0b5c7295db60986aa89aae5e0ea0873e4689e076861a5db(context)?;
    }
    Ok(())
}

/// Decode the `uint256` at a calldata offset.
pub fn abi_decode_t_uint256<CI>(offset: Word, _end: Word, context: &mut Context<CI>) -> (r:
    YulOutput<Word>)
    ensures
        *final(context) == *old(context),
        r matches Ok(v) && v@ == word_at(old(context).calldata@, offset@),
{
    let value = ops::calldataload(offset, context)?;
    validator_revert_t_uint256(value, context)?;
    Ok(value)
}

/// Decode a one-`uint256` tuple from the calldata range
/// `[head_start, data_end)`; revert with an empty payload when the range is
/// shorter than 32 bytes.
pub fn abi_decode_tuple_t_uint256<CI>(
    head_start: Word,
    data_end: Word,
    context: &mut Context<CI>,
) -> (r: YulOutput<Word>)
    ensures
        *final(context) == *old(context),
        as_int(sub_wrap(data_end@, head_start@)) < 32 ==> {
            &&& r matches Err(sig) && sig matches ReturnOrRevert::Revert { start, length }
                && start@ == 0 && length@ == 0
        },
        as_int(sub_wrap(data_end@, head_start@)) >= 32 ==> {
            &&& r matches Ok(v) && v@ == word_at(old(context).calldata@, head_start@)
        },
{
    if to_bool(
        ops::slt(ops::sub(data_end, head_start, context)?, Word::from_u64(32), context)?,
    )? {
        revert_error_dbdddcbe895c83990c08b3492a0e83918d802a52331272ac6fdb6a7c4aea3b1b(context)?;
    }
    let offset = Word::zero();
    let value0 = abi_decode_t_uint256(ops::add(head_start, offset, context)?, data_end, context)?;
    proof {
        lemma_small_mod(head_start@, p256());
    }
    Ok(value0)
}

/// Write one `uint256` of a return tuple at a memory position.
pub fn abi_encode_t_uint256_to_t_uint256_fromStack<CI>(
    value: Word,
    pos: Word,
    context: &mut Context<CI>,
) -> (r: YulOutput<()>)
    requires
        pos@ + 32 <= usize::MAX,
    ensures
        r matches Ok(v),
        word_at(final(context).memory@, pos@) == value@,
        forall|j: int|
            0 <= j < 32 ==> #[trigger] byte_at(final(context).memory@, (pos@ + j) as nat) == (
            value@ / pow2((8 * (31 - j)) as nat)) % 256,
        forall|i: nat|
            !(pos@ <= i < pos@ + 32) ==> #[trigger] byte_at(final(context).memory@, i) == byte_at(
                old(context).memory@,
                i,
            ),
        final(context).immutables == old(context).immutables,
        env_eq(*final(context), *old(context)),
{
    let cleaned = cleanup_t_uint256(value, context)?;
    ops::mstore(pos, cleaned, context)?;
    Ok(())
}

/// Encode a one-`uint256` return tuple at `head_start`, returning the tail
/// position one slot later.
pub fn abi_encode_tuple_t_uint256__to_t_uint256__fromStack<CI>(
    head_start: Word,
    value0: Word,
    context: &mut Context<CI>,
) -> (r: YulOutput<Word>)
    requires
        head_start@ + 32 <= usize::MAX,
    ensures
        r matches Ok(tail) && tail@ == head_start@ + 32,
        word_at(final(context).memory@, head_start@) == value0@,
        forall|i: nat|
            !(head_start@ <= i < head_start@ + 32) ==> #[trigger] byte_at(
                final(context).memory@,
                i,
            ) == byte_at(old(context).memory@, i),
        final(context).immutables == old(context).immutables,
        env_eq(*final(context), *old(context)),
{
    let tail = ops::add(head_start, Word::from_u64(32), context)?;
    proof {
        lemma_small_mod((head_start@ + 32) as nat, p256());
        lemma_small_mod((head_start@ + 0) as nat, p256());
    }
    abi_encode_t_uint256_to_t_uint256_fromStack(
        value0,
        ops::add(head_start, Word::zero(), context)?,
        context,
    )?;
    Ok(tail)
}

/// The zero value a split `uint256` variable starts from.
pub fn zero_value_for_split_t_uint256<CI>(_context: &Context<CI>) -> (r: YulOutput<Word>)
    ensures
        r matches Ok(v) && v@ == 0,
{
    Ok(Word::zero())
}

/// Canonicalize the rational literal one: already canonical.
pub fn cleanup_t_rational_1_by_1<CI>(value: Word, _context: &Context<CI>) -> (r: YulOutput<Word>)
    ensures
        r matches Ok(v) && v == value,
{
    Ok(value)
}

/// The identity conversion step.
pub fn identity<CI>(value: Word, _context: &Context<CI>) -> (r: YulOutput<Word>)
    ensures
        r matches Ok(v) && v == value,
{
    Ok(value)
}

/// Convert the rational literal one to `uint256`.
pub fn convert_t_rational_1_by_1_to_t_uint256<CI>(value: Word, context: &Context<CI>) -> (r:
    YulOutput<Word>)
    ensures
        r matches Ok(v) && v == value,
{
    let converted = cleanup_t_uint256(
        identity(cleanup_t_rational_1_by_1(value, context)?, context)?,
        context,
    )?;
    Ok(converted)
}

/// Raise the arithmetic-overflow panic: write the `Panic(uint256)` selector
/// and the code 0x11 into memory and revert over those 36 bytes.
pub fn panic_error_0x11<CI>(context: &mut Context<CI>) -> (r: YulOutput<()>)
    ensures
        r matches Err(sig) && sig matches ReturnOrRevert::Revert { start, length } && start@ == 0
            && length@ == 0x24,
        read_bytes(final(context).memory@, 0, 0x24) == panic_payload(0x11),
        forall|i: nat|
            !(i < 0x24) ==> #[trigger] byte_at(final(context).memory@, i) == byte_at(
                old(context).memory@,
                i,
            ),
        final(context).immutables == old(context).immutables,
        env_eq(*final(context), *old(context)),
{
    let selector_word = Word::from_limbs(0, 0, 0, 0x4e487b71_00000000);
    proof {
        crate::word::lemma_powers();
        lemma_pow2_adds(192, 32);
        lemma2_to64();
        assert(selector_word@ == 0x4e487b71 * pow2(224)) by (nonlinear_arith)
            requires
                selector_word@ == 0x4e487b71_00000000 * crate::word::p192(),
                pow2(224) == crate::word::p192() * pow2(32),
                pow2(32) == 0x1_0000_0000,
        ;
    }
    ops::mstore(Word::zero(), selector_word, context)?;
    let ghost mem1 = context.memory@;
    ops::mstore(Word::from_u64(4), Word::from_u64(0x11), context)?;
    proof {
        assert forall|j: int| 0 <= j < 32 implies #[trigger] byte_at(mem1, j as nat) == (
        selector_word@ / pow2((8 * (31 - j)) as nat)) % 256 by {
            assert(byte_at(mem1, (0 + j) as nat) == (selector_word@ / pow2((8 * (31 - j)) as nat))
                % 256);
        }
        lemma_panic_bytes(old(context).memory@, mem1, context.memory@, selector_word@);
    }
    ops::revert(Word::zero(), Word::from_u64(0x24), context)?;
    Ok(())
}

/// After the two panic stores, the first 36 bytes of memory hold exactly
/// the panic payload for code 0x11.
proof fn lemma_panic_bytes(mem0: Seq<u8>, mem1: Seq<u8>, mem2: Seq<u8>, selector: nat)
    requires
        selector == 0x4e487b71 * pow2(224),
        forall|j: int|
            0 <= j < 32 ==> #[trigger] byte_at(mem1, j as nat) == (selector / pow2(
                (8 * (31 - j)) as nat,
            )) % 256,
        forall|j: int|
            0 <= j < 32 ==> #[trigger] byte_at(mem2, (4 + j) as nat) == (0x11nat / pow2(
                (8 * (31 - j)) as nat,
            )) % 256,
        forall|i: nat| !(4 <= i < 36) ==> #[trigger] byte_at(mem2, i) == byte_at(mem1, i),
    ensures
        read_bytes(mem2, 0, 0x24) == panic_payload(0x11),
{
    assert forall|i: int| 0 <= i < 36 implies read_bytes(mem2, 0, 0x24)[i] == panic_payload(
        0x11,
    )[i] by {
        if i < 4 {
            let e = (8 * (31 - i)) as nat;
            let f = (8 * (3 - i)) as nat;
            assert(byte_at(mem2, i as nat) == (selector / pow2(e)) % 256);
            lemma_pow2_adds(224, f);
            lemma_pow2_pos(f);
            lemma_pow2_pos(224);
            // selector / 2^(224 + f) == 0x4e487b71 / 2^f.
            assert(selector / pow2(e) == 0x4e487b71nat / pow2(f)) by {
                lemma_div_div(selector, pow2(224), pow2(f));
                assert((0x4e487b71 * pow2(224)) / pow2(224) == 0x4e487b71) by {
                    vstd::arithmetic::div_mod::lemma_div_multiples_vanish(
                        0x4e487b71,
                        pow2(224) as int,
                    );
                }
            }
        } else {
            let j = i - 4;
            assert(byte_at(mem2, (4 + j) as nat) == (0x11nat / pow2((8 * (31 - j)) as nat))
                % 256);
        }
    }
    assert(read_bytes(mem2, 0, 0x24) =~= panic_payload(0x11));
}

/// Checked addition: the wrapping sum, or the arithmetic-overflow panic
/// when the true sum does not fit in a word.
pub fn checked_add_t_uint256<CI>(x: Word, y: Word, context: &mut Context<CI>) -> (r: YulOutput<
    Word,
>)
    ensures
        x@ + y@ < p256() ==> {
            &&& r matches Ok(v) && v@ == x@ + y@
            &&& *final(context) == *old(context)
        },
        x@ + y@ >= p256() ==> {
            &&& r matches Err(sig) && sig matches ReturnOrRevert::Revert { start, length }
                && start@ == 0 && length@ == 0x24
            &&& read_bytes(final(context).memory@, 0, 0x24) == panic_payload(0x11)
            &&& forall|i: nat|
                !(i < 0x24) ==> #[trigger] byte_at(final(context).memory@, i) == byte_at(
                    old(context).memory@,
                    i,
                )
            &&& final(context).immutables == old(context).immutables
            &&& env_eq(*final(context), *old(context))
        },
{
    let x2 = cleanup_t_uint256(x, context)?;
    let y2 = cleanup_t_uint256(y, context)?;
    let sum = ops::add(x2, y2, context)?;
    if to_bool(ops::gt(x2, sum, context)?)? {
        panic_error_0x11(context)?;
    }
    proof {
        if x@ + y@ < p256() {
            lemma_small_mod((x@ + y@) as nat, p256());
        } else {
            lemma_mod_multiples_vanish(1, (x@ + y@ - p256()) as int, p256() as int);
            lemma_small_mod((x@ + y@ - p256()) as nat, p256());
        }
    }
    Ok(sum)
}

/// The add-one business function: its argument plus one, or the arithmetic
/// overflow panic on the largest word.
pub fn fun_add_one_13<CI>(var_x_3: Word, context: &mut Context<CI>) -> (r: YulOutput<Word>)
    ensures
        var_x_3@ + 1 < p256() ==> {
            &&& r matches Ok(v) && v@ == var_x_3@ + 1
            &&& *final(context) == *old(context)
        },
        var_x_3@ + 1 >= p256() ==> {
            &&& r matches Err(sig) && sig matches ReturnOrRevert::Revert { start, length }
                && start@ == 0 && length@ == 0x24
            &&& read_bytes(final(context).memory@, 0, 0x24) == panic_payload(0x11)
            &&& forall|i: nat|
                !(i < 0x24) ==> #[trigger] byte_at(final(context).memory@, i) == byte_at(
                    old(context).memory@,
                    i,
                )
            &&& final(context).immutables == old(context).immutables
            &&& env_eq(*final(context), *old(context))
        },
{
    let zero_t_uint256_1 = zero_value_for_split_t_uint256(context)?;
    let mut var__6 = zero_t_uint256_1;
    let expr_8 = var_x_3;
    let expr_9 = Word::from_u64(0x01);
    let expr_10 = checked_add_t_uint256(
        expr_8,
        convert_t_rational_1_by_1_to_t_uint256(expr_9, context)?,
        context,
    )?;
    var__6 = expr_10;
    Ok(var__6)
}

/// The externally callable add-one handler: reject nonzero call value,
/// decode one `uint256`, add one, encode the result at the free pointer and
/// return over it.
pub fn external_fun_add_one_13<CI>(context: &mut Context<CI>) -> (r: YulOutput<()>)
    requires
        word_at(old(context).memory@, 0x40) + 32 <= usize::MAX,
    ensures
        old(context).callvalue@ != 0 ==> {
            &&& r matches Err(sig) && sig matches ReturnOrRevert::Revert { start, length }
                && start@ == 0 && length@ == 0
            &&& *final(context) == *old(context)
        },
        old(context).callvalue@ == 0 && old(context).calldata@.len() < 36 ==> {
            &&& r matches Err(sig) && sig matches ReturnOrRevert::Revert { start, length }
                && start@ == 0 && length@ == 0
            &&& *final(context) == *old(context)
        },
        old(context).callvalue@ == 0 && old(context).calldata@.len() >= 36 && word_at(
            old(context).calldata@,
            4,
        ) == p256() - 1 ==> {
            &&& r matches Err(sig) && sig matches ReturnOrRevert::Revert { start, length }
                && start@ == 0 && length@ == 0x24
            &&& read_bytes(final(context).memory@, 0, 0x24) == panic_payload(0x11)
            &&& forall|i: nat|
                !(i < 0x24) ==> #[trigger] byte_at(final(context).memory@, i) == byte_at(
                    old(context).memory@,
                    i,
                )
            &&& final(context).immutables == old(context).immutables
            &&& env_eq(*final(context), *old(context))
        },
        old(context).callvalue@ == 0 && old(context).calldata@.len() >= 36 && word_at(
            old(context).calldata@,
            4,
        ) < p256() - 1 ==> {
            &&& r matches Err(sig) && sig matches ReturnOrRevert::Return { start, length }
                && start@ == word_at(old(context).memory@, 0x40) && length@ == 32
            &&& word_at(final(context).memory@, word_at(old(context).memory@, 0x40)) == word_at(
                old(context).calldata@,
                4,
            ) + 1
            &&& forall|i: nat|
                !(word_at(old(context).memory@, 0x40) <= i < word_at(old(context).memory@, 0x40)
                    + 32) ==> #[trigger] byte_at(final(context).memory@, i) == byte_at(
                    old(context).memory@,
                    i,
                )
            &&& final(context).immutables == old(context).immutables
            &&& env_eq(*final(context), *old(context))
        },
{
    if to_bool(ops::callvalue(context)?)? {
        revert_error_ca66f745a3ce8ff40e2ccaf1ad45db7774001b90d25810abd9040049be7bf4bb(context)?;
    }
    let ghost cd = context.calldata@;
    let data_end = ops::calldatasize(context)?;
    proof {
        lemma_length_guard(cd.len() as nat);
    }
    let param_0 = abi_decode_tuple_t_uint256(Word::from_u64(4), data_end, context)?;
    let ret_0 = fun_add_one_13(param_0, context)?;
    let mem_pos = allocate_unbounded(context)?;
    let mem_end = abi_encode_tuple_t_uint256__to_t_uint256__fromStack(mem_pos, ret_0, context)?;
    let length = ops::sub(mem_end, mem_pos, context)?;
    proof {
        assert(length@ == 32);
    }
    ops::return_(mem_pos, length, context)?;
    Ok(())
}

/// The signed comparison in the tuple decoder sees the calldata length
/// minus four as negative exactly when the calldata is shorter than the
/// selector, and as less than 32 exactly when it is shorter than 36 bytes.
proof fn lemma_length_guard(len: nat)
    requires
        len <= usize::MAX,
    ensures
        as_int(sub_wrap(len, 4)) < 32 <==> len < 36,
{
    if len >= 4 {
        assert(sub_wrap(len, 4) == len - 4);
    } else {
        assert(sub_wrap(len, 4) == len + p256() - 4);
        assert(len + p256() - 4 >= p255());
    }
}

/// The contract's entry point: dispatch the call and halt with exactly one
/// signal.  Calldata without a 4-byte selector, an unknown selector, or a
/// nonzero call value reverts with an empty payload; the add-one handler
/// returns its encoded result, or the arithmetic panic payload on overflow.
pub fn entrypoint<CI>(context: &mut Context<CI>) -> (r: YulOutput<()>)
    ensures
        old(context).calldata@.len() < 4 ==> {
            &&& r matches Err(sig) && sig matches ReturnOrRevert::Revert { start, length }
                && start@ == 0 && length@ == 0
        },
        old(context).calldata@.len() >= 4 && word_at(old(context).calldata@, 0) / pow2(224)
            != add_one_selector() ==> {
            &&& r matches Err(sig) && sig matches ReturnOrRevert::Revert { start, length }
                && start@ == 0 && length@ == 0
        },
        old(context).calldata@.len() >= 4 && word_at(old(context).calldata@, 0) / pow2(224)
            == add_one_selector() && old(context).callvalue@ != 0 ==> {
            &&& r matches Err(sig) && sig matches ReturnOrRevert::Revert { start, length }
                && start@ == 0 && length@ == 0
        },
        old(context).calldata@.len() >= 4 && word_at(old(context).calldata@, 0) / pow2(224)
            == add_one_selector() && old(context).callvalue@ == 0 && old(
            context,
        ).calldata@.len() < 36 ==> {
            &&& r matches Err(sig) && sig matches ReturnOrRevert::Revert { start, length }
                && start@ == 0 && length@ == 0
        },
        old(context).calldata@.len() >= 36 && word_at(old(context).calldata@, 0) / pow2(224)
            == add_one_selector() && old(context).callvalue@ == 0 && word_at(
            old(context).calldata@,
            4,
        ) == p256() - 1 ==> {
            &&& r matches Err(sig) && sig matches ReturnOrRevert::Revert { start, length }
                && start@ == 0 && length@ == 0x24
            &&& read_bytes(final(context).memory@, 0, 0x24) == panic_payload(0x11)
            &&& forall|i: nat|
                !(i < 0x24) && !(0x40 <= i < 0x60) ==> #[trigger] byte_at(
                    final(context).memory@,
                    i,
                ) == byte_at(old(context).memory@, i)
        },
        old(context).calldata@.len() >= 36 && word_at(old(context).calldata@, 0) / pow2(224)
            == add_one_selector() && old(context).callvalue@ == 0 && word_at(
            old(context).calldata@,
            4,
        ) < p256() - 1 ==> {
            &&& r matches Err(sig) && sig matches ReturnOrRevert::Return { start, length }
                && start@ == 0x80 && length@ == 32
            &&& word_at(final(context).memory@, 0x80) == word_at(old(context).calldata@, 4) + 1
            &&& word_at(final(context).memory@, 0x40) == 0x80
            &&& forall|i: nat|
                !(0x40 <= i < 0x60) && !(0x80 <= i < 0xa0) ==> #[trigger] byte_at(
                    final(context).memory@,
                    i,
                ) == byte_at(old(context).memory@, i)
        },
        final(context).immutables == old(context).immutables,
        env_eq(*final(context), *old(context)),
{
    let guard = ops::memoryguard(Word::from_u64(0x80), context)?;
    ops::mstore(Word::from_u64(0x40), guard, context)?;
    let ghost mem1 = context.memory@;
    proof {
        assert(word_at(mem1, 0x40) == 0x80);
    }
    if to_bool(
        ops::iszero(ops::lt(ops::calldatasize(context)?, Word::from_u64(4), context)?, context)?,
    )? {
        let selector = shift_right_224_unsigned(ops::calldataload(Word::zero(), context)?, context)?;
        let target = Word::from_limbs(0xdde38a34, 0, 0, 0);
        if selector == target {
            proof {
                assert(selector@ == add_one_selector());
            }
            let result = external_fun_add_one_13(context);
            proof {
                let cd = old(context).calldata@;
                crate::bytes::lemma_be_val_bound(read_bytes(cd, 4, 32));
                crate::word::lemma_powers();
                assert(word_at(cd, 4) < p256());
                if old(context).callvalue@ == 0 && cd.len() >= 36 && word_at(cd, 4) < p256()
                    - 1 {
                    assert(read_bytes(context.memory@, 0x40, 32) =~= read_bytes(mem1, 0x40, 32));
                }
            }
            result?;
        }
        proof {
            assert(selector@ != add_one_selector()) by {
                crate::word::lemma_view_injective(selector, target);
            }
        }
    }
    revert_error_42b3090547df1d2001c96683413b8cf91c1b902ef5e3cb8d9f6f304cf7446f74(context)?;
    Ok(())
}

} // verus!
