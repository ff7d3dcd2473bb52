use std::marker::PhantomData;

use evm_core::abi;
use evm_core::bytes::from_hex;
use evm_core::context::{Context, ContractInteractions, DummyContractInteractions, ReturnOrRevert};
use evm_core::memory::Memory;
use evm_core::ops;
use evm_core::word::Word;

fn ctx_with(calldata: Vec<u8>, callvalue: Word) -> Context<DummyContractInteractions> {
    Context {
        contract_interactions: PhantomData,
        memory: Memory::new(),
        immutables: Vec::new(),
        address: Word::from_u64(0xabcd),
        caller: Word::from_u64(0x1234),
        callvalue,
        gas: Word::from_u64(100_000),
        timestamp: Word::from_u64(1_700_000_000),
        calldata,
        chain_id: Word::from_u64(1),
    }
}

fn ctx() -> Context<DummyContractInteractions> {
    ctx_with(Vec::new(), Word::zero())
}

fn w(x: u64) -> Word {
    Word::from_u64(x)
}

/// The 32-byte big-endian encoding of a small value.
fn be32(x: u64) -> Vec<u8> {
    let mut v = vec![0u8; 24];
    v.extend_from_slice(&x.to_be_bytes());
    v
}

#[test]
fn memory_store_then_load_round_trips() {
    let mut c = ctx();
    let val = Word::from_limbs(0x1122_3344, 0xdead_beef, 7, 0x8000_0000_0000_0001);
    ops::mstore(w(0x200), val, &mut c).unwrap();
    assert_eq!(ops::mload(w(0x200), &c).unwrap(), val);
    // A second store overwrites.
    ops::mstore(w(0x200), w(9), &mut c).unwrap();
    assert_eq!(ops::mload(w(0x200), &c).unwrap(), w(9));
    // An unaligned load sees the expected mix.
    ops::mstore(w(0x300), val, &mut c).unwrap();
    let shifted = ops::mload(w(0x2ff), &c).unwrap();
    assert_eq!(shifted, ops::shr(w(8), val, &c).unwrap());
}

#[test]
fn memory_reads_zero_when_never_written() {
    let c = ctx();
    assert_eq!(ops::mload(w(0x1000), &c).unwrap(), w(0));
    assert_eq!(c.memory.get_byte(12345), 0);
    // A load that straddles the end of the materialized store zero-fills.
    let mut c2 = ctx();
    ops::mstore8(w(0x100), w(0xff), &mut c2).unwrap();
    let loaded = ops::mload(w(0x100), &c2).unwrap();
    assert_eq!(loaded, ops::shl(w(248), w(0xff), &c2).unwrap());
}

#[test]
fn fresh_memory_has_free_pointer() {
    let c = ctx();
    assert_eq!(ops::mload(w(0x40), &c).unwrap(), w(0x80));
    assert_eq!(c.memory.get_byte(0x5f), 0x80);
    assert_eq!(c.memory.get_byte(0x5e), 0);
}

#[test]
fn mstore8_writes_one_byte() {
    let mut c = ctx();
    ops::mstore(w(0x80), Word::max(), &mut c).unwrap();
    ops::mstore8(w(0x80), w(0x1234), &mut c).unwrap();
    // Only the addressed byte changes, and only the value's low byte lands.
    assert_eq!(c.memory.get_byte(0x80), 0x34);
    assert_eq!(c.memory.get_byte(0x81), 0xff);
}

#[test]
fn keccak256_hashes_memory_range() {
    let mut c = ctx();
    // Keccak-256 of the empty input.
    let empty = ops::keccak256(w(0), w(0), &mut c).unwrap();
    let expected_empty =
        from_hex("c5d2460186f7233c927e7db2dcc703c0e500b653ca82273b7bfad8045d85a470");
    assert_eq!(empty, expected_empty);
    // Keccak-256 of 32 zero bytes, read from untouched memory.
    let zeros = ops::keccak256(w(0x1000), w(32), &mut c).unwrap();
    let expected_zeros =
        from_hex("290decd9548b62a8d60345a988386fc84ba6bc95484008f6362f93160ef3e563");
    assert_eq!(zeros, expected_zeros);
}

#[test]
fn from_hex_parses_digits() {
    assert_eq!(
        from_hex("0000000000000000000000000000000000000000000000000000000000000001"),
        Word::one()
    );
    assert_eq!(
        from_hex("ffffffffffffffffffffffffffffffffffffffffffffffffffffffffffffffff"),
        Word::max()
    );
    assert_eq!(
        from_hex("00000000000000000000000000000000000000000000000000000000DDE38A34"),
        w(0xdde38a34)
    );
}

#[test]
fn context_reads() {
    let c = ctx();
    assert_eq!(ops::gas(&c).unwrap(), w(100_000));
    assert_eq!(ops::address(&c).unwrap(), w(0xabcd));
    assert_eq!(ops::caller(&c).unwrap(), w(0x1234));
    assert_eq!(ops::callvalue(&c).unwrap(), w(0));
    assert_eq!(ops::chainid(&c).unwrap(), w(1));
    assert_eq!(ops::timestamp(&c).unwrap(), w(1_700_000_000));
    assert_eq!(ops::calldatasize(&c).unwrap(), w(0));
}

#[test]
fn dummy_interactions_answer_zero() {
    let c = ctx();
    assert_eq!(ops::balance(w(42), &c).unwrap(), w(0));
    assert_eq!(ops::selfbalance(&c).unwrap(), w(0));
    assert_eq!(c.call(w(1), w(2), &[3, 4]), Vec::<u8>::new());
}

#[test]
fn calldataload_zero_fills() {
    let mut data = vec![0u8; 3];
    data.extend_from_slice(&be32(0x55aa));
    let c = ctx_with(data, Word::zero());
    let loaded = ops::calldataload(w(3), &c).unwrap();
    assert_eq!(loaded, w(0x55aa));
    // Reading past the end pads with zero bytes on the right.
    let tail = ops::calldataload(w(4), &c).unwrap();
    assert_eq!(tail, ops::shl(w(8), w(0x55aa), &c).unwrap());
    // Reading far past the end gives zero.
    assert_eq!(ops::calldataload(w(1000), &c).unwrap(), w(0));
    assert_eq!(ops::calldataload(Word::max(), &c).unwrap(), w(0));
}

#[test]
fn calldatacopy_copies_and_zero_fills() {
    let c_data: Vec<u8> = vec![1, 2, 3, 4, 5];
    let mut c = ctx_with(c_data, Word::zero());
    ops::calldatacopy(w(0x100), w(2), w(6), &mut c).unwrap();
    assert_eq!(c.memory.get_byte(0x100), 3);
    assert_eq!(c.memory.get_byte(0x101), 4);
    assert_eq!(c.memory.get_byte(0x102), 5);
    assert_eq!(c.memory.get_byte(0x103), 0);
    assert_eq!(c.memory.get_byte(0x105), 0);
}

#[test]
fn immutables_set_and_load() {
    let mut c = ctx();
    assert_eq!(ops::loadimmutable(w(7), &c).unwrap(), w(0));
    ops::setimmutable(w(0), w(7), w(99), &mut c).unwrap();
    assert_eq!(ops::loadimmutable(w(7), &c).unwrap(), w(99));
    // A later binding shadows the earlier one.
    ops::setimmutable(w(0), w(7), w(100), &mut c).unwrap();
    assert_eq!(ops::loadimmutable(w(7), &c).unwrap(), w(100));
    ops::setimmutable(w(0), w(8), w(1), &mut c).unwrap();
    assert_eq!(ops::loadimmutable(w(7), &c).unwrap(), w(100));
    assert_eq!(ops::loadimmutable(w(9), &c).unwrap(), w(0));
}

#[test]
fn staticcall_and_memoryguard_are_stubs() {
    let mut c = ctx();
    assert_eq!(
        ops::staticcall(w(1), w(2), w(3), w(4), w(5), w(6), &c).unwrap(),
        Word::one()
    );
    assert_eq!(ops::memoryguard(w(0x80), &mut c).unwrap(), w(0x80));
}

#[test]
fn return_and_revert_halt() {
    let mut c = ctx();
    let r = ops::return_::<DummyContractInteractions>(w(0x80), w(32), &mut c);
    assert_eq!(
        r.unwrap_err(),
        ReturnOrRevert::Return { start: w(0x80), length: w(32) }
    );
    let v = ops::revert::<DummyContractInteractions>(w(0), w(0), &mut c);
    assert_eq!(
        v.unwrap_err(),
        ReturnOrRevert::Revert { start: w(0), length: w(0) }
    );
}

#[test]
fn abi_decode_round_trips_encoded_value() {
    // Encoding a uint256 is its 32 big-endian bytes after the selector;
    // decoding the tuple yields the original value.
    let value = Word::from_limbs(0x1234, 0, 99, 1);
    let mut data = vec![0xdd, 0xe3, 0x8a, 0x34];
    data.extend_from_slice(&value.to_be_bytes());
    let mut c = ctx_with(data, Word::zero());
    let len = ops::calldatasize(&c).unwrap();
    let decoded = abi::abi_decode_tuple_t_uint256(w(4), len, &mut c).unwrap();
    assert_eq!(decoded, value);
}

#[test]
fn abi_decode_rejects_short_tuple() {
    let data = vec![0xdd, 0xe3, 0x8a, 0x34, 1, 2, 3];
    let mut c = ctx_with(data, Word::zero());
    let len = ops::calldatasize(&c).unwrap();
    let r = abi::abi_decode_tuple_t_uint256(w(4), len, &mut c);
    assert_eq!(
        r.unwrap_err(),
        ReturnOrRevert::Revert { start: w(0), length: w(0) }
    );
}

#[test]
fn abi_encode_writes_one_slot() {
    let mut c = ctx();
    let tail = abi::abi_encode_tuple_t_uint256__to_t_uint256__fromStack(w(0x80), w(42), &mut c)
        .unwrap();
    assert_eq!(tail, w(0xa0));
    assert_eq!(ops::mload(w(0x80), &c).unwrap(), w(42));
    let mem_bytes = c.memory.load(w(0x80), w(32));
    assert_eq!(mem_bytes, be32(42));
}

#[test]
fn entrypoint_rejects_short_calldata() {
    // Fewer than 4 bytes of calldata always reverts with an empty payload.
    for len in 0..4 {
        let mut c = ctx_with(vec![0xdd; len], Word::zero());
        let r = abi::entrypoint(&mut c);
        assert_eq!(
            r.unwrap_err(),
            ReturnOrRevert::Revert { start: w(0), length: w(0) }
        );
    }
}

#[test]
fn entrypoint_rejects_unknown_selector() {
    let mut data = vec![0xde, 0xad, 0xbe, 0xef];
    data.extend_from_slice(&be32(41));
    let mut c = ctx_with(data, Word::zero());
    let r = abi::entrypoint(&mut c);
    assert_eq!(
        r.unwrap_err(),
        ReturnOrRevert::Revert { start: w(0), length: w(0) }
    );
}

#[test]
fn entrypoint_rejects_nonzero_call_value() {
    let mut data = vec![0xdd, 0xe3, 0x8a, 0x34];
    data.extend_from_slice(&be32(41));
    let mut c = ctx_with(data, Word::one());
    let r = abi::entrypoint(&mut c);
    assert_eq!(
        r.unwrap_err(),
        ReturnOrRevert::Revert { start: w(0), length: w(0) }
    );
}

#[test]
fn entrypoint_dispatches_add_one() {
    // Selector 0xdde38a34 with the encoded argument 41 returns the encoded 42.
    let mut data = vec![0xdd, 0xe3, 0x8a, 0x34];
    data.extend_from_slice(&be32(41));
    let mut c = ctx_with(data, Word::zero());
    let r = abi::entrypoint(&mut c);
    assert_eq!(
        r.unwrap_err(),
        ReturnOrRevert::Return { start: w(0x80), length: w(32) }
    );
    let out = c.memory.load(w(0x80), w(32));
    assert_eq!(out, be32(42));
}

#[test]
fn entrypoint_add_one_overflow_panics() {
    // The argument 2^256 - 1 overflows: the revert payload is the 4-byte
    // panic selector followed by the 32-byte code 0x11.
    let mut data = vec![0xdd, 0xe3, 0x8a, 0x34];
    data.extend_from_slice(&Word::max().to_be_bytes());
    let mut c = ctx_with(data, Word::zero());
    let r = abi::entrypoint(&mut c);
    assert_eq!(
        r.unwrap_err(),
        ReturnOrRevert::Revert { start: w(0), length: w(0x24) }
    );
    let payload = c.memory.load(w(0), w(0x24));
    let mut expected = vec![0x4e, 0x48, 0x7b, 0x71];
    expected.extend_from_slice(&be32(0x11));
    assert_eq!(payload, expected);
}

#[test]
fn entrypoint_accepts_exactly_36_bytes_only() {
    // 35 bytes: selector matched but the tuple is short.
    let mut data = vec![0xdd, 0xe3, 0x8a, 0x34];
    data.extend_from_slice(&[0u8; 31]);
    let mut c = ctx_with(data, Word::zero());
    assert_eq!(
        abi::entrypoint(&mut c).unwrap_err(),
        ReturnOrRevert::Revert { start: w(0), length: w(0) }
    );
    // Extra calldata beyond the tuple is ignored.
    let mut data2 = vec![0xdd, 0xe3, 0x8a, 0x34];
    data2.extend_from_slice(&be32(1));
    data2.extend_from_slice(&[9u8; 10]);
    let mut c2 = ctx_with(data2, Word::zero());
    assert_eq!(
        abi::entrypoint(&mut c2).unwrap_err(),
        ReturnOrRevert::Return { start: w(0x80), length: w(32) }
    );
    assert_eq!(c2.memory.load(w(0x80), w(32)), be32(2));
}
