//! The per-call execution context.
//!
//! A `Context` bundles the environment data of one call (address, caller,
//! value, gas, timestamp, chain id, calldata), the call's own memory, the
//! write-once immutable store, and a capability for external interactions.
//! The capability is a trait the host implements; its spec functions let a
//! host state exactly what its implementation returns.

use vstd::prelude::*;
use crate::memory::Memory;
use crate::word::Word;

verus! {

/// The halting outcome of a call: a success or failure signal carrying a
/// memory byte range as the call's output.  Once produced it propagates
/// unchanged to the call's entry point.
#[derive(Clone, Copy, Debug, PartialEq, Eq, Structural)]
pub enum ReturnOrRevert {
    Return { start: Word, length: Word },
    Revert { start: Word, length: Word },
}

/// Every opcode yields a value or the signal that halts the whole call.
pub type YulOutput<A> = Result<A, ReturnOrRevert>;

/// Capability for interactions beyond the call's own state, supplied by the
/// host.  The spec functions name what an implementation returns, so code
/// built on a given host can be verified against that host's answers.
pub trait ContractInteractions {
    /// The balance this host reports for an address.
    spec fn balance_of(&self, address: nat) -> nat;

    /// The bytes an external call through this host returns.
    spec fn call_result(&self, gas: nat, to: nat, payload: Seq<u8>) -> Seq<u8>;

    /// Perform an external call.
    fn call(&self, gas: Word, to: Word, payload: &[u8]) -> (r: Vec<u8>)
        ensures
            r@ == self.call_result(gas@, to@, payload@),
    ;

    /// Look up the balance of an address.
    fn get_balance(&self, address: Word) -> (r: Word)
        ensures
            r@ == self.balance_of(address@),
    ;
}

/// Environment and state of one in-flight call.
#[derive(Debug)]
pub struct Context<CI> {
    pub contract_interactions: core::marker::PhantomData<CI>,
    pub memory: Memory,
    pub immutables: Vec<(Word, Word)>,
    pub address: Word,
    pub caller: Word,
    pub callvalue: Word,
    pub gas: Word,
    pub timestamp: Word,
    pub calldata: Vec<u8>,
    pub chain_id: Word,
}

/// The value an immutable store associates with a name: the most recently
/// inserted binding wins, and an absent name reads as zero.
pub open spec fn imm_lookup(entries: Seq<(Word, Word)>, name: nat) -> nat
    decreases entries.len(),
{
    if entries.len() == 0 {
        0
    } else if entries.last().0@ == name {
        entries.last().1@
    } else {
        imm_lookup(entries.drop_last(), name)
    }
}

/// A host that performs no external interactions: calls return no bytes and
/// every balance is zero.
#[derive(Debug)]
pub struct DummyContractInteractions;

impl ContractInteractions for Context<DummyContractInteractions> {
    open spec fn balance_of(&self, address: nat) -> nat {
        0
    }

    open spec fn call_result(&self, gas: nat, to: nat, payload: Seq<u8>) -> Seq<u8> {
        Seq::empty()
    }

    fn call(&self, _gas: Word, _to: Word, _payload: &[u8]) -> (r: Vec<u8>) {
        Vec::new()
    }

    fn get_balance(&self, _address: Word) -> (r: Word) {
        Word::zero()
    }
}

} // verus!
