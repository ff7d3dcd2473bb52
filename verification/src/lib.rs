//! Verified execution core for a 256-bit stack-machine instruction set.
//!
//! The crate provides the word arithmetic, byte-addressable memory,
//! call-context model, opcode library and ABI dispatch convention that a
//! compiled contract's entry point calls into.  Every operation is a plain,
//! total function whose exact semantics (wraparound arithmetic, saturating
//! shifts, zero-on-division-by-zero, two's-complement edge cases) are stated
//! in its contract and proved.

pub mod word;
pub mod arith;
pub mod bits;
pub mod bytes;
pub mod i256;
pub mod memory;
pub mod context;
pub mod ops;
pub mod abi;
