//! Byte-addressable linear memory.
//!
//! Memory is conceptually infinite and zero-filled: reading past the
//! materialized length yields zero, writing past it first extends the backing
//! store with zero bytes.  Contracts speak through [`byte_at`], which already
//! encodes the zero fill, so growing the store never changes what a read
//! observes.

use vstd::prelude::*;
use vstd::pervasive::VecAdditionalExecFns;
use crate::bytes::{byte_at, read_bytes};
use crate::word::Word;

verus! {

/// Read `length` bytes of a byte string starting at the given address,
/// with every position past the end reading as zero.
pub fn load_padded(data: &[u8], address: Word, length: usize) -> (r: Vec<u8>)
    ensures
        r@ == read_bytes(data@, address@, length as nat),
{
    let mut result: Vec<u8> = Vec::new();
    let len128: u128 = data.len() as u128;
    let small = address.limb2 == 0 && address.limb3 == 0;
    let base: u128 = address.limb1 as u128 * 0x1_0000_0000_0000_0000u128 + address.limb0 as u128;
    proof {
        if small {
            assert(address@ == base);
        } else {
            assert(address@ >= crate::word::p128());
        }
    }
    let mut i: usize = 0;
    while i < length
        invariant
            i <= length,
            result@.len() == i,
            len128 == data@.len(),
            len128 <= usize::MAX,
            small == (address@ < crate::word::p128()),
            small ==> address@ == base,
            forall|j: int| 0 <= j < i ==> result@[j] == byte_at(data@, (address@ + j) as nat),
        decreases length - i,
    {
        let b: u8 = if small && base < len128 && (i as u128) < len128 - base {
            let sum: u128 = base + i as u128;
            proof {
                assert(sum < len128);
            }
            data[sum as usize]
        } else {
            0
        };
        proof {
            if small && base < len128 && (i as u128) < len128 - base {
                assert(address@ + i < data@.len());
            } else {
                assert(address@ + i >= data@.len());
            }
        }
        result.push(b);
        i = i + 1;
    }
    proof {
        assert(result@ =~= read_bytes(data@, address@, length as nat));
    }
    result
}

/// The growable, zero-filled byte store owned by one in-flight call.
#[derive(Debug)]
pub struct Memory {
    inner: Vec<u8>,
}

impl View for Memory {
    type V = Seq<u8>;

    closed spec fn view(&self) -> Seq<u8> {
        self.inner@
    }
}

impl Memory {
    /// Fresh memory with the free-memory-pointer slot (the 32-byte slot at
    /// 0x40) initialized to 0x80.
    pub fn new() -> (r: Memory)
        ensures
            forall|i: nat| #[trigger] byte_at(r@, i) == (if i == 0x5f { 0x80u8 } else { 0u8 }),
    {
        let mut memory = Memory { inner: Vec::new() };
        memory.set_byte(0x40 + 0x20 - 1, 0x80);
        memory
    }

    /// The byte at an index, zero when the index was never written.
    pub fn get_byte(&self, index: usize) -> (r: u8)
        ensures
            r == byte_at(self@, index as nat),
    {
        if index < self.inner.len() {
            self.inner[index]
        } else {
            0
        }
    }

    /// Store one byte, extending the backing store with zeros as needed.
    pub fn set_byte(&mut self, index: usize, value: u8)
        ensures
            byte_at(final(self)@, index as nat) == value,
            forall|i: nat|
                i != index ==> #[trigger] byte_at(final(self)@, i) == byte_at(old(self)@, i),
    {
        while self.inner.len() <= index
            invariant
                forall|i: nat| #[trigger] byte_at(self.inner@, i) == byte_at(old(self).inner@, i),
            decreases index + 1 - self.inner.len(),
        {
            let ghost prev = self.inner@;
            self.inner.push(0);
            proof {
                assert(forall|i: nat| #[trigger] byte_at(self.inner@, i) == byte_at(prev, i));
            }
        }
        let ghost prev = self.inner@;
        self.inner.set(index, value);
        proof {
            assert(forall|i: nat|
                i != index ==> #[trigger] byte_at(self.inner@, i) == byte_at(prev, i));
        }
    }

    /// Read `length` bytes starting at `address`, zero past the end.
    pub fn load(&self, address: Word, length: Word) -> (r: Vec<u8>)
        requires
            length@ <= usize::MAX,
        ensures
            r@ == read_bytes(self@, address@, length@),
    {
        load_padded(self.inner.as_slice(), address, length.limb0 as usize)
    }

    /// Write a run of bytes starting at `address`, extending as needed.
    pub fn store(&mut self, address: Word, value: &[u8])
        requires
            address@ + value@.len() <= usize::MAX,
        ensures
            forall|j: int|
                0 <= j < value@.len() ==> #[trigger] byte_at(final(self)@, (address@ + j) as nat)
                    == value@[j],
            forall|i: nat|
                !(address@ <= i < address@ + value@.len()) ==> #[trigger] byte_at(final(self)@, i)
                    == byte_at(old(self)@, i),
    {
        let base: usize = address.limb0 as usize;
        proof {
            assert(address@ == base);
        }
        let mut i: usize = 0;
        while i < value.len()
            invariant
                i <= value@.len(),
                base == address@,
                base + value@.len() <= usize::MAX,
                forall|j: int|
                    0 <= j < i ==> #[trigger] byte_at(self@, (address@ + j) as nat) == value@[j],
                forall|k: nat|
                    !(address@ <= k < address@ + i) ==> #[trigger] byte_at(self@, k) == byte_at(
                        old(self)@,
                        k,
                    ),
            decreases value@.len() - i,
        {
            self.set_byte(base + i, value[i]);
            i = i + 1;
        }
    }
}

} // verus!
