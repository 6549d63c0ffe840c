//! Traits over byte buffers and the distance type used to address them from their newest byte.
use vstd::bytes::*;
use vstd::prelude::*;

use crate::raw::{self, prefix_len};

verus! {

/// Reading eight bytes at once, in little-endian order.
pub trait ReadU64: View<V = Seq<u8>> {
    /// The `u64` whose little-endian bytes are `self[index..index + 8]`.
    fn read_u64_unchecked(&self, index: usize) -> (r: u64)
        requires
            index + 8 <= self@.len(),
        ensures
            r == spec_u64_from_le_bytes(self@.subrange(index as int, index + 8)),
    ;
}

/// Writing eight bytes at once, in little-endian order.
pub trait WriteU64: View<V = Seq<u8>> {
    /// Stores the little-endian bytes of `src` at `self[index..index + 8]`.
    fn write_u64_unchecked(&mut self, src: u64, index: usize)
        requires
            index + 8 <= old(self)@.len(),
        ensures
            final(self)@.len() == old(self)@.len(),
            final(self)@.subrange(index as int, index + 8) == spec_u64_to_le_bytes(src),
            forall|i: int|
                0 <= i < old(self)@.len() && !(index <= i < index + 8) ==> final(self)@[i]
                    == old(self)@[i],
    ;
}

/// Comparing prefixes quickly.
pub trait FastCmp: View<V = Seq<u8>> {
    /// The number of leading bytes on which `self` and `other` agree.
    fn match_length(&self, other: &[u8]) -> (r: usize)
        ensures
            r == prefix_len(self@, other@),
    ;
}

impl ReadU64 for [u8] {
    fn read_u64_unchecked(&self, index: usize) -> (r: u64) {
        let _len = self.len();
        u64_from_le_bytes(&self[index..index + 8])
    }
}

impl WriteU64 for [u8] {
    fn write_u64_unchecked(&mut self, src: u64, index: usize) {
        let _len = self.len();
        let bytes = u64_to_le_bytes(src);
        let mut j: usize = 0;
        while j < 8
            invariant
                0 <= j <= 8,
                index + 8 <= self@.len(),
                self@.len() <= usize::MAX,
                bytes@ == spec_u64_to_le_bytes(src),
                bytes@.len() == 8,
                self@.len() == old(self)@.len(),
                forall|i: int| 0 <= i < j ==> self@[index + i] == bytes@[i],
                forall|i: int|
                    0 <= i < old(self)@.len() && !(index <= i < index + j) ==> self@[i]
                        == old(self)@[i],
            decreases 8 - j,
        {
            self[index + j] = bytes[j];
            j += 1;
        }
        assert(self@.subrange(index as int, index + 8) =~= bytes@);
    }
}

impl FastCmp for [u8] {
    fn match_length(&self, other: &[u8]) -> (r: usize) {
        raw::match_length(self, other)
    }
}

/// A buffer addressed by position, where a position may no longer be held.
pub trait Buffer {
    /// The buffer is well formed.
    spec fn spec_ok(&self) -> bool;

    /// The byte at `index`, if held.
    spec fn spec_get(&self, index: int) -> Option<u8>;

    /// The byte at `index`, if held.
    fn get(&self, index: usize) -> (r: Option<u8>)
        requires
            self.spec_ok(),
        ensures
            r == self.spec_get(index as int),
    ;
}

/// A distance back from the newest byte of a buffer: 0 is the byte written last.
#[derive(Debug, Clone, Copy, PartialEq, Eq, Structural)]
pub struct Distance(pub usize);

} // verus!
