//! Values that fit into one machine word.
use vstd::prelude::*;

verus! {

/// A value that is stored as one 64-bit word.
///
/// `bits` packs a valid value into a word and `of_bits` reads any word back;
/// reading what was packed gives the value again.
pub trait AtomicValue: Copy + Sized {
    /// The fields are within their widths.
    spec fn valid(self) -> bool;

    /// The word that holds this value.
    spec fn bits(self) -> u64;

    /// The value that a word holds.
    spec fn of_bits(v: u64) -> Self;

    /// Packing and reading back gives the same value; every word reads as a valid value.
    proof fn lemma_bits(self, v: u64)
        ensures
            Self::of_bits(v).valid(),
            self.valid() ==> Self::of_bits(self.bits()) == self,
    ;

    /// Packs the value.
    fn into_bits(self) -> (v: u64)
        requires
            self.valid(),
        ensures
            v == self.bits(),
    ;

    /// Reads a word.
    fn from_bits(v: u64) -> (r: Self)
        ensures
            r == Self::of_bits(v),
            r.valid(),
    ;
}

impl AtomicValue for u64 {
    open spec fn valid(self) -> bool {
        true
    }

    open spec fn bits(self) -> u64 {
        self
    }

    open spec fn of_bits(v: u64) -> Self {
        v
    }

    proof fn lemma_bits(self, v: u64) {
    }

    fn into_bits(self) -> (v: u64) {
        self
    }

    fn from_bits(v: u64) -> (r: Self) {
        v
    }
}

} // verus!
