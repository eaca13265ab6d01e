//! A frame allocator for persistent memory.
//!
//! Frames are handed out in three granularities: single frames, regions of
//! [`table::PT_LEN`] frames and whole subtrees of `PT_LEN * PT_LEN` frames.
//! All bookkeeping lives in packed words that change only through total
//! transition functions, so that the state can be rebuilt after a restart.
//!
//! An allocator is a value that its holder changes: every operation runs
//! from a consistent state to a consistent state, and says exactly which
//! frames it allocates or frees. Cores that share an allocator take turns
//! at it, behind a lock of their choice; what each core holds for itself,
//! the subtree in which it allocates, keeps them apart in between.
use vstd::prelude::*;

pub mod array_unaligned;
pub mod atomic;
pub mod entry;
pub mod free_entry;
pub mod leaf_alloc;
pub mod list_local;
pub mod llc;
pub mod table;
pub mod util;

verus! {

/// Size in bytes of one frame.
pub const PAGE_SIZE: usize = 4096;

/// Sentinel of a cleanly set up header.
pub const MAGIC: usize = 0xdead_beef;

/// Fewest frames that one core needs.
pub const MIN_PAGES: usize = 1024;

/// Most frames that one allocator manages.
pub const MAX_PAGES: usize = 134217728;

/// Granularity of an allocation.
#[derive(Clone, Copy, Debug, PartialEq, Eq, Structural)]
pub enum Size {
    /// A single frame.
    L0,
    /// A region: `PT_LEN` frames.
    L1,
    /// A subtree: `PT_LEN * PT_LEN` frames.
    L2,
}

/// Why an operation did not succeed.
#[derive(Clone, Copy, Debug, PartialEq, Eq, Structural)]
pub enum Error {
    /// Nothing is left that could satisfy the request.
    Memory,
    /// A word changed underneath the operation; the same call may be repeated.
    Retry,
    /// The address is misaligned, out of range or not allocated.
    Address,
    /// The range or the core count is unusable.
    Initialization,
    /// The stored state contradicts itself.
    Corruption,
}

impl Size {
    /// The level of the size class: 0, 1 or 2.
    pub open spec fn level(self) -> nat {
        match self {
            Size::L0 => 0,
            Size::L1 => 1,
            Size::L2 => 2,
        }
    }

    /// Number of frames that one unit of this size class covers.
    pub open spec fn span_spec(self) -> nat {
        table::span_spec(self.level())
    }

    /// Number of frames that one unit of this size class covers.
    pub fn span(self) -> (n: usize)
        ensures
            n == self.span_spec(),
    {
        match self {
            Size::L0 => table::span(0),
            Size::L1 => table::span(1),
            Size::L2 => table::span(2),
        }
    }
}

} // verus!
