//! Packed entries that count free frames.
//!
//! Every type here is one word with a few bounded counters and flags. A value
//! changes only through its transitions: each takes the value and either
//! gives the next one or rejects, and never gives a partly changed value.
use vstd::prelude::*;
use crate::atomic::AtomicValue;
use crate::Size;

verus! {

/// Largest value of a 20-bit counter.
pub const COUNT_MAX: usize = 0xf_ffff;

/// Packs three 20-bit counters into one word and reads them back.
proof fn lemma_pack_counts(a: u64, b: u64, c: u64)
    by (bit_vector)
    requires
        a <= 0xf_ffff,
        b <= 0xf_ffff,
        c <= 0xf_ffff,
    ensures
        (a | (b << 20) | (c << 40)) & 0xf_ffff == a,
        ((a | (b << 20) | (c << 40)) >> 20) & 0xf_ffff == b,
        ((a | (b << 20) | (c << 40)) >> 40) & 0xf_ffff == c,
{
}

/// A masked 20-bit field is within its width.
proof fn lemma_mask_count(v: u64)
    by (bit_vector)
    ensures
        v & 0xf_ffff <= 0xf_ffff,
        (v >> 20) & 0xf_ffff <= 0xf_ffff,
        (v >> 40) & 0xf_ffff <= 0xf_ffff,
        (v >> 20) & 0x3ff_ffff_ffff <= 0x3ff_ffff_ffff,
        v & 0x3f_ffff_ffff_ffff <= 0x3f_ffff_ffff_ffff,
        (v >> 54) & 0x1ff <= 0x1ff,
{
}

/// How many subtrees are in each state.
#[derive(Clone, Copy, Debug, PartialEq, Eq, Structural)]
pub struct Entry {
    /// Subtrees in which no frame is allocated.
    pub empty: usize,
    /// Subtrees in which at least one single frame is allocated.
    pub partial_l0: usize,
    /// Subtrees in which at least one region is allocated.
    pub partial_l1: usize,
}

/// A change to the subtree counters.
#[derive(Clone, Copy, Debug, PartialEq, Eq, Structural)]
pub enum Change {
    Unchanged,
    IncEmpty,
    IncPartialL0,
    IncPartialL1,
    DecPartialL0,
    DecPartialL1,
}

impl Change {
    /// The change that adds a partial subtree of the given kind.
    pub fn p_inc(huge: bool) -> (c: Change)
        ensures
            c == (if huge { Change::IncPartialL1 } else { Change::IncPartialL0 }),
    {
        if huge {
            Change::IncPartialL1
        } else {
            Change::IncPartialL0
        }
    }

    /// The change that turns a partial subtree of the given kind into an empty one.
    pub fn p_dec(huge: bool) -> (c: Change)
        ensures
            c == (if huge { Change::DecPartialL1 } else { Change::DecPartialL0 }),
    {
        if huge {
            Change::DecPartialL1
        } else {
            Change::DecPartialL0
        }
    }
}

impl Entry {
    /// Each counter fits into 20 bits.
    pub open spec fn wf(self) -> bool {
        self.empty <= COUNT_MAX && self.partial_l0 <= COUNT_MAX && self.partial_l1 <= COUNT_MAX
    }

    /// All counters zero.
    pub fn new() -> (e: Entry)
        ensures
            e == (Entry { empty: 0, partial_l0: 0, partial_l1: 0 }),
            e.wf(),
    {
        Entry { empty: 0, partial_l0: 0, partial_l1: 0 }
    }

    /// Takes one partial subtree of the given kind, if there is one.
    pub fn dec_partial(self, huge: bool) -> (r: Option<Entry>)
        requires
            self.wf(),
        ensures
            r == (if !huge && self.partial_l0 > 0 {
                Some(Entry { partial_l0: (self.partial_l0 - 1) as usize, ..self })
            } else if huge && self.partial_l1 > 0 {
                Some(Entry { partial_l1: (self.partial_l1 - 1) as usize, ..self })
            } else {
                None
            }),
            r is Some ==> r.unwrap().wf(),
    {
        if !huge && self.partial_l0 > 0 {
            Some(Entry { partial_l0: self.partial_l0 - 1, ..self })
        } else if huge && self.partial_l1 > 0 {
            Some(Entry { partial_l1: self.partial_l1 - 1, ..self })
        } else {
            None
        }
    }

    /// Takes one empty subtree, if there is one.
    pub fn dec_empty(self) -> (r: Option<Entry>)
        requires
            self.wf(),
        ensures
            r == (if self.empty > 0 {
                Some(Entry { empty: (self.empty - 1) as usize, ..self })
            } else {
                None
            }),
            r is Some ==> r.unwrap().wf(),
    {
        if self.empty > 0 {
            Some(Entry { empty: self.empty - 1, ..self })
        } else {
            None
        }
    }

    /// What `change` makes of the counters, where it applies.
    ///
    /// An increment is rejected where the counter is at the top of its width,
    /// a decrement where the counter is zero.
    pub open spec fn change_spec(self, change: Change) -> Option<Entry> {
        match change {
            Change::Unchanged => None,
            Change::IncEmpty => if self.empty < COUNT_MAX {
                Some(Entry { empty: (self.empty + 1) as usize, ..self })
            } else {
                None
            },
            Change::IncPartialL0 => if self.partial_l0 < COUNT_MAX {
                Some(Entry { partial_l0: (self.partial_l0 + 1) as usize, ..self })
            } else {
                None
            },
            Change::IncPartialL1 => if self.partial_l1 < COUNT_MAX {
                Some(Entry { partial_l1: (self.partial_l1 + 1) as usize, ..self })
            } else {
                None
            },
            Change::DecPartialL0 => if self.partial_l0 > 0 && self.empty < COUNT_MAX {
                Some(
                    Entry {
                        partial_l0: (self.partial_l0 - 1) as usize,
                        empty: (self.empty + 1) as usize,
                        ..self
                    },
                )
            } else {
                None
            },
            Change::DecPartialL1 => if self.partial_l1 > 0 && self.empty < COUNT_MAX {
                Some(
                    Entry {
                        partial_l1: (self.partial_l1 - 1) as usize,
                        empty: (self.empty + 1) as usize,
                        ..self
                    },
                )
            } else {
                None
            },
        }
    }

    /// Applies a change to the counters.
    pub fn change(self, change: Change) -> (r: Option<Entry>)
        requires
            self.wf(),
        ensures
            r == self.change_spec(change),
            r is Some ==> r.unwrap().wf(),
    {
        match change {
            Change::Unchanged => None,
            Change::IncEmpty => if self.empty < COUNT_MAX {
                Some(Entry { empty: self.empty + 1, ..self })
            } else {
                None
            },
            Change::IncPartialL0 => if self.partial_l0 < COUNT_MAX {
                Some(Entry { partial_l0: self.partial_l0 + 1, ..self })
            } else {
                None
            },
            Change::IncPartialL1 => if self.partial_l1 < COUNT_MAX {
                Some(Entry { partial_l1: self.partial_l1 + 1, ..self })
            } else {
                None
            },
            Change::DecPartialL0 => if self.partial_l0 > 0 && self.empty < COUNT_MAX {
                Some(Entry { partial_l0: self.partial_l0 - 1, empty: self.empty + 1, ..self })
            } else {
                None
            },
            Change::DecPartialL1 => if self.partial_l1 > 0 && self.empty < COUNT_MAX {
                Some(Entry { partial_l1: self.partial_l1 - 1, empty: self.empty + 1, ..self })
            } else {
                None
            },
        }
    }
}

impl AtomicValue for Entry {
    open spec fn valid(self) -> bool {
        self.wf()
    }

    open spec fn bits(self) -> u64 {
        (self.empty as u64) | ((self.partial_l0 as u64) << 20) | ((self.partial_l1 as u64) << 40)
    }

    open spec fn of_bits(v: u64) -> Self {
        Entry {
            empty: (v & 0xf_ffff) as usize,
            partial_l0: ((v >> 20) & 0xf_ffff) as usize,
            partial_l1: ((v >> 40) & 0xf_ffff) as usize,
        }
    }

    proof fn lemma_bits(self, v: u64) {
        lemma_mask_count(v);
        if self.valid() {
            lemma_pack_counts(self.empty as u64, self.partial_l0 as u64, self.partial_l1 as u64);
        }
    }

    fn into_bits(self) -> (v: u64) {
        (self.empty as u64) | ((self.partial_l0 as u64) << 20) | ((self.partial_l1 as u64) << 40)
    }

    fn from_bits(v: u64) -> (r: Self) {
        proof {
            lemma_mask_count(v);
        }
        Entry {
            empty: (v & 0xf_ffff) as usize,
            partial_l0: ((v >> 20) & 0xf_ffff) as usize,
            partial_l1: ((v >> 40) & 0xf_ffff) as usize,
        }
    }
}


/// Packs the fields of a subtree descriptor into one word and reads them back.
proof fn lemma_pack_entry3(f: u64, i: u64, r: u64, h: u64)
    by (bit_vector)
    requires
        f <= 0xf_ffff,
        i <= 0x3ff_ffff_ffff,
        r <= 1,
        h <= 1,
    ensures
        (f | (i << 20) | (r << 62) | (h << 63)) & 0xf_ffff == f,
        ((f | (i << 20) | (r << 62) | (h << 63)) >> 20) & 0x3ff_ffff_ffff == i,
        ((f | (i << 20) | (r << 62) | (h << 63)) >> 62) & 1 == r,
        ((f | (i << 20) | (r << 62) | (h << 63)) >> 63) & 1 == h,
{
}

/// Packs the fields of a region descriptor into one word and reads them back.
proof fn lemma_pack_entry2(f: u64, i: u64, p: u64)
    by (bit_vector)
    requires
        f <= 0x3f_ffff_ffff_ffff,
        i <= 0x1ff,
        p <= 1,
    ensures
        (f | (i << 54) | (p << 63)) & 0x3f_ffff_ffff_ffff == f,
        ((f | (i << 54) | (p << 63)) >> 54) & 0x1ff == i,
        ((f | (i << 54) | (p << 63)) >> 63) & 1 == p,
{
}

/// Packs the fields of a small region descriptor into one word and reads them back.
proof fn lemma_pack_small(f: u16, p: u16)
    by (bit_vector)
    requires
        f <= 0x7fff,
        p <= 1,
    ensures
        (f | (p << 15)) & 0x7fff == f,
        ((f | (p << 15)) >> 15) & 1 == p,
{
}

/// A masked 15-bit field is within its width.
proof fn lemma_mask_small(v: u16)
    by (bit_vector)
    ensures
        v & 0x7fff <= 0x7fff,
{
}

/// The number that stands for a flag in a packed word.
pub open spec fn flag(b: bool) -> u64 {
    if b {
        1
    } else {
        0
    }
}

/// The descriptor of one subtree.
#[derive(Clone, Copy, Debug, PartialEq, Eq, Structural)]
pub struct Entry3 {
    /// Free frames in the subtree.
    pub free: usize,
    /// The link to the next subtree while this one is in a list; free for other use otherwise.
    pub idx: usize,
    /// A core holds this subtree.
    pub reserved: bool,
    /// The subtree holds allocated regions.
    pub huge: bool,
}

impl Entry3 {
    /// Largest value of `idx`.
    pub const IDX_MAX: u64 = 0x3ff_ffff_ffff;

    /// `free` fits into 20 bits and `idx` into 42.
    pub open spec fn wf(self) -> bool {
        self.free <= COUNT_MAX && self.idx as u64 <= Self::IDX_MAX
    }

    /// No free frame, no link, no flag.
    pub fn new() -> (e: Entry3)
        ensures
            e == (Entry3 { free: 0, idx: 0, reserved: false, huge: false }),
            e.wf(),
    {
        Entry3 { free: 0, idx: 0, reserved: false, huge: false }
    }

    /// A subtree of `span` frames, all of them free.
    pub fn empty(span: usize) -> (e: Entry3)
        requires
            span <= COUNT_MAX,
        ensures
            e == (Entry3 { free: span, idx: 0, reserved: false, huge: false }),
            e.wf(),
    {
        Entry3 { free: span, idx: 0, reserved: false, huge: false }
    }

    /// A subtree with `pages` free frames that serves the given size.
    pub fn new_table(pages: usize, size: Size, reserved: bool) -> (e: Entry3)
        requires
            pages <= COUNT_MAX,
        ensures
            e == (Entry3 { free: pages, idx: 0, reserved, huge: size == Size::L1 }),
            e.wf(),
    {
        Entry3 { free: pages, idx: 0, reserved, huge: size == Size::L1 }
    }

    /// Takes `page_span` frames and marks the subtree as held.
    ///
    /// Applies where the subtree serves this size, or is wholly free (`span`
    /// frames), and has that many frames left.
    pub fn dec(self, page_span: usize, span: usize) -> (r: Option<Entry3>)
        requires
            self.wf(),
        ensures
            r == (if (self.huge == (page_span > 1) || self.free == span) && self.free
                >= page_span {
                Some(
                    Entry3 {
                        free: (self.free - page_span) as usize,
                        huge: page_span > 1,
                        reserved: true,
                        ..self
                    },
                )
            } else {
                None
            }),
            r is Some ==> r.unwrap().wf(),
    {
        let huge = page_span > 1;
        if (self.huge == huge || self.free == span) && self.free >= page_span {
            Some(Entry3 { free: self.free - page_span, huge, reserved: true, ..self })
        } else {
            None
        }
    }

    /// What `inc` and `inc_idx` give once the size and the link are accepted.
    pub open spec fn inc_spec(self, page_span: usize, max: usize) -> Option<Entry3> {
        if self.huge != (page_span > 1) || self.free + page_span > max {
            None
        } else if self.free + page_span == max {
            Some(Entry3 { free: max, huge: false, ..self })
        } else {
            Some(Entry3 { free: (self.free + page_span) as usize, ..self })
        }
    }

    /// Gives `page_span` frames back; a subtree that reaches `max` stops serving regions.
    pub fn inc(self, page_span: usize, max: usize) -> (r: Option<Entry3>)
        requires
            self.wf(),
            max <= COUNT_MAX,
        ensures
            r == self.inc_spec(page_span, max),
            r is Some ==> r.unwrap().wf(),
    {
        let huge = page_span > 1;
        if self.huge != huge || page_span > max || self.free > max - page_span {
            return None;
        }
        let pages = self.free + page_span;
        if pages == max {
            Some(Entry3 { free: max, huge: false, ..self })
        } else {
            Some(Entry3 { free: pages, ..self })
        }
    }

    /// As `inc`, for an entry whose `idx` is the given one.
    pub fn inc_idx(self, page_span: usize, idx: usize, max: usize) -> (r: Option<Entry3>)
        requires
            self.wf(),
            max <= COUNT_MAX,
        ensures
            r == (if self.idx == idx {
                self.inc_spec(page_span, max)
            } else {
                None
            }),
            r is Some ==> r.unwrap().wf(),
    {
        if self.idx != idx {
            return None;
        }
        self.inc(page_span, max)
    }

    /// Takes all free frames for one core.
    ///
    /// Applies where nobody holds the subtree, it serves this size or is
    /// wholly free, and has `page_span` frames left.
    pub fn reserve(self, page_span: usize, span: usize) -> (r: Option<Entry3>)
        requires
            self.wf(),
        ensures
            r == (if !self.reserved && (self.free >= span || self.huge == (page_span > 1))
                && self.free >= page_span {
                Some(Entry3 { free: 0, huge: page_span > 1, reserved: true, ..self })
            } else {
                None
            }),
            r is Some ==> r.unwrap().wf(),
    {
        let huge = page_span > 1;
        if !self.reserved && (self.free >= span || self.huge == huge) && self.free >= page_span {
            Some(Entry3 { free: 0, huge, reserved: true, ..self })
        } else {
            None
        }
    }

    /// Takes all free frames of a subtree that is partly used for this size.
    pub fn reserve_partial(self, huge: bool, min: usize, span: usize) -> (r: Option<Entry3>)
        requires
            self.wf(),
        ensures
            r == (if !self.reserved && min < self.free < span && self.huge == huge {
                Some(Entry3 { free: 0, huge, reserved: true, ..self })
            } else {
                None
            }),
            r is Some ==> r.unwrap().wf(),
    {
        if !self.reserved && self.free > min && self.free < span && self.huge == huge {
            Some(Entry3 { free: 0, huge, reserved: true, ..self })
        } else {
            None
        }
    }

    /// Takes all free frames of a subtree that is wholly free.
    pub fn reserve_empty(self, huge: bool, span: usize) -> (r: Option<Entry3>)
        requires
            self.wf(),
        ensures
            r == (if !self.reserved && self.free == span {
                Some(Entry3 { free: 0, huge, reserved: true, ..self })
            } else {
                None
            }),
            r is Some ==> r.unwrap().wf(),
    {
        if !self.reserved && self.free == span {
            Some(Entry3 { free: 0, huge, reserved: true, ..self })
        } else {
            None
        }
    }

    /// Lets go of a held subtree.
    pub fn unreserve(self) -> (r: Option<Entry3>)
        requires
            self.wf(),
        ensures
            r == (if self.reserved {
                Some(Entry3 { reserved: false, ..self })
            } else {
                None
            }),
            r is Some ==> r.unwrap().wf(),
    {
        if self.reserved {
            Some(Entry3 { reserved: false, ..self })
        } else {
            None
        }
    }

    /// Puts the frames that a core still holds (`other`) back and lets go of the subtree.
    ///
    /// Applies where the subtree is held, the sum stays within `max`, and
    /// each side serves this size or is wholly free.
    pub fn unreserve_add(self, huge: bool, other: Entry3, max: usize, span: usize) -> (r: Option<
        Entry3,
    >)
        requires
            self.wf(),
            other.wf(),
            max <= COUNT_MAX,
        ensures
            r == (if self.reserved && self.free + other.free <= max && (self.huge == huge
                || self.free == span) && (other.huge == huge || other.free == span) {
                Some(
                    Entry3 {
                        free: (self.free + other.free) as usize,
                        huge: huge && self.free + other.free < max,
                        reserved: false,
                        ..self
                    },
                )
            } else {
                None
            }),
            r is Some ==> r.unwrap().wf(),
    {
        let pages = self.free + other.free;
        if self.reserved && pages <= max && (self.huge == huge || self.free == span) && (other.huge
            == huge || other.free == span) {
            Some(Entry3 { free: pages, huge: huge && pages < max, reserved: false, ..self })
        } else {
            None
        }
    }
}

impl AtomicValue for Entry3 {
    open spec fn valid(self) -> bool {
        self.wf()
    }

    open spec fn bits(self) -> u64 {
        (self.free as u64) | ((self.idx as u64) << 20) | (flag(self.reserved) << 62) | (flag(
            self.huge,
        ) << 63)
    }

    open spec fn of_bits(v: u64) -> Self {
        Entry3 {
            free: (v & 0xf_ffff) as usize,
            idx: ((v >> 20) & 0x3ff_ffff_ffff) as usize,
            reserved: (v >> 62) & 1 == 1,
            huge: (v >> 63) & 1 == 1,
        }
    }

    proof fn lemma_bits(self, v: u64) {
        lemma_mask_count(v);
        if self.valid() {
            lemma_pack_entry3(
                self.free as u64,
                self.idx as u64,
                flag(self.reserved),
                flag(self.huge),
            );
        }
    }

    fn into_bits(self) -> (v: u64) {
        let r: u64 = if self.reserved { 1 } else { 0 };
        let h: u64 = if self.huge { 1 } else { 0 };
        (self.free as u64) | ((self.idx as u64) << 20) | (r << 62) | (h << 63)
    }

    fn from_bits(v: u64) -> (r: Self) {
        proof {
            lemma_mask_count(v);
        }
        Entry3 {
            free: (v & 0xf_ffff) as usize,
            idx: ((v >> 20) & 0x3ff_ffff_ffff) as usize,
            reserved: (v >> 62) & 1 == 1,
            huge: (v >> 63) & 1 == 1,
        }
    }
}

/// The descriptor of one region.
#[derive(Clone, Copy, Debug, PartialEq, Eq, Structural)]
pub struct Entry2 {
    /// Free frames in the region.
    pub free: usize,
    /// Where in the region its leaf table lies.
    pub i1: usize,
    /// The region is allocated as one unit.
    pub page: bool,
}

impl Entry2 {
    /// Largest value of `free`.
    pub const FREE_MAX: u64 = 0x3f_ffff_ffff_ffff;

    /// `free` fits into 54 bits and `i1` into 9.
    pub open spec fn wf(self) -> bool {
        self.free as u64 <= Self::FREE_MAX && self.i1 < 512
    }

    /// No free frame, table at the front, not allocated as a unit.
    pub fn new() -> (e: Entry2)
        ensures
            e == (Entry2 { free: 0, i1: 0, page: false }),
            e.wf(),
    {
        Entry2 { free: 0, i1: 0, page: false }
    }

    /// A region with `pages` free frames whose leaf table lies at `i1`.
    pub fn new_table(pages: usize, i1: usize) -> (e: Entry2)
        requires
            pages as u64 <= Self::FREE_MAX,
            i1 < 512,
        ensures
            e == (Entry2 { free: pages, i1, page: false }),
            e.wf(),
    {
        Entry2 { free: pages, i1, page: false }
    }

    /// Allocates a wholly free region (`span` frames) as one unit.
    pub fn mark_huge(self, span: usize) -> (r: Option<Entry2>)
        ensures
            r == (if !self.page && self.free == span {
                Some(Entry2 { free: 0, i1: 0, page: true })
            } else {
                None
            }),
            r is Some ==> r.unwrap().wf(),
    {
        if !self.page && self.free == span {
            Some(Entry2 { free: 0, i1: 0, page: true })
        } else {
            None
        }
    }

    /// Takes one frame of a region whose leaf table lies at `i1`.
    pub fn dec(self, i1: usize) -> (r: Option<Entry2>)
        requires
            self.wf(),
        ensures
            r == (if !self.page && self.i1 == i1 && self.free > 0 {
                Some(Entry2 { free: (self.free - 1) as usize, ..self })
            } else {
                None
            }),
            r is Some ==> r.unwrap().wf(),
    {
        if !self.page && self.i1 == i1 && self.free > 0 {
            Some(Entry2 { free: self.free - 1, ..self })
        } else {
            None
        }
    }

    /// Gives one frame back to a partly used region whose leaf table lies at `i1`.
    pub fn inc_partial(self, i1: usize, span: usize) -> (r: Option<Entry2>)
        requires
            self.wf(),
            span as u64 <= Self::FREE_MAX,
        ensures
            r == (if !self.page && i1 == self.i1 && 0 < self.free < span {
                Some(Entry2 { free: (self.free + 1) as usize, ..self })
            } else {
                None
            }),
            r is Some ==> r.unwrap().wf(),
    {
        if !self.page && i1 == self.i1 && self.free > 0 && self.free < span {
            Some(Entry2 { free: self.free + 1, ..self })
        } else {
            None
        }
    }

    /// Gives one frame back to a region that is not wholly free.
    pub fn inc(self, span: usize) -> (r: Option<Entry2>)
        requires
            self.wf(),
            span as u64 <= Self::FREE_MAX,
        ensures
            r == (if !self.page && self.free < span {
                Some(Entry2 { free: (self.free + 1) as usize, ..self })
            } else {
                None
            }),
            r is Some ==> r.unwrap().wf(),
    {
        if !self.page && self.free < span {
            Some(Entry2 { free: self.free + 1, ..self })
        } else {
            None
        }
    }
}

impl AtomicValue for Entry2 {
    open spec fn valid(self) -> bool {
        self.wf()
    }

    open spec fn bits(self) -> u64 {
        (self.free as u64) | ((self.i1 as u64) << 54) | (flag(self.page) << 63)
    }

    open spec fn of_bits(v: u64) -> Self {
        Entry2 {
            free: (v & 0x3f_ffff_ffff_ffff) as usize,
            i1: ((v >> 54) & 0x1ff) as usize,
            page: (v >> 63) & 1 == 1,
        }
    }

    proof fn lemma_bits(self, v: u64) {
        lemma_mask_count(v);
        if self.valid() {
            lemma_pack_entry2(self.free as u64, self.i1 as u64, flag(self.page));
        }
    }

    fn into_bits(self) -> (v: u64) {
        let p: u64 = if self.page { 1 } else { 0 };
        (self.free as u64) | ((self.i1 as u64) << 54) | (p << 63)
    }

    fn from_bits(v: u64) -> (r: Self) {
        proof {
            lemma_mask_count(v);
        }
        Entry2 {
            free: (v & 0x3f_ffff_ffff_ffff) as usize,
            i1: ((v >> 54) & 0x1ff) as usize,
            page: (v >> 63) & 1 == 1,
        }
    }
}

/// The descriptor of one region, in half a word and without a place for the leaf table.
#[derive(Clone, Copy, Debug, PartialEq, Eq, Structural)]
pub struct SmallEntry2 {
    /// Free frames in the region.
    pub free: usize,
    /// The region is allocated as one unit.
    pub page: bool,
}

impl SmallEntry2 {
    /// Largest value of `free`.
    pub const FREE_MAX: usize = 0x7fff;

    /// `free` fits into 15 bits.
    pub open spec fn wf(self) -> bool {
        self.free <= Self::FREE_MAX
    }

    /// No free frame, not allocated as a unit.
    pub fn new() -> (e: SmallEntry2)
        ensures
            e == (SmallEntry2 { free: 0, page: false }),
            e.wf(),
    {
        SmallEntry2 { free: 0, page: false }
    }

    /// A region with `pages` free frames.
    pub fn new_table(pages: usize) -> (e: SmallEntry2)
        requires
            pages <= Self::FREE_MAX,
        ensures
            e == (SmallEntry2 { free: pages, page: false }),
            e.wf(),
    {
        SmallEntry2 { free: pages, page: false }
    }

    /// Allocates a wholly free region (`span` frames) as one unit.
    pub fn mark_huge(self, span: usize) -> (r: Option<SmallEntry2>)
        ensures
            r == (if !self.page && self.free == span {
                Some(SmallEntry2 { free: 0, page: true })
            } else {
                None
            }),
            r is Some ==> r.unwrap().wf(),
    {
        if !self.page && self.free == span {
            Some(SmallEntry2 { free: 0, page: true })
        } else {
            None
        }
    }

    /// Takes one frame.
    pub fn dec(self) -> (r: Option<SmallEntry2>)
        requires
            self.wf(),
        ensures
            r == (if !self.page && self.free > 0 {
                Some(SmallEntry2 { free: (self.free - 1) as usize, ..self })
            } else {
                None
            }),
            r is Some ==> r.unwrap().wf(),
    {
        if !self.page && self.free > 0 {
            Some(SmallEntry2 { free: self.free - 1, ..self })
        } else {
            None
        }
    }

    /// Gives one frame back to a partly used region.
    pub fn inc_partial(self, span: usize) -> (r: Option<SmallEntry2>)
        requires
            self.wf(),
            span <= Self::FREE_MAX,
        ensures
            r == (if !self.page && 0 < self.free < span {
                Some(SmallEntry2 { free: (self.free + 1) as usize, ..self })
            } else {
                None
            }),
            r is Some ==> r.unwrap().wf(),
    {
        if !self.page && self.free > 0 && self.free < span {
            Some(SmallEntry2 { free: self.free + 1, ..self })
        } else {
            None
        }
    }

    /// Gives one frame back to a region that is not wholly free.
    pub fn inc(self, span: usize) -> (r: Option<SmallEntry2>)
        requires
            self.wf(),
            span <= Self::FREE_MAX,
        ensures
            r == (if !self.page && self.free < span {
                Some(SmallEntry2 { free: (self.free + 1) as usize, ..self })
            } else {
                None
            }),
            r is Some ==> r.unwrap().wf(),
    {
        if !self.page && self.free < span {
            Some(SmallEntry2 { free: self.free + 1, ..self })
        } else {
            None
        }
    }

    /// The half word that holds this value.
    pub open spec fn bits(self) -> u16 {
        (self.free as u16) | ((if self.page { 1u16 } else { 0u16 }) << 15)
    }

    /// The value that a half word holds.
    pub open spec fn of_bits(v: u16) -> SmallEntry2 {
        SmallEntry2 { free: (v & 0x7fff) as usize, page: (v >> 15) & 1 == 1 }
    }

    /// Packing and reading back gives the same value.
    pub proof fn lemma_bits(self)
        requires
            self.wf(),
        ensures
            Self::of_bits(self.bits()) == self,
    {
        lemma_pack_small(self.free as u16, if self.page { 1u16 } else { 0u16 });
    }

    /// Packs the value.
    pub fn into_bits(self) -> (v: u16)
        requires
            self.wf(),
        ensures
            v == self.bits(),
    {
        let p: u16 = if self.page { 1 } else { 0 };
        (self.free as u16) | (p << 15)
    }

    /// Reads a half word.
    pub fn from_bits(v: u16) -> (r: SmallEntry2)
        ensures
            r == Self::of_bits(v),
            r.wf(),
    {
        proof {
            lemma_mask_small(v);
        }
        SmallEntry2 { free: (v & 0x7fff) as usize, page: (v >> 15) & 1 == 1 }
    }
}

/// The state of one frame in a leaf table.
#[derive(Clone, Copy, Debug, PartialEq, Eq, Structural)]
pub enum Entry1 {
    /// The frame is free.
    Empty,
    /// The frame is allocated.
    Page,
}

impl AtomicValue for Entry1 {
    open spec fn valid(self) -> bool {
        true
    }

    open spec fn bits(self) -> u64 {
        match self {
            Entry1::Empty => 0,
            Entry1::Page => 1,
        }
    }

    open spec fn of_bits(v: u64) -> Self {
        if v == 0 {
            Entry1::Empty
        } else {
            Entry1::Page
        }
    }

    proof fn lemma_bits(self, v: u64) {
    }

    fn into_bits(self) -> (v: u64) {
        match self {
            Entry1::Empty => 0,
            Entry1::Page => 1,
        }
    }

    fn from_bits(v: u64) -> (r: Self) {
        if v == 0 {
            Entry1::Empty
        } else {
            Entry1::Page
        }
    }
}

} // verus!
