//! Packed entries that count allocated frames.
//!
//! The leaf allocator keeps one [`Entry2`] per region and one [`Entry1`] per
//! frame. As everywhere, a value changes only through transitions that give
//! the next value or reject.
use vstd::prelude::*;
use crate::atomic::AtomicValue;
use crate::Size;

verus! {

/// Largest value of a 20-bit counter.
pub const COUNT_MAX: usize = 0xf_ffff;

/// Frames of one subtree.
pub const SUBTREE: usize = 262144;

/// Entries of one table.
pub const LEN: usize = 512;

proof fn lemma_pack_counts(a: u64, b: u64, c: u64)
    by (bit_vector)
    requires
        a <= 0xf_ffff,
        b <= 0xf_ffff,
        c <= 0xf_ffff,
    ensures
        (a | (b << 20) | (c << 40)) & 0xf_ffff == a,
        ((a | (b << 20) | (c << 40)) >> 20) & 0xf_ffff == b,
        ((a | (b << 20) | (c << 40)) >> 40) & 0xf_ffff == c,
{
}

proof fn lemma_masks(v: u64)
    by (bit_vector)
    ensures
        v & 0xf_ffff <= 0xf_ffff,
        (v >> 20) & 0xf_ffff <= 0xf_ffff,
        (v >> 40) & 0xf_ffff <= 0xf_ffff,
        (v >> 20) & 3 <= 3,
        (v >> 23) & 0x1ff_ffff_ffff <= 0x1ff_ffff_ffff,
        v & 0x3ff <= 0x3ff,
        (v >> 10) & 0x1ff <= 0x1ff,
{
}

proof fn lemma_pack_entry3(p: u64, s: u64, r: u64, i: u64)
    by (bit_vector)
    requires
        p <= 0xf_ffff,
        s <= 3,
        r <= 1,
        i <= 0x1ff_ffff_ffff,
    ensures
        (p | (s << 20) | (r << 22) | (i << 23)) & 0xf_ffff == p,
        ((p | (s << 20) | (r << 22) | (i << 23)) >> 20) & 3 == s,
        ((p | (s << 20) | (r << 22) | (i << 23)) >> 22) & 1 == r,
        ((p | (s << 20) | (r << 22) | (i << 23)) >> 23) & 0x1ff_ffff_ffff == i,
{
}

proof fn lemma_zero_word()
    by (bit_vector)
    ensures
        0u64 & 0x3ff == 0,
        (0u64 >> 10) & 0x1ff == 0,
        (0u64 >> 19) & 1 == 0,
        (0u64 >> 20) & 1 == 0,
{
}

proof fn lemma_pack_entry2(p: u64, i: u64, h: u64, g: u64)
    by (bit_vector)
    requires
        p <= 0x3ff,
        i <= 0x1ff,
        h <= 1,
        g <= 1,
    ensures
        (p | (i << 10) | (h << 19) | (g << 20)) & 0x3ff == p,
        ((p | (i << 10) | (h << 19) | (g << 20)) >> 10) & 0x1ff == i,
        ((p | (i << 10) | (h << 19) | (g << 20)) >> 19) & 1 == h,
        ((p | (i << 10) | (h << 19) | (g << 20)) >> 20) & 1 == g,
{
}

/// The number that stands for a flag in a packed word.
pub open spec fn flag(b: bool) -> u64 {
    if b {
        1
    } else {
        0
    }
}

/// Frames of one unit of a size class.
pub open spec fn span_of(size: Size) -> nat {
    match size {
        Size::L0 => 1,
        Size::L1 => 512,
        Size::L2 => 262144,
    }
}

/// The number under which a size class is stored: one more than its level.
pub open spec fn size_number(size: Size) -> u8 {
    match size {
        Size::L0 => 1,
        Size::L1 => 2,
        Size::L2 => 3,
    }
}

fn span_exec(size: Size) -> (n: usize)
    ensures
        n == span_of(size),
{
    match size {
        Size::L0 => 1,
        Size::L1 => 512,
        Size::L2 => 262144,
    }
}

fn number_exec(size: Size) -> (n: u8)
    ensures
        n == size_number(size),
{
    match size {
        Size::L0 => 1,
        Size::L1 => 2,
        Size::L2 => 3,
    }
}

/// How many subtrees are in each state.
#[derive(Clone, Copy, Debug, PartialEq, Eq, Structural)]
pub struct Entry {
    /// Subtrees that a core holds or that are used up.
    pub full: usize,
    /// Subtrees partly used for single frames.
    pub partial_l0: usize,
    /// Subtrees partly used for regions.
    pub partial_l1: usize,
}

/// A decrement of the subtree counters.
#[derive(Clone, Copy, Debug, PartialEq, Eq, Structural)]
pub enum Dec {
    Unchanged,
    Full,
    FullPartialL0,
    FullPartialL1,
    PartialL0,
    PartialL1,
}

impl Entry {
    /// Each counter fits into 20 bits.
    pub open spec fn wf(self) -> bool {
        self.full <= COUNT_MAX && self.partial_l0 <= COUNT_MAX && self.partial_l1 <= COUNT_MAX
    }

    /// All counters zero.
    pub fn new() -> (e: Entry)
        ensures
            e == (Entry { full: 0, partial_l0: 0, partial_l1: 0 }),
            e.wf(),
    {
        Entry { full: 0, partial_l0: 0, partial_l1: 0 }
    }

    /// Turns a partial subtree of the given size into a full one, while fewer than `max` are full.
    pub fn reserve_partial(self, size: Size, max: usize) -> (r: Option<Entry>)
        requires
            self.wf(),
        ensures
            r == (if self.full < max && self.full < COUNT_MAX && size == Size::L0
                && self.partial_l0 > 0 {
                Some(
                    Entry {
                        full: (self.full + 1) as usize,
                        partial_l0: (self.partial_l0 - 1) as usize,
                        ..self
                    },
                )
            } else if self.full < max && self.full < COUNT_MAX && size == Size::L1
                && self.partial_l1 > 0 {
                Some(
                    Entry {
                        full: (self.full + 1) as usize,
                        partial_l1: (self.partial_l1 - 1) as usize,
                        ..self
                    },
                )
            } else {
                None
            }),
            r is Some ==> r.unwrap().wf(),
    {
        if self.full < max && self.full < COUNT_MAX {
            match size {
                Size::L0 => if self.partial_l0 > 0 {
                    Some(Entry { full: self.full + 1, partial_l0: self.partial_l0 - 1, ..self })
                } else {
                    None
                },
                Size::L1 => if self.partial_l1 > 0 {
                    Some(Entry { full: self.full + 1, partial_l1: self.partial_l1 - 1, ..self })
                } else {
                    None
                },
                Size::L2 => None,
            }
        } else {
            None
        }
    }

    /// Counts one more full subtree, while fewer than `max` are full.
    pub fn inc_full(self, max: usize) -> (r: Option<Entry>)
        requires
            self.wf(),
        ensures
            r == (if self.full < max && self.full < COUNT_MAX {
                Some(Entry { full: (self.full + 1) as usize, ..self })
            } else {
                None
            }),
            r is Some ==> r.unwrap().wf(),
    {
        if self.full < max && self.full < COUNT_MAX {
            Some(Entry { full: self.full + 1, ..self })
        } else {
            None
        }
    }

    /// What `dec` makes of the counters, where it applies.
    ///
    /// A counter at zero is not decremented and one at the top of its width
    /// is not incremented: both are rejected.
    pub open spec fn dec_spec(self, dec: Dec) -> Option<Entry> {
        match dec {
            Dec::Unchanged => None,
            Dec::Full => if self.full > 0 {
                Some(Entry { full: (self.full - 1) as usize, ..self })
            } else {
                None
            },
            Dec::PartialL0 => if self.partial_l0 > 0 {
                Some(Entry { partial_l0: (self.partial_l0 - 1) as usize, ..self })
            } else {
                None
            },
            Dec::PartialL1 => if self.partial_l1 > 0 {
                Some(Entry { partial_l1: (self.partial_l1 - 1) as usize, ..self })
            } else {
                None
            },
            Dec::FullPartialL0 => if self.full > 0 && self.partial_l0 < COUNT_MAX {
                Some(
                    Entry {
                        full: (self.full - 1) as usize,
                        partial_l0: (self.partial_l0 + 1) as usize,
                        ..self
                    },
                )
            } else {
                None
            },
            Dec::FullPartialL1 => if self.full > 0 && self.partial_l1 < COUNT_MAX {
                Some(
                    Entry {
                        full: (self.full - 1) as usize,
                        partial_l1: (self.partial_l1 + 1) as usize,
                        ..self
                    },
                )
            } else {
                None
            },
        }
    }

    /// Applies a decrement to the counters.
    pub fn dec(self, dec: Dec) -> (r: Option<Entry>)
        requires
            self.wf(),
        ensures
            r == self.dec_spec(dec),
            r is Some ==> r.unwrap().wf(),
    {
        match dec {
            Dec::Unchanged => None,
            Dec::Full => if self.full > 0 {
                Some(Entry { full: self.full - 1, ..self })
            } else {
                None
            },
            Dec::PartialL0 => if self.partial_l0 > 0 {
                Some(Entry { partial_l0: self.partial_l0 - 1, ..self })
            } else {
                None
            },
            Dec::PartialL1 => if self.partial_l1 > 0 {
                Some(Entry { partial_l1: self.partial_l1 - 1, ..self })
            } else {
                None
            },
            Dec::FullPartialL0 => if self.full > 0 && self.partial_l0 < COUNT_MAX {
                Some(Entry { full: self.full - 1, partial_l0: self.partial_l0 + 1, ..self })
            } else {
                None
            },
            Dec::FullPartialL1 => if self.full > 0 && self.partial_l1 < COUNT_MAX {
                Some(Entry { full: self.full - 1, partial_l1: self.partial_l1 + 1, ..self })
            } else {
                None
            },
        }
    }
}

impl AtomicValue for Entry {
    open spec fn valid(self) -> bool {
        self.wf()
    }

    open spec fn bits(self) -> u64 {
        (self.full as u64) | ((self.partial_l0 as u64) << 20) | ((self.partial_l1 as u64) << 40)
    }

    open spec fn of_bits(v: u64) -> Self {
        Entry {
            full: (v & 0xf_ffff) as usize,
            partial_l0: ((v >> 20) & 0xf_ffff) as usize,
            partial_l1: ((v >> 40) & 0xf_ffff) as usize,
        }
    }

    proof fn lemma_bits(self, v: u64) {
        lemma_masks(v);
        if self.valid() {
            lemma_pack_counts(self.full as u64, self.partial_l0 as u64, self.partial_l1 as u64);
        }
    }

    fn into_bits(self) -> (v: u64) {
        (self.full as u64) | ((self.partial_l0 as u64) << 20) | ((self.partial_l1 as u64) << 40)
    }

    fn from_bits(v: u64) -> (r: Self) {
        proof {
            lemma_masks(v);
        }
        Entry {
            full: (v & 0xf_ffff) as usize,
            partial_l0: ((v >> 20) & 0xf_ffff) as usize,
            partial_l1: ((v >> 40) & 0xf_ffff) as usize,
        }
    }
}

/// The descriptor of one subtree.
#[derive(Clone, Copy, Debug, PartialEq, Eq, Structural)]
pub struct Entry3 {
    /// Allocated frames in the subtree.
    pub pages: usize,
    /// The size class in use, stored as its level plus one; 0 while none is, 3 for a giant unit.
    pub size_n: u8,
    /// A core holds this subtree.
    pub reserved: bool,
    /// Free for the use of the list that holds the subtree.
    pub idx: usize,
}

impl Entry3 {
    /// Largest value of `idx`.
    pub const IDX_MAX: u64 = 0x1ff_ffff_ffff;

    /// `pages` fits into 20 bits, `size_n` into 2 and `idx` into 41.
    pub open spec fn wf(self) -> bool {
        self.pages <= COUNT_MAX && self.size_n <= 3 && self.idx as u64 <= Self::IDX_MAX
    }

    /// Nothing allocated, no size, no flag.
    pub fn new() -> (e: Entry3)
        ensures
            e == (Entry3 { pages: 0, size_n: 0, reserved: false, idx: 0 }),
            e.wf(),
    {
        Entry3 { pages: 0, size_n: 0, reserved: false, idx: 0 }
    }

    /// A subtree that is allocated as one giant unit.
    pub fn new_giant() -> (e: Entry3)
        ensures
            e == (Entry3 { pages: 0, size_n: 3, reserved: false, idx: 0 }),
            e.wf(),
    {
        Entry3 { pages: 0, size_n: 3, reserved: false, idx: 0 }
    }

    /// A subtree with `pages` allocated frames of the given size.
    pub fn new_table(pages: usize, size: Size, reserved: bool) -> (e: Entry3)
        requires
            pages <= COUNT_MAX,
        ensures
            e == (Entry3 { pages, size_n: size_number(size), reserved, idx: 0 }),
            e.wf(),
    {
        Entry3 { pages, size_n: number_exec(size), reserved, idx: 0 }
    }

    /// The size class in use.
    pub open spec fn size_spec(self) -> Option<Size> {
        if self.size_n == 1 {
            Some(Size::L0)
        } else if self.size_n == 2 {
            Some(Size::L1)
        } else if self.size_n == 3 {
            Some(Size::L2)
        } else {
            None
        }
    }

    /// The size class in use, if one is.
    pub fn size(self) -> (r: Option<Size>)
        ensures
            r == self.size_spec(),
    {
        if self.size_n == 1 {
            Some(Size::L0)
        } else if self.size_n == 2 {
            Some(Size::L1)
        } else if self.size_n == 3 {
            Some(Size::L2)
        } else {
            None
        }
    }

    /// The subtree can take units of this size: it is no giant unit and is unused or of this size.
    pub open spec fn accepts(self, size: Size) -> bool {
        self.size_n != 3 && (self.pages == 0 || self.size_spec() == Some(size))
    }

    /// One more unit of this size fits below `max` and into the subtree.
    pub open spec fn fits(self, size: Size, max: usize) -> bool {
        self.pages + span_of(size) <= SUBTREE && self.pages + span_of(size) <= max
    }

    fn accepts_exec(self, size: Size) -> (b: bool)
        ensures
            b == self.accepts(size),
    {
        self.size_n != 3 && (self.pages == 0 || self.size_n == number_exec(size))
    }

    fn fits_exec(self, size: Size, max: usize) -> (b: bool)
        requires
            self.wf(),
        ensures
            b == self.fits(size, max),
    {
        let pages = self.pages + span_exec(size);
        pages <= SUBTREE && pages <= max
    }

    /// Allocates one unit of this size and marks the subtree as held.
    pub fn inc(self, size: Size, max: usize) -> (r: Option<Entry3>)
        requires
            self.wf(),
        ensures
            r == (if self.accepts(size) && self.fits(size, max) {
                Some(
                    Entry3 {
                        pages: (self.pages + span_of(size)) as usize,
                        size_n: size_number(size),
                        reserved: true,
                        ..self
                    },
                )
            } else {
                None
            }),
            r is Some ==> r.unwrap().wf(),
    {
        if self.accepts_exec(size) && self.fits_exec(size, max) {
            Some(
                Entry3 {
                    pages: self.pages + span_exec(size),
                    size_n: number_exec(size),
                    reserved: true,
                    ..self
                },
            )
        } else {
            None
        }
    }

    /// As `inc`, for a subtree that nobody holds.
    pub fn inc_reserve(self, size: Size, max: usize) -> (r: Option<Entry3>)
        requires
            self.wf(),
        ensures
            r == (if !self.reserved && self.accepts(size) && self.fits(size, max) {
                Some(
                    Entry3 {
                        pages: (self.pages + span_of(size)) as usize,
                        size_n: size_number(size),
                        reserved: true,
                        ..self
                    },
                )
            } else {
                None
            }),
            r is Some ==> r.unwrap().wf(),
    {
        if self.reserved {
            return None;
        }
        self.inc(size, max)
    }

    /// What `dec` and `dec_idx` give once the link is accepted.
    pub open spec fn dec_spec(self, size: Size) -> Option<Entry3> {
        if self.size_n == 3 || self.size_spec() != Some(size) || self.pages < span_of(size) {
            None
        } else if self.pages == span_of(size) {
            Some(Entry3 { pages: 0, size_n: 0, ..self })
        } else {
            Some(Entry3 { pages: (self.pages - span_of(size)) as usize, ..self })
        }
    }

    /// Frees one unit of this size; a subtree that becomes unused forgets its size.
    pub fn dec(self, size: Size) -> (r: Option<Entry3>)
        requires
            self.wf(),
        ensures
            r == self.dec_spec(size),
            r is Some ==> r.unwrap().wf(),
    {
        if self.size_n == 3 || self.size_n != number_exec(size) {
            return None;
        }
        let span = span_exec(size);
        if self.pages < span {
            None
        } else if self.pages == span {
            Some(Entry3 { pages: 0, size_n: 0, ..self })
        } else {
            Some(Entry3 { pages: self.pages - span, ..self })
        }
    }

    /// As `dec`, for an entry whose `idx` is the given one.
    pub fn dec_idx(self, size: Size, idx: usize) -> (r: Option<Entry3>)
        requires
            self.wf(),
        ensures
            r == (if self.idx == idx {
                self.dec_spec(size)
            } else {
                None
            }),
            r is Some ==> r.unwrap().wf(),
    {
        if self.idx != idx {
            return None;
        }
        self.dec(size)
    }

    /// Marks a subtree as held that nobody holds and that can take one more unit.
    pub fn reserve(self, size: Size, max: usize) -> (r: Option<Entry3>)
        requires
            self.wf(),
        ensures
            r == (if !self.reserved && self.accepts(size) && self.fits(size, max) {
                Some(Entry3 { reserved: true, ..self })
            } else {
                None
            }),
            r is Some ==> r.unwrap().wf(),
    {
        if !self.reserved && self.accepts_exec(size) && self.fits_exec(size, max) {
            Some(Entry3 { reserved: true, ..self })
        } else {
            None
        }
    }

    /// Takes every frame that is left, up to `max`, for one core.
    pub fn reserve_fill(self, size: Size, max: usize) -> (r: Option<Entry3>)
        requires
            self.wf(),
        ensures
            r == (if self.accepts(size) && self.fits(size, max) {
                Some(
                    Entry3 {
                        pages: if max <= SUBTREE {
                            max
                        } else {
                            SUBTREE
                        },
                        size_n: size_number(size),
                        reserved: true,
                        ..self
                    },
                )
            } else {
                None
            }),
            r is Some ==> r.unwrap().wf(),
    {
        if self.accepts_exec(size) && self.fits_exec(size, max) {
            let top = if max <= SUBTREE { max } else { SUBTREE };
            Some(Entry3 { pages: top, size_n: number_exec(size), reserved: true, ..self })
        } else {
            None
        }
    }

    /// Allocates one more unit in a subtree of this size that is in use and that nobody holds.
    pub fn reserve_inc_partial(self, size: Size, max: usize) -> (r: Option<Entry3>)
        requires
            self.wf(),
        ensures
            r == (if !self.reserved && self.pages != 0 && self.size_spec() == Some(size)
                && self.fits(size, max) {
                Some(
                    Entry3 {
                        reserved: true,
                        pages: (self.pages + span_of(size)) as usize,
                        ..self
                    },
                )
            } else {
                None
            }),
            r is Some ==> r.unwrap().wf(),
    {
        if self.reserved || self.pages == 0 || self.size_n != number_exec(size) {
            return None;
        }
        if self.fits_exec(size, max) {
            Some(Entry3 { reserved: true, pages: self.pages + span_exec(size), ..self })
        } else {
            None
        }
    }

    /// Allocates the first unit in an unused subtree that nobody holds.
    pub fn reserve_inc_empty(self, size: Size, max: usize) -> (r: Option<Entry3>)
        requires
            self.wf(),
        ensures
            r == (if !self.reserved && self.size_n != 3 && self.pages == 0 && span_of(size)
                <= max {
                Some(
                    Entry3 {
                        size_n: size_number(size),
                        reserved: true,
                        pages: span_of(size) as usize,
                        ..self
                    },
                )
            } else {
                None
            }),
            r is Some ==> r.unwrap().wf(),
    {
        if !self.reserved && self.size_n != 3 && self.pages == 0 && span_exec(size) <= max {
            Some(
                Entry3 {
                    size_n: number_exec(size),
                    reserved: true,
                    pages: span_exec(size),
                    ..self
                },
            )
        } else {
            None
        }
    }

    /// Lets go of a held subtree and clears its link.
    pub fn unreserve(self) -> (r: Option<Entry3>)
        requires
            self.wf(),
        ensures
            r == (if self.size_n != 3 && self.reserved {
                Some(Entry3 { reserved: false, idx: 0, ..self })
            } else {
                None
            }),
            r is Some ==> r.unwrap().wf(),
    {
        if self.size_n != 3 && self.reserved {
            Some(Entry3 { reserved: false, idx: 0, ..self })
        } else {
            None
        }
    }

    /// The frames that stay allocated when a core hands back what it holds.
    ///
    /// The held entry was filled up to `min(max, SUBTREE)`; `other` is the
    /// core's own count, so what the core did not use is taken off.
    pub open spec fn unreserve_sub_pages(self, other: Entry3, max: usize) -> int {
        other.pages - ((if max <= SUBTREE {
            max as int
        } else {
            SUBTREE as int
        }) - self.pages)
    }

    /// Lets go of a held subtree and takes off the frames that the core (`other`) did not use.
    ///
    /// Rejected where nobody holds the subtree, where it is a giant unit,
    /// where the sizes differ, and where the counts do not fit each other.
    pub fn unreserve_sub(self, other: Entry3, max: usize) -> (r: Option<Entry3>)
        requires
            self.wf(),
            other.wf(),
        ensures
            r == (if self.reserved && self.size_n != 3 && self.size_n == other.size_n && 0
                <= self.unreserve_sub_pages(other, max) <= COUNT_MAX {
                Some(
                    Entry3 {
                        pages: self.unreserve_sub_pages(other, max) as usize,
                        reserved: false,
                        idx: 0,
                        ..self
                    },
                )
            } else {
                None
            }),
            r is Some ==> r.unwrap().wf(),
    {
        if self.reserved && self.size_n != 3 && self.size_n == other.size_n {
            let top = if max <= SUBTREE { max } else { SUBTREE };
            if top >= self.pages {
                let unused = top - self.pages;
                if other.pages >= unused {
                    return Some(
                        Entry3 { pages: other.pages - unused, reserved: false, idx: 0, ..self },
                    );
                }
            } else if other.pages + (self.pages - top) <= COUNT_MAX {
                return Some(
                    Entry3 {
                        pages: other.pages + (self.pages - top),
                        reserved: false,
                        idx: 0,
                        ..self
                    },
                );
            }
        }
        None
    }
}

impl AtomicValue for Entry3 {
    open spec fn valid(self) -> bool {
        self.wf()
    }

    open spec fn bits(self) -> u64 {
        (self.pages as u64) | ((self.size_n as u64) << 20) | (flag(self.reserved) << 22) | ((
        self.idx as u64) << 23)
    }

    open spec fn of_bits(v: u64) -> Self {
        Entry3 {
            pages: (v & 0xf_ffff) as usize,
            size_n: ((v >> 20) & 3) as u8,
            reserved: (v >> 22) & 1 == 1,
            idx: ((v >> 23) & 0x1ff_ffff_ffff) as usize,
        }
    }

    proof fn lemma_bits(self, v: u64) {
        lemma_masks(v);
        if self.valid() {
            lemma_pack_entry3(
                self.pages as u64,
                self.size_n as u64,
                flag(self.reserved),
                self.idx as u64,
            );
        }
    }

    fn into_bits(self) -> (v: u64) {
        let r: u64 = if self.reserved { 1 } else { 0 };
        (self.pages as u64) | ((self.size_n as u64) << 20) | (r << 22) | ((self.idx as u64) << 23)
    }

    fn from_bits(v: u64) -> (r: Self) {
        proof {
            lemma_masks(v);
        }
        Entry3 {
            pages: (v & 0xf_ffff) as usize,
            size_n: ((v >> 20) & 3) as u8,
            reserved: (v >> 22) & 1 == 1,
            idx: ((v >> 23) & 0x1ff_ffff_ffff) as usize,
        }
    }
}

/// The descriptor of one region.
#[derive(Clone, Copy, Debug, PartialEq, Eq, Structural)]
pub struct Entry2 {
    /// Allocated frames in the region.
    pub pages: usize,
    /// Where in the region its leaf table lies.
    pub i1: usize,
    /// The region is allocated as one unit.
    pub page: bool,
    /// The subtree that begins here is allocated as one giant unit.
    pub giant: bool,
}

impl Entry2 {
    /// `pages` fits into 10 bits and `i1` into 9.
    pub open spec fn wf(self) -> bool {
        self.pages <= 0x3ff && self.i1 < 512
    }

    /// The word zero holds the unused descriptor.
    pub proof fn lemma_zero()
        ensures
            <Entry2 as AtomicValue>::of_bits(0) == (Entry2 {
                pages: 0,
                i1: 0,
                page: false,
                giant: false,
            }),
    {
        lemma_zero_word();
    }

    /// Nothing allocated, table at the front, no flag.
    pub fn new() -> (e: Entry2)
        ensures
            e == (Entry2 { pages: 0, i1: 0, page: false, giant: false }),
            e.wf(),
    {
        Entry2 { pages: 0, i1: 0, page: false, giant: false }
    }

    /// A region with `pages` allocated frames whose leaf table lies at `i1`.
    pub fn new_table(pages: usize, i1: usize) -> (e: Entry2)
        requires
            pages <= 0x3ff,
            i1 < 512,
        ensures
            e == (Entry2 { pages, i1, page: false, giant: false }),
            e.wf(),
    {
        Entry2 { pages, i1, page: false, giant: false }
    }

    /// Allocates an unused region as one unit.
    pub fn mark_huge(self) -> (r: Option<Entry2>)
        ensures
            r == (if !self.giant && !self.page && self.pages == 0 {
                Some(Entry2 { pages: 0, i1: 0, page: true, giant: false })
            } else {
                None
            }),
            r is Some ==> r.unwrap().wf(),
    {
        if !self.giant && !self.page && self.pages == 0 {
            Some(Entry2 { pages: 0, i1: 0, page: true, giant: false })
        } else {
            None
        }
    }

    /// Counts one more allocated frame in a region whose leaf table lies at `i1`.
    pub fn inc(self, i1: usize) -> (r: Option<Entry2>)
        requires
            self.wf(),
        ensures
            r == (if !self.page && !self.giant && self.i1 == i1 && self.pages < LEN {
                Some(Entry2 { pages: (self.pages + 1) as usize, ..self })
            } else {
                None
            }),
            r is Some ==> r.unwrap().wf(),
    {
        if !self.page && !self.giant && self.i1 == i1 && self.pages < LEN {
            Some(Entry2 { pages: self.pages + 1, ..self })
        } else {
            None
        }
    }

    /// Counts one allocated frame less in a partly used region whose leaf table lies at `i1`.
    pub fn dec(self, i1: usize) -> (r: Option<Entry2>)
        requires
            self.wf(),
        ensures
            r == (if !self.giant && !self.page && i1 == self.i1 && 0 < self.pages < LEN {
                Some(Entry2 { pages: (self.pages - 1) as usize, ..self })
            } else {
                None
            }),
            r is Some ==> r.unwrap().wf(),
    {
        if !self.giant && !self.page && i1 == self.i1 && self.pages > 0 && self.pages < LEN {
            Some(Entry2 { pages: self.pages - 1, ..self })
        } else {
            None
        }
    }
}

impl AtomicValue for Entry2 {
    open spec fn valid(self) -> bool {
        self.wf()
    }

    open spec fn bits(self) -> u64 {
        (self.pages as u64) | ((self.i1 as u64) << 10) | (flag(self.page) << 19) | (flag(
            self.giant,
        ) << 20)
    }

    open spec fn of_bits(v: u64) -> Self {
        Entry2 {
            pages: (v & 0x3ff) as usize,
            i1: ((v >> 10) & 0x1ff) as usize,
            page: (v >> 19) & 1 == 1,
            giant: (v >> 20) & 1 == 1,
        }
    }

    proof fn lemma_bits(self, v: u64) {
        lemma_masks(v);
        if self.valid() {
            lemma_pack_entry2(
                self.pages as u64,
                self.i1 as u64,
                flag(self.page),
                flag(self.giant),
            );
        }
    }

    fn into_bits(self) -> (v: u64) {
        let p: u64 = if self.page { 1 } else { 0 };
        let g: u64 = if self.giant { 1 } else { 0 };
        (self.pages as u64) | ((self.i1 as u64) << 10) | (p << 19) | (g << 20)
    }

    fn from_bits(v: u64) -> (r: Self) {
        proof {
            lemma_masks(v);
        }
        Entry2 {
            pages: (v & 0x3ff) as usize,
            i1: ((v >> 10) & 0x1ff) as usize,
            page: (v >> 19) & 1 == 1,
            giant: (v >> 20) & 1 == 1,
        }
    }
}

/// The state of one frame in a leaf table.
#[derive(Clone, Copy, Debug, PartialEq, Eq, Structural)]
pub enum Entry1 {
    /// The frame is free.
    Empty,
    /// The frame is allocated.
    Page,
}

impl AtomicValue for Entry1 {
    open spec fn valid(self) -> bool {
        true
    }

    open spec fn bits(self) -> u64 {
        match self {
            Entry1::Empty => 0,
            Entry1::Page => 1,
        }
    }

    open spec fn of_bits(v: u64) -> Self {
        if v == 0 {
            Entry1::Empty
        } else {
            Entry1::Page
        }
    }

    proof fn lemma_bits(self, v: u64) {
    }

    fn into_bits(self) -> (v: u64) {
        match self {
            Entry1::Empty => 0,
            Entry1::Page => 1,
        }
    }

    fn from_bits(v: u64) -> (r: Self) {
        if v == 0 {
            Entry1::Empty
        } else {
            Entry1::Page
        }
    }
}

} // verus!
