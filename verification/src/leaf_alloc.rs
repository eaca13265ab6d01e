//! The allocator of single frames and regions inside the subtrees.
//!
//! Every region has one descriptor and one leaf table with a slot per frame.
//! The table lies in one frame of its region, the one at index `i1`; that
//! frame is handed out last, and the frame that is freed first from a full
//! region takes the table over.
use vstd::prelude::*;
use crate::atomic::AtomicValue;
use crate::entry::{Entry1, Entry2};
use crate::table::{Table, PT_LEN};
use crate::{Error, Size, MAX_PAGES};

verus! {

/// Number of allocated slots in a leaf table.
pub open spec fn count_pages(t: Seq<Entry1>) -> nat
    decreases t.len(),
{
    if t.len() == 0 {
        0
    } else {
        count_pages(t.drop_last()) + if t.last() == Entry1::Page {
            1nat
        } else {
            0nat
        }
    }
}

/// 1 for an allocated slot, 0 for a free one.
pub open spec fn weight(e: Entry1) -> int {
    if e == Entry1::Page {
        1
    } else {
        0
    }
}

/// No more slots are allocated than there are.
pub proof fn lemma_count_bound(t: Seq<Entry1>)
    ensures
        count_pages(t) <= t.len(),
    decreases t.len(),
{
    if t.len() > 0 {
        lemma_count_bound(t.drop_last());
    }
}

/// Writing one slot changes the count by the difference of the two values.
pub proof fn lemma_count_update(t: Seq<Entry1>, i: int, v: Entry1)
    requires
        0 <= i < t.len(),
    ensures
        count_pages(t.update(i, v)) == count_pages(t) - weight(t[i]) + weight(v),
    decreases t.len(),
{
    let u = t.update(i, v);
    if i == t.len() - 1 {
        assert(u.drop_last() =~= t.drop_last());
    } else {
        assert(u.drop_last() =~= t.drop_last().update(i, v));
        lemma_count_update(t.drop_last(), i, v);
    }
}

/// A table in which every slot but one is allocated has at most one free slot.
pub proof fn lemma_count_all_but(t: Seq<Entry1>, skip: int)
    requires
        forall|j: int| 0 <= j < t.len() && j != skip ==> t[j] == Entry1::Page,
    ensures
        count_pages(t) + 1 >= t.len(),
        !(0 <= skip < t.len()) ==> count_pages(t) == t.len(),
        0 <= skip < t.len() ==> count_pages(t) == t.len() - 1 + weight(t[skip]),
    decreases t.len(),
{
    if t.len() > 0 {
        lemma_count_all_but(t.drop_last(), skip);
    }
}

/// A table without an allocated slot counts zero.
pub proof fn lemma_count_none(t: Seq<Entry1>)
    requires
        forall|j: int| 0 <= j < t.len() ==> t[j] == Entry1::Empty,
    ensures
        count_pages(t) == 0,
    decreases t.len(),
{
    if t.len() > 0 {
        lemma_count_none(t.drop_last());
    }
}

/// A table that counts all its slots has no free slot.
pub proof fn lemma_count_full(t: Seq<Entry1>)
    requires
        count_pages(t) == t.len(),
    ensures
        forall|j: int| 0 <= j < t.len() ==> t[j] == Entry1::Page,
    decreases t.len(),
{
    if t.len() > 0 {
        lemma_count_bound(t.drop_last());
        lemma_count_full(t.drop_last());
        assert forall|j: int| 0 <= j < t.len() implies t[j] == Entry1::Page by {
            if j < t.len() - 1 {
                assert(t.drop_last()[j] == t[j]);
            }
        }
    }
}

/// A table that counts nothing has no allocated slot.
pub proof fn lemma_count_zero(t: Seq<Entry1>)
    requires
        count_pages(t) == 0,
    ensures
        forall|j: int| 0 <= j < t.len() ==> t[j] == Entry1::Empty,
    decreases t.len(),
{
    if t.len() > 0 {
        lemma_count_zero(t.drop_last());
        assert forall|j: int| 0 <= j < t.len() implies t[j] == Entry1::Empty by {
            if j < t.len() - 1 {
                assert(t.drop_last()[j] == t[j]);
            }
        }
    }
}

/// A table that counts all its slots but one, with slot `k` free, has no other free slot.
pub proof fn lemma_count_one_free(t: Seq<Entry1>, k: int)
    requires
        0 <= k < t.len(),
        t[k] == Entry1::Empty,
        count_pages(t) == t.len() - 1,
    ensures
        forall|j: int| 0 <= j < t.len() && j != k ==> t[j] == Entry1::Page,
{
    let u = t.update(k, Entry1::Page);
    lemma_count_update(t, k, Entry1::Page);
    lemma_count_full(u);
    assert forall|j: int| 0 <= j < t.len() && j != k implies t[j] == Entry1::Page by {
        assert(u[j] == t[j]);
    }
}

/// The position `d` steps after `from` in a round of `n` positions.
pub open spec fn wrap(from: int, d: int, n: int) -> int {
    (from + d) % n
}

/// The first hit at or after offset `k`, looking from `from` onwards and around the end.
pub open spec fn first_from(hits: Seq<bool>, from: int, k: nat) -> Option<int>
    decreases hits.len() - k,
{
    if k >= hits.len() {
        None
    } else if hits[wrap(from, k as int, hits.len() as int)] {
        Some(wrap(from, k as int, hits.len() as int))
    } else {
        first_from(hits, from, k + 1)
    }
}

/// A search that finds nothing has seen every position.
pub proof fn lemma_first_none(hits: Seq<bool>, from: int, k: nat)
    requires
        0 <= from < hits.len(),
        first_from(hits, from, k) is None,
    ensures
        forall|d: int| k <= d < hits.len() ==> !hits[#[trigger] wrap(from, d, hits.len() as int)],
    decreases hits.len() - k,
{
    if k < hits.len() {
        lemma_first_none(hits, from, k + 1);
    }
}

/// A search from offset zero that finds nothing means that there is no hit.
pub proof fn lemma_first_none_all(hits: Seq<bool>, from: int)
    requires
        0 <= from < hits.len(),
        first_from(hits, from, 0) is None,
    ensures
        forall|j: int| 0 <= j < hits.len() ==> !hits[j],
{
    lemma_first_none(hits, from, 0);
    let n = hits.len() as int;
    assert forall|j: int| 0 <= j < n implies !hits[j] by {
        let d = if j >= from {
            j - from
        } else {
            j - from + n
        };
        assert(0 <= d < n);
        if j >= from {
            vstd::arithmetic::div_mod::lemma_small_mod((from + d) as nat, n as nat);
        } else {
            vstd::arithmetic::div_mod::lemma_mod_add_multiples_vanish(j, n);
            vstd::arithmetic::div_mod::lemma_small_mod(j as nat, n as nat);
        }
        assert(wrap(from, d, n) == j);
    }
}

/// The descriptor of a region that is allocated as one unit.
pub open spec fn huge_entry() -> Entry2 {
    Entry2 { pages: 0, i1: 0, page: true, giant: false }
}

/// The descriptor that marks a subtree as one giant unit.
pub open spec fn giant_entry() -> Entry2 {
    Entry2 { pages: 0, i1: 0, page: false, giant: true }
}

/// The descriptor of an unused region with its table at the front.
pub open spec fn fresh_entry() -> Entry2 {
    Entry2 { pages: 0, i1: 0, page: false, giant: false }
}

/// A descriptor and a leaf table fit each other.
///
/// A region that is allocated as a unit, or whose subtree is, has exactly the
/// marking descriptor. Any other region has at most `PT_LEN` allocated
/// frames; while it is not full, its table counts as many, and the slot of
/// the frame that holds the table is free.
pub open spec fn region_ok(e: Entry2, t: Seq<Entry1>) -> bool {
    &&& t.len() == PT_LEN
    &&& e.wf()
    &&& e.giant ==> e == giant_entry()
    &&& e.page ==> e == huge_entry()
    &&& e.pages <= PT_LEN
    &&& (!e.giant && !e.page && e.pages < PT_LEN) ==> count_pages(t) == e.pages && t[e.i1 as int]
        == Entry1::Empty
}

/// A region in which a single frame can be allocated.
pub open spec fn has_room(e: Entry2) -> bool {
    !e.page && !e.giant && e.pages < PT_LEN
}

/// A region that can be allocated as one unit.
pub open spec fn is_unused(e: Entry2) -> bool {
    !e.page && !e.giant && e.pages == 0
}

/// The slots of a leaf table that can be handed out: free, and not the table's own.
pub open spec fn free_slots(t: Seq<Entry1>, i1: int) -> Seq<bool> {
    Seq::new(t.len(), |j: int| j != i1 && t[j] == Entry1::Empty)
}

/// A table that counts fewer allocated slots than all but two has a slot to hand out.
pub proof fn lemma_slot_exists(t: Seq<Entry1>, i1: int, from: int)
    requires
        0 <= i1 < t.len(),
        0 <= from < t.len(),
        t[i1] == Entry1::Empty,
        count_pages(t) + 1 < t.len(),
    ensures
        first_from(free_slots(t, i1), from, 0) is Some,
{
    let hits = free_slots(t, i1);
    if first_from(hits, from, 0) is None {
        lemma_first_none_all(hits, from);
        assert forall|j: int| 0 <= j < t.len() && j != i1 implies t[j] == Entry1::Page by {
            assert(!hits[j]);
        }
        lemma_count_all_but(t, i1);
    }
}


/// A leaf table without an allocated slot.
pub open spec fn empty_table() -> Seq<Entry1> {
    Seq::new(PT_LEN as nat, |j: int| Entry1::Empty)
}

/// A leaf table in which only slot `k` is free.
pub open spec fn full_but(k: int) -> Seq<Entry1> {
    Seq::new(
        PT_LEN as nat,
        |j: int|
            if j == k {
                Entry1::Empty
            } else {
                Entry1::Page
            },
    )
}

/// Frames of one subtree.
pub const SUBTREE: usize = 262144;

/// The regions of the subtree that begins at region `base` in which a single frame can be allocated.
pub open spec fn room_hits(regions: Seq<Entry2>, base: int) -> Seq<bool> {
    Seq::new(PT_LEN as nat, |j: int| base + j < regions.len() && has_room(regions[base + j]))
}

/// The regions of the subtree that begins at region `base` that can be allocated as one unit.
pub open spec fn unused_hits(regions: Seq<Entry2>, base: int) -> Seq<bool> {
    Seq::new(PT_LEN as nat, |j: int| base + j < regions.len() && is_unused(regions[base + j]))
}

/// The number of the first region of the subtree that holds frame `page`.
pub open spec fn subtree_base(page: int) -> int {
    page / (SUBTREE as int) * (PT_LEN as int)
}

/// The marker of a core that is allocating in the region whose table lies in frame `page`.
pub open spec fn claim_of(page: usize) -> usize {
    !page
}

proof fn lemma_claim(page: usize)
    by (bit_vector)
    requires
        page <= 134217728,
    ensures
        !page != 0,
{
}

/// Frames that a descriptor counts as allocated.
pub open spec fn used(e: Entry2) -> nat {
    if e.page {
        PT_LEN as nat
    } else {
        e.pages as nat
    }
}

/// Frames that a run of descriptors counts as allocated.
pub open spec fn sum_used(s: Seq<Entry2>) -> nat
    decreases s.len(),
{
    if s.len() == 0 {
        0
    } else {
        sum_used(s.drop_last()) + used(s.last())
    }
}

/// One of the regions is allocated as a unit.
pub open spec fn any_huge(s: Seq<Entry2>) -> bool
    decreases s.len(),
{
    if s.len() == 0 {
        false
    } else {
        any_huge(s.drop_last()) || s.last().page
    }
}

/// One of the regions holds allocated single frames.
pub open spec fn any_small(s: Seq<Entry2>) -> bool
    decreases s.len(),
{
    if s.len() == 0 {
        false
    } else {
        any_small(s.drop_last()) || (!s.last().page && s.last().pages > 0)
    }
}

/// A run of valid descriptors counts at most `PT_LEN` frames for each.
pub proof fn lemma_sum_used_bound(s: Seq<Entry2>)
    requires
        forall|j: int| 0 <= j < s.len() ==> (#[trigger] s[j]).pages <= PT_LEN,
    ensures
        sum_used(s) <= s.len() * PT_LEN,
    decreases s.len(),
{
    if s.len() > 0 {
        lemma_sum_used_bound(s.drop_last());
        assert(sum_used(s) <= (s.len() - 1) * PT_LEN + PT_LEN);
        assert((s.len() - 1) * PT_LEN + PT_LEN == s.len() * PT_LEN) by (nonlinear_arith);
    }
}

/// The descriptor that agrees with the leaf table: in a region that is not
/// full and not allocated as a unit, the count is that of the table.
pub open spec fn fixed(e: Entry2, t: Seq<Entry1>) -> Entry2 {
    if !e.page && !e.giant && e.pages < PT_LEN {
        Entry2 { pages: count_pages(t) as usize, ..e }
    } else {
        e
    }
}

/// A descriptor that a scan of its leaf table can set right.
///
/// Its flags are the plain marks, its count is at most `PT_LEN`, and the
/// slot of the frame that holds the table is free.
pub open spec fn deep_valid(e: Entry2, t: Seq<Entry1>) -> bool {
    &&& t.len() == PT_LEN
    &&& e.wf()
    &&& e.giant ==> e == giant_entry()
    &&& e.page ==> e == huge_entry()
    &&& e.pages <= PT_LEN
    &&& (!e.giant && !e.page && e.pages < PT_LEN) ==> t[e.i1 as int] == Entry1::Empty
}

/// A valid descriptor, set right, fits its leaf table.
pub proof fn lemma_fixed_ok(e: Entry2, t: Seq<Entry1>)
    requires
        deep_valid(e, t),
    ensures
        region_ok(fixed(e, t), t),
        region_ok(e, t) ==> fixed(e, t) == e,
{
    if !e.giant && !e.page && e.pages < PT_LEN {
        lemma_count_bound(t);
        if count_pages(t) == PT_LEN {
            lemma_count_update(t, e.i1 as int, Entry1::Page);
            lemma_count_bound(t.update(e.i1 as int, Entry1::Page));
        }
    }
}

/// Number of classes into which the regions are sorted by their free frames.
pub const BUCKETS: usize = 5;

/// Frames that a descriptor counts as free.
pub open spec fn free_of(e: Entry2) -> int {
    if e.page || e.giant || e.pages >= PT_LEN {
        0
    } else {
        PT_LEN - e.pages
    }
}

/// The class of a region by its free frames: 0 for a region without one,
/// else one more than the thirds of a region that are wholly free.
pub open spec fn bucket_of(e: Entry2) -> int {
    if free_of(e) == 0 {
        0
    } else {
        free_of(e) / ((PT_LEN / 3) as int) + 1
    }
}

/// Number of regions of the class among the descriptors.
pub open spec fn count_bucket(s: Seq<Entry2>, b: int) -> nat
    decreases s.len(),
{
    if s.len() == 0 {
        0
    } else {
        count_bucket(s.drop_last(), b) + if bucket_of(s.last()) == b {
            1nat
        } else {
            0nat
        }
    }
}

/// No class holds more regions than there are.
pub proof fn lemma_count_bucket_bound(s: Seq<Entry2>, b: int)
    ensures
        count_bucket(s, b) <= s.len(),
    decreases s.len(),
{
    if s.len() > 0 {
        lemma_count_bucket_bound(s.drop_last(), b);
    }
}

/// The class of a region by its free frames.
pub fn count_pte2(pte: Entry2) -> (b: usize)
    ensures
        b == bucket_of(pte),
        b < BUCKETS,
{
    let border = PT_LEN / 3;
    if pte.page || pte.giant || pte.pages >= PT_LEN {
        0
    } else {
        let free = PT_LEN - pte.pages;
        assert(free / border <= 3) by (nonlinear_arith)
            requires
                free <= 512,
                border == 170,
        ;
        free / border + 1
    }
}

/// The allocator below the subtree level: region descriptors and leaf tables.
pub struct LeafAllocator {
    begin: u64,
    pages: usize,
    pt2: Vec<Table<Entry2>>,
    pt1: Vec<Table<Entry1>>,
    alloc_pt1: Vec<usize>,
}

impl LeafAllocator {
    /// Number of frames; a multiple of `PT_LEN`.
    pub closed spec fn frames(&self) -> nat {
        self.pages as nat
    }

    /// Address of the first frame.
    pub closed spec fn base(&self) -> u64 {
        self.begin
    }

    /// Number of cores that allocate here.
    pub closed spec fn cores(&self) -> nat {
        self.alloc_pt1.len() as nat
    }

    /// The descriptors of the regions, by region number.
    pub closed spec fn regions(&self) -> Seq<Entry2> {
        Seq::new(
            (self.pages / PT_LEN) as nat,
            |r: int| self.pt2[r / (PT_LEN as int)]@[r % (PT_LEN as int)],
        )
    }

    /// The leaf tables of the regions, by region number.
    pub closed spec fn leaves(&self) -> Seq<Seq<Entry1>> {
        Seq::new((self.pages / PT_LEN) as nat, |r: int| self.pt1[r]@)
    }

    /// The markers of the cores: zero for a core that is not allocating.
    pub closed spec fn claims(&self) -> Seq<usize> {
        self.alloc_pt1@
    }

    /// No core is in the middle of an allocation.
    pub open spec fn quiet(&self) -> bool {
        forall|c: int| 0 <= c < self.claims().len() ==> #[trigger] self.claims()[c] == 0
    }

    /// The tables have their lengths.
    pub closed spec fn structure(&self) -> bool {
        &&& self.pages % PT_LEN == 0
        &&& self.pages <= MAX_PAGES
        &&& self.pt1.len() == self.pages / PT_LEN
        &&& self.pt2.len() == (self.pages / PT_LEN + PT_LEN - 1) / (PT_LEN as int)
        &&& forall|i: int| 0 <= i < self.pt1.len() ==> (#[trigger] self.pt1[i]).wf()
        &&& forall|i: int| 0 <= i < self.pt2.len() ==> (#[trigger] self.pt2[i]).wf()
    }

    /// Every region's descriptor fits its leaf table.
    pub open spec fn wf(&self) -> bool {
        &&& self.structure()
        &&& self.quiet()
        &&& self.claims().len() == self.cores()
        &&& self.frames() % (PT_LEN as nat) == 0
        &&& self.frames() <= MAX_PAGES
        &&& self.regions().len() == self.frames() / (PT_LEN as nat)
        &&& self.leaves().len() == self.regions().len()
        &&& forall|r: int|
            0 <= r < self.regions().len() ==> region_ok(
                #[trigger] self.regions()[r],
                self.leaves()[r],
            )
        &&& forall|r: int|
            0 <= r < self.regions().len() && (#[trigger] self.regions()[r]).giant ==> r % (
            PT_LEN as int) == 0
    }

    /// What the structure says of the model's shape.
    pub proof fn lemma_shape(&self)
        requires
            self.structure(),
        ensures
            self.frames() % (PT_LEN as nat) == 0,
            self.frames() <= MAX_PAGES,
            self.regions().len() == self.frames() / (PT_LEN as nat),
            self.leaves().len() == self.regions().len(),
            forall|r: int| 0 <= r < self.leaves().len() ==> (#[trigger] self.leaves()[r]).len() == PT_LEN,
    {
    }

    /// Starts anew over the same tables: for `cores` cores, none of them allocating, from `begin` on.
    pub fn restart(&mut self, cores: usize, begin: u64)
        requires
            old(self).structure(),
        ensures
            final(self).structure(),
            final(self).quiet(),
            final(self).claims().len() == cores,
            final(self).cores() == cores,
            final(self).base() == begin,
            final(self).frames() == old(self).frames(),
            final(self).regions() == old(self).regions(),
            final(self).leaves() == old(self).leaves(),
            old(self).wf() ==> final(self).wf(),
    {
        let mut alloc_pt1: Vec<usize> = Vec::new();
        let mut c: usize = 0;
        while c < cores
            invariant
                c <= cores,
                alloc_pt1.len() == c,
                forall|k: int| 0 <= k < c ==> alloc_pt1[k] == 0,
            decreases cores - c,
        {
            alloc_pt1.push(0);
            c += 1;
        }
        self.alloc_pt1 = alloc_pt1;
        self.begin = begin;
        proof {
            assert(self.regions() =~= old(self).regions());
            assert(self.leaves() =~= old(self).leaves());
        }
    }

    /// Number of frames.
    pub fn pages(&self) -> (n: usize)
        ensures
            n == self.frames(),
    {
        self.pages
    }

    /// Number of cores that allocate here.
    pub fn cores_count(&self) -> (n: usize)
        ensures
            n == self.cores(),
    {
        self.alloc_pt1.len()
    }

    /// Address of the first frame.
    pub fn begin(&self) -> (a: u64)
        ensures
            a == self.base(),
    {
        self.begin
    }

    fn read2(&self, r: usize) -> (e: Entry2)
        requires
            self.structure(),
            r < self.regions().len(),
        ensures
            e == self.regions()[r as int],
            e.wf(),
    {
        self.pt2[r / PT_LEN].get(r % PT_LEN)
    }

    fn write2(&mut self, r: usize, e: Entry2)
        requires
            old(self).structure(),
            r < old(self).regions().len(),
            e.wf(),
        ensures
            final(self).structure(),
            final(self).regions() == old(self).regions().update(r as int, e),
            final(self).leaves() == old(self).leaves(),
            final(self).frames() == old(self).frames(),
            final(self).base() == old(self).base(),
            final(self).cores() == old(self).cores(),
            final(self).claims() == old(self).claims(),
    {
        self.pt2[r / PT_LEN].set(r % PT_LEN, e);
        assert(self.regions() =~= old(self).regions().update(r as int, e));
        assert(self.leaves() =~= old(self).leaves());
    }

    fn read1(&self, r: usize, j: usize) -> (e: Entry1)
        requires
            self.structure(),
            r < self.regions().len(),
            j < PT_LEN,
        ensures
            e == self.leaves()[r as int][j as int],
    {
        self.pt1[r].get(j)
    }

    fn write1(&mut self, r: usize, j: usize, e: Entry1)
        requires
            old(self).structure(),
            r < old(self).regions().len(),
            j < PT_LEN,
        ensures
            final(self).structure(),
            final(self).regions() == old(self).regions(),
            final(self).leaves() == old(self).leaves().update(
                r as int,
                old(self).leaves()[r as int].update(j as int, e),
            ),
            final(self).frames() == old(self).frames(),
            final(self).base() == old(self).base(),
            final(self).cores() == old(self).cores(),
            final(self).claims() == old(self).claims(),
    {
        self.pt1[r].set(j, e);
        assert(self.regions() =~= old(self).regions());
        assert(self.leaves() =~= old(self).leaves().update(
            r as int,
            old(self).leaves()[r as int].update(j as int, e),
        ));
    }

    fn clear1(&mut self, r: usize)
        requires
            old(self).structure(),
            r < old(self).regions().len(),
        ensures
            final(self).structure(),
            final(self).regions() == old(self).regions(),
            final(self).leaves() == old(self).leaves().update(r as int, empty_table()),
            final(self).frames() == old(self).frames(),
            final(self).base() == old(self).base(),
            final(self).cores() == old(self).cores(),
            final(self).claims() == old(self).claims(),
    {
        self.pt1[r].clear();
        assert(self.pt1[r as int]@ =~= empty_table());
        assert(self.regions() =~= old(self).regions());
        assert(self.leaves() =~= old(self).leaves().update(r as int, empty_table()));
    }

    /// An allocator for `cores` cores over the frames from `begin` on, with nothing allocated.
    ///
    /// Only whole regions are managed: of `pages` frames, those beyond the
    /// last multiple of `PT_LEN` stay unused.
    pub fn new(cores: usize, begin: u64, pages: usize) -> (s: Self)
        requires
            pages <= MAX_PAGES,
        ensures
            s.wf(),
            s.cores() == cores,
            s.base() == begin,
            s.frames() == pages - pages % PT_LEN,
            forall|r: int| 0 <= r < s.regions().len() ==> #[trigger] s.regions()[r] == fresh_entry(),
            forall|r: int| 0 <= r < s.leaves().len() ==> #[trigger] s.leaves()[r] == empty_table(),
    {
        let regions = pages / PT_LEN;
        let subtrees = (regions + PT_LEN - 1) / PT_LEN;
        let mut pt2: Vec<Table<Entry2>> = Vec::new();
        let mut pt1: Vec<Table<Entry1>> = Vec::new();
        let mut alloc_pt1: Vec<usize> = Vec::new();
        proof {
            Entry2::lemma_zero();
        }
        let mut i: usize = 0;
        while i < subtrees
            invariant
                i <= subtrees,
                pt2.len() == i,
                forall|k: int| 0 <= k < i ==> (#[trigger] pt2[k]).wf(),
                forall|k: int, j: int|
                    0 <= k < i && 0 <= j < PT_LEN ==> (#[trigger] pt2[k]@[j]) == fresh_entry(),
            decreases subtrees - i,
        {
            let t: Table<Entry2> = Table::empty();
            proof {
                Entry2::lemma_zero();
            }
            pt2.push(t);
            i += 1;
        }
        let mut r: usize = 0;
        while r < regions
            invariant
                r <= regions,
                pt1.len() == r,
                forall|k: int| 0 <= k < r ==> (#[trigger] pt1[k]).wf(),
                forall|k: int| 0 <= k < r ==> (#[trigger] pt1[k])@ =~= empty_table(),
            decreases regions - r,
        {
            let t: Table<Entry1> = Table::empty();
            pt1.push(t);
            r += 1;
        }
        let mut c: usize = 0;
        while c < cores
            invariant
                c <= cores,
                alloc_pt1.len() == c,
                forall|k: int| 0 <= k < c ==> alloc_pt1[k] == 0,
            decreases cores - c,
        {
            alloc_pt1.push(0);
            c += 1;
        }
        proof {
            vstd::arithmetic::div_mod::lemma_fundamental_div_mod(pages as int, PT_LEN as int);
        }
        let s = LeafAllocator { begin, pages: regions * PT_LEN, pt2, pt1, alloc_pt1 };
        proof {
            assert(s.pages / PT_LEN == regions);
            assert forall|r: int| 0 <= r < s.regions().len() implies #[trigger] s.regions()[r]
                == fresh_entry() by {
                assert(0 <= r / (PT_LEN as int) < subtrees);
            }
            assert forall|r: int| 0 <= r < s.regions().len() implies region_ok(
                #[trigger] s.regions()[r],
                s.leaves()[r],
            ) by {
                lemma_count_none(s.leaves()[r]);
            }
        }
        s
    }

    /// Frame `f` is allocated: as part of a giant unit or of a region, as one
    /// of the frames of a full region, or by its slot in the leaf table.
    pub open spec fn allocated(&self, f: int) -> bool {
        let r = f / (PT_LEN as int);
        ||| self.regions()[subtree_base(f)].giant
        ||| self.regions()[r].page
        ||| self.regions()[r].pages == PT_LEN
        ||| self.leaves()[r][f % (PT_LEN as int)] == Entry1::Page
    }

    /// The frames, the address and the cores are those of `other`.
    pub open spec fn same_range(&self, other: &Self) -> bool {
        self.frames() == other.frames() && self.base() == other.base() && self.cores()
            == other.cores()
    }

    /// The region in which `get` allocates when it starts at frame `start`: the first
    /// one with room, from the region of `start` on and around the end of its subtree.
    pub open spec fn get_region(&self, start: int) -> Option<int> {
        match first_from(
            room_hits(self.regions(), subtree_base(start)),
            (start / (PT_LEN as int)) % (PT_LEN as int),
            0,
        ) {
            Some(j) => Some(subtree_base(start) + j),
            None => None,
        }
    }

    /// The slot that `get` hands out in region `r` when it starts at frame `start`.
    ///
    /// In a region with one frame left this is the table's own slot. In any
    /// other it is the first free slot but the table's own, from the slot of
    /// `start` on if `start` lies in the region, else from the front.
    pub open spec fn get_slot(&self, start: int, r: int) -> int {
        let e = self.regions()[r];
        if e.pages == PT_LEN - 1 {
            e.i1 as int
        } else {
            first_from(
                free_slots(self.leaves()[r], e.i1 as int),
                if r == start / (PT_LEN as int) {
                    start % (PT_LEN as int)
                } else {
                    0
                },
                0,
            ).unwrap()
        }
    }

    fn set_claim(&mut self, core: usize, v: usize)
        requires
            core < old(self).claims().len(),
        ensures
            final(self).structure() == old(self).structure(),
            final(self).regions() == old(self).regions(),
            final(self).leaves() == old(self).leaves(),
            final(self).same_range(old(self)),
            final(self).claims() == old(self).claims().update(core as int, v),
    {
        self.alloc_pt1.set(core, v);
    }

    /// A core other than `core` has published `claim`.
    pub open spec fn claimed_elsewhere(&self, core: int, claim: usize) -> bool {
        exists|c: int|
            0 <= c < self.claims().len() && c != core && #[trigger] self.claims()[c] == claim
    }

    /// Whether a core other than `core` has published `claim`.
    fn claimed_by_other(&self, core: usize, claim: usize) -> (b: bool)
        ensures
            b == self.claimed_elsewhere(core as int, claim),
    {
        let mut c: usize = 0;
        while c < self.alloc_pt1.len()
            invariant
                c <= self.alloc_pt1.len(),
                forall|k: int| 0 <= k < c && k != core ==> self.alloc_pt1[k] != claim,
            decreases self.alloc_pt1.len() - c,
        {
            if c != core && self.alloc_pt1[c] == claim {
                assert(self.claims()[c as int] == claim);
                return true;
            }
            c += 1;
        }
        false
    }

    /// Hands out the first free slot of region `r` but the table's own, looking from slot `from` on.
    fn get_table(&mut self, i1: usize, r: usize, from: usize) -> (res: Result<usize, Error>)
        requires
            old(self).structure(),
            r < old(self).regions().len(),
            i1 < PT_LEN,
            from < PT_LEN,
        ensures
            final(self).structure(),
            final(self).same_range(old(self)),
            final(self).claims() == old(self).claims(),
            final(self).regions() == old(self).regions(),
            match first_from(free_slots(old(self).leaves()[r as int], i1 as int), from as int, 0) {
                Some(j) => res == Ok::<usize, Error>(j as usize) && 0 <= j < PT_LEN && j != i1
                    && old(self).leaves()[r as int][j] == Entry1::Empty && final(self).leaves()
                    == old(self).leaves().update(
                    r as int,
                    old(self).leaves()[r as int].update(j, Entry1::Page),
                ),
                None => res == Err::<usize, Error>(Error::Corruption) && final(self).leaves()
                    == old(self).leaves(),
            },
    {
        proof {
            self.lemma_shape();
        }
        let ghost hits = free_slots(self.leaves()[r as int], i1 as int);
        let mut k: usize = 0;
        while k < PT_LEN
            invariant
                k <= PT_LEN,
                self.structure(),
                r < self.regions().len(),
                i1 < PT_LEN,
                from < PT_LEN,
                *self == *old(self),
                hits == free_slots(self.leaves()[r as int], i1 as int),
                hits.len() == PT_LEN,
                first_from(hits, from as int, 0) == first_from(hits, from as int, k as nat),
            decreases PT_LEN - k,
        {
            let j = (from + k) % PT_LEN;
            assert(j == wrap(from as int, k as int, PT_LEN as int));
            if j != i1 {
                let e = self.read1(r, j);
                if e == Entry1::Empty {
                    assert(hits[j as int]);
                    self.write1(r, j, Entry1::Page);
                    return Ok(j);
                }
            }
            assert(!hits[j as int]);
            k += 1;
        }
        Err(Error::Corruption)
    }

    /// Hands out the frame that holds the leaf table of region `r`, the last one of the region.
    ///
    /// No other core may be allocating in the region at that moment:
    /// `Retry` says that one is.
    fn get_last(&mut self, core: usize, i1: usize, r: usize) -> (res: Result<usize, Error>)
        requires
            old(self).structure(),
            r < old(self).regions().len(),
            i1 < PT_LEN,
        ensures
            final(self).structure(),
            final(self).same_range(old(self)),
            final(self).claims() == old(self).claims(),
            final(self).regions() == old(self).regions(),
            old(self).claimed_elsewhere(core as int, claim_of((r * PT_LEN + i1) as usize)) ==> res == Err::<usize, Error>(Error::Retry) && final(self).leaves() == old(self).leaves(),
            !old(self).claimed_elsewhere(core as int, claim_of((r * PT_LEN + i1) as usize)) ==> if old(self).leaves()[r as int][i1 as int] == Entry1::Empty {
                res == Ok::<usize, Error>(i1) && final(self).leaves() == old(self).leaves().update(
                    r as int,
                    old(self).leaves()[r as int].update(i1 as int, Entry1::Page),
                )
            } else {
                res == Err::<usize, Error>(Error::Corruption) && final(self).leaves() == old(self).leaves()
            },
    {
        proof {
            self.lemma_shape();
        }
        let claim = !(r * PT_LEN + i1);
        if self.claimed_by_other(core, claim) {
            return Err(Error::Retry);
        }
        if self.read1(r, i1) != Entry1::Empty {
            return Err(Error::Corruption);
        }
        self.write1(r, i1, Entry1::Page);
        Ok(i1)
    }

    /// Allocating slot `slot` of region `r` makes its frame allocated, and no other.
    proof fn lemma_get_allocated(&self, after: &Self, r: int, slot: int)
        requires
            self.wf(),
            0 <= r < self.regions().len(),
            0 <= slot < PT_LEN,
            has_room(self.regions()[r]),
            self.leaves()[r][slot] == Entry1::Empty,
            after.frames() == self.frames(),
            after.regions() == self.regions().update(
                r,
                Entry2 { pages: (self.regions()[r].pages + 1) as usize, ..self.regions()[r] },
            ),
            after.leaves() == self.leaves().update(r, self.leaves()[r].update(slot, Entry1::Page)),
        ensures
            !self.allocated(r * PT_LEN + slot) || self.regions()[subtree_base(
                r * PT_LEN + slot,
            )].giant,
            forall|f: int|
                0 <= f < self.frames() ==> #[trigger] after.allocated(f) == (self.allocated(f) || f
                    == r * PT_LEN + slot),
    {
        let e = self.regions()[r];
        let t = self.leaves()[r];
        assert(region_ok(e, t));
        if e.pages == PT_LEN - 1 {
            lemma_count_one_free(t, e.i1 as int);
        }
        assert forall|f: int| 0 <= f < self.frames() implies #[trigger] after.allocated(f) == (
        self.allocated(f) || f == r * PT_LEN + slot) by {
            let q = f / (PT_LEN as int);
            let b = subtree_base(f);
            assert(0 <= b <= q < self.regions().len());
            assert(after.regions()[b].giant == self.regions()[b].giant);
            if q != r {
                assert(after.regions()[q] == self.regions()[q]);
                assert(after.leaves()[q] == self.leaves()[q]);
            }
        }
    }

    /// Allocating region `r` as a unit makes its frames allocated, and no others.
    proof fn lemma_get_huge_allocated(&self, after: &Self, r: int)
        requires
            self.wf(),
            0 <= r < self.regions().len(),
            is_unused(self.regions()[r]),
            after.frames() == self.frames(),
            after.regions() == self.regions().update(r, huge_entry()),
            after.leaves() == self.leaves(),
        ensures
            forall|f: int|
                r * PT_LEN <= f < r * PT_LEN + PT_LEN ==> self.regions()[subtree_base(
                    r * PT_LEN,
                )].giant || !#[trigger] self.allocated(f),
            forall|f: int|
                0 <= f < self.frames() ==> #[trigger] after.allocated(f) == (self.allocated(f) || r
                    * PT_LEN <= f < r * PT_LEN + PT_LEN),
    {
        let e = self.regions()[r];
        let t = self.leaves()[r];
        assert(region_ok(e, t));
        lemma_count_zero(t);
        assert forall|f: int| 0 <= f < self.frames() implies #[trigger] after.allocated(f) == (
        self.allocated(f) || r * PT_LEN <= f < r * PT_LEN + PT_LEN) by {
            let q = f / (PT_LEN as int);
            let b = subtree_base(f);
            assert(0 <= b <= q < self.regions().len());
            assert(after.regions()[b].giant == self.regions()[b].giant);
            if q != r {
                assert(after.regions()[q] == self.regions()[q]);
            }
        }
        assert forall|f: int| r * PT_LEN <= f < r * PT_LEN + PT_LEN implies self.regions()[subtree_base(
            r * PT_LEN,
        )].giant || !#[trigger] self.allocated(f) by {
            assert(f / (PT_LEN as int) == r);
            assert(subtree_base(f) == subtree_base(r * PT_LEN));
        }
    }

    /// Freeing the unit at frame `page` makes its frames free, and no others.
    proof fn lemma_put_allocated(&self, after: &Self, page: int, size: Size, e2: Entry2, t2: Seq<Entry1>)
        requires
            self.wf(),
            0 <= page < self.frames(),
            Self::put_spec(
                self.regions()[page / (PT_LEN as int)],
                self.leaves()[page / (PT_LEN as int)],
                page % (PT_LEN as int),
            ) == Ok::<(Size, Entry2, Seq<Entry1>), Error>((size, e2, t2)),
            after.frames() == self.frames(),
            after.regions() == self.regions().update(page / (PT_LEN as int), e2),
            after.leaves() == self.leaves().update(page / (PT_LEN as int), t2),
        ensures
            forall|f: int| page <= f < page + size.span_spec() ==> #[trigger] self.allocated(f),
            forall|f: int|
                0 <= f < self.frames() ==> #[trigger] after.allocated(f) == (self.allocated(f) && (
                self.regions()[subtree_base(f)].giant || !(page <= f < page + size.span_spec()))),
    {
        let r = page / (PT_LEN as int);
        let e = self.regions()[r];
        let t = self.leaves()[r];
        assert(region_ok(e, t));
        crate::table::lemma_spans();
        assert forall|f: int| 0 <= f < self.frames() implies #[trigger] after.allocated(f) == (
        self.allocated(f) && (self.regions()[subtree_base(f)].giant || !(page <= f < page
            + size.span_spec()))) by {
            let q = f / (PT_LEN as int);
            let b = subtree_base(f);
            assert(0 <= b <= q < self.regions().len());
            assert(after.regions()[b].giant == self.regions()[b].giant);
            if q != r {
                assert(after.regions()[q] == self.regions()[q]);
                assert(after.leaves()[q] == self.leaves()[q]);
            }
        }
        assert forall|f: int| page <= f < page + size.span_spec() implies #[trigger] self.allocated(
            f,
        ) by {
            assert(f / (PT_LEN as int) == r);
        }
    }

    /// Allocates a single frame in region `r`, which has room.
    fn get_in(&mut self, core: usize, start: usize, r: usize) -> (res: Result<usize, Error>)
        requires
            old(self).wf(),
            core < old(self).cores(),
            start < old(self).frames(),
            r < old(self).regions().len(),
            has_room(old(self).regions()[r as int]),
        ensures
            final(self).wf(),
            final(self).same_range(old(self)),
            ({
                let slot = old(self).get_slot(start as int, r as int);
                let e = old(self).regions()[r as int];
                &&& 0 <= slot < PT_LEN
                &&& old(self).leaves()[r as int][slot] == Entry1::Empty
                &&& res == Ok::<usize, Error>((r * PT_LEN + slot) as usize)
                &&& final(self).regions() == old(self).regions().update(
                    r as int,
                    Entry2 { pages: (e.pages + 1) as usize, ..e },
                )
                &&& final(self).leaves() == old(self).leaves().update(
                    r as int,
                    old(self).leaves()[r as int].update(slot, Entry1::Page),
                )
            }),
    {
        proof {
            self.lemma_shape();
        }
        let pte2 = self.read2(r);
        let ghost t = self.leaves()[r as int];
        assert(region_ok(self.regions()[r as int], t));
        let next = match pte2.inc(pte2.i1) {
            Some(next) => next,
            None => {
                return Err(Error::Corruption);
            },
        };
        proof {
            lemma_claim((r * PT_LEN + pte2.i1) as usize);
        }
        self.set_claim(core, !(r * PT_LEN + pte2.i1));
        self.write2(r, next);
        let found = if pte2.pages == PT_LEN - 1 {
            proof {
                assert forall|c: int|
                    0 <= c < self.claims().len() && c != core implies #[trigger] self.claims()[c]
                    != claim_of((r * PT_LEN + pte2.i1) as usize) by {
                    assert(old(self).claims()[c] == 0);
                }
            }
            self.get_last(core, pte2.i1, r)
        } else {
            let f = if r == start / PT_LEN {
                start % PT_LEN
            } else {
                0
            };
            proof {
                lemma_slot_exists(t, pte2.i1 as int, f as int);
            }
            self.get_table(pte2.i1, r, f)
        };
        self.set_claim(core, 0);
        assert(self.claims() =~= old(self).claims());
        match found {
            Ok(slot) => {
                proof {
                    lemma_count_update(t, slot as int, Entry1::Page);
                    assert forall|q: int| 0 <= q < self.regions().len() implies region_ok(
                        #[trigger] self.regions()[q],
                        self.leaves()[q],
                    ) by {
                        if q != r {
                            assert(region_ok(old(self).regions()[q], old(self).leaves()[q]));
                        }
                    }
                }
                Ok(r * PT_LEN + slot)
            },
            Err(e) => Err(e),
        }
    }

    /// Allocates a single frame in the subtree that holds frame `start`.
    ///
    /// The regions are tried from the one of `start` on, around the end of
    /// the subtree. `Corruption` says that no region of the subtree has room.
    pub fn get(&mut self, core: usize, start: usize) -> (res: Result<usize, Error>)
        requires
            old(self).wf(),
            core < old(self).cores(),
            start < old(self).frames(),
        ensures
            final(self).wf(),
            final(self).same_range(old(self)),
            match old(self).get_region(start as int) {
                Some(r) => {
                    let slot = old(self).get_slot(start as int, r);
                    let e = old(self).regions()[r];
                    &&& 0 <= r < old(self).regions().len()
                    &&& has_room(e)
                    &&& 0 <= slot < PT_LEN
                    &&& old(self).leaves()[r][slot] == Entry1::Empty
                    &&& res == Ok::<usize, Error>((r * PT_LEN + slot) as usize)
                    &&& final(self).regions() == old(self).regions().update(
                        r,
                        Entry2 { pages: (e.pages + 1) as usize, ..e },
                    )
                    &&& final(self).leaves() == old(self).leaves().update(
                        r,
                        old(self).leaves()[r].update(slot, Entry1::Page),
                    )
                    &&& subtree_base(r * PT_LEN + slot) == subtree_base(start as int)
                    &&& old(self).regions()[subtree_base(start as int)].giant || !old(self).allocated(r * PT_LEN + slot)
                    &&& forall|f: int|
                        0 <= f < old(self).frames() ==> #[trigger] final(self).allocated(f) == (old(self).allocated(f) || f == r * PT_LEN + slot)
                },
                None => res == Err::<usize, Error>(Error::Corruption) && final(self).regions()
                    == old(self).regions() && final(self).leaves() == old(self).leaves(),
            },
    {
        proof {
            self.lemma_shape();
        }
        let nregions = self.pages / PT_LEN;
        let base = start / SUBTREE * PT_LEN;
        let from = (start / PT_LEN) % PT_LEN;
        let ghost hits = room_hits(self.regions(), base as int);
        let mut k: usize = 0;
        while k < PT_LEN
            invariant
                k <= PT_LEN,
                *self == *old(self),
                self.wf(),
                core < self.cores(),
                start < self.frames(),
                nregions == self.regions().len(),
                base == subtree_base(start as int),
                base + PT_LEN <= MAX_PAGES,
                from == (start / PT_LEN) % PT_LEN,
                hits == room_hits(self.regions(), base as int),
                hits.len() == PT_LEN,
                first_from(hits, from as int, 0) == first_from(hits, from as int, k as nat),
            decreases PT_LEN - k,
        {
            let j = (from + k) % PT_LEN;
            assert(j == wrap(from as int, k as int, PT_LEN as int));
            let r = base + j;
            if r < nregions {
                let pte2 = self.read2(r);
                if !pte2.page && !pte2.giant && pte2.pages < PT_LEN {
                    assert(hits[j as int]);
                    let res = self.get_in(core, start, r);
                    proof {
                        let slot = old(self).get_slot(start as int, r as int);
                        old(self).lemma_get_allocated(&*self, r as int, slot);
                    }
                    return res;
                }
            }
            assert(!hits[j as int]);
            k += 1;
        }
        Err(Error::Corruption)
    }

    /// The region that `get_huge` allocates when it starts at frame `start`: the first
    /// unused one, from the region of `start` on and around the end of its subtree.
    pub open spec fn get_huge_region(&self, start: int) -> Option<int> {
        match first_from(
            unused_hits(self.regions(), subtree_base(start)),
            (start / (PT_LEN as int)) % (PT_LEN as int),
            0,
        ) {
            Some(j) => Some(subtree_base(start) + j),
            None => None,
        }
    }

    /// Allocates a region as one unit in the subtree that holds frame `start`, and gives
    /// its first frame.
    ///
    /// `Corruption` says that no region of the subtree is unused.
    pub fn get_huge(&mut self, start: usize) -> (res: Result<usize, Error>)
        requires
            old(self).wf(),
            start < old(self).frames(),
        ensures
            final(self).wf(),
            final(self).same_range(old(self)),
            final(self).leaves() == old(self).leaves(),
            match old(self).get_huge_region(start as int) {
                Some(r) => {
                    &&& 0 <= r < old(self).regions().len()
                    &&& is_unused(old(self).regions()[r])
                    &&& res == Ok::<usize, Error>((r * PT_LEN) as usize)
                    &&& final(self).regions() == old(self).regions().update(r, huge_entry())
                    &&& subtree_base(r * PT_LEN) == subtree_base(start as int)
                    &&& forall|f: int|
                        0 <= f < old(self).frames() ==> #[trigger] final(self).allocated(f) == (old(self).allocated(f) || r * PT_LEN <= f < r * PT_LEN + PT_LEN)
                    &&& forall|f: int|
                        r * PT_LEN <= f < r * PT_LEN + PT_LEN ==> old(self).regions()[subtree_base(
                            start as int,
                        )].giant || !#[trigger] old(self).allocated(f)
                },
                None => res == Err::<usize, Error>(Error::Corruption) && final(self).regions()
                    == old(self).regions(),
            },
    {
        proof {
            self.lemma_shape();
        }
        let nregions = self.pages / PT_LEN;
        let base = start / SUBTREE * PT_LEN;
        let from = (start / PT_LEN) % PT_LEN;
        let ghost hits = unused_hits(self.regions(), base as int);
        let mut k: usize = 0;
        while k < PT_LEN
            invariant
                k <= PT_LEN,
                *self == *old(self),
                self.wf(),
                start < self.frames(),
                nregions == self.regions().len(),
                base == subtree_base(start as int),
                base + PT_LEN <= MAX_PAGES,
                from == (start / PT_LEN) % PT_LEN,
                hits == unused_hits(self.regions(), base as int),
                hits.len() == PT_LEN,
                first_from(hits, from as int, 0) == first_from(hits, from as int, k as nat),
            decreases PT_LEN - k,
        {
            let j = (from + k) % PT_LEN;
            assert(j == wrap(from as int, k as int, PT_LEN as int));
            let r = base + j;
            if r < nregions {
                let pte2 = self.read2(r);
                match pte2.mark_huge() {
                    Some(next) => {
                        assert(hits[j as int]);
                        self.write2(r, next);
                        proof {
                            old(self).lemma_get_huge_allocated(&*self, r as int);
                            assert forall|q: int|
                                0 <= q < self.regions().len() implies region_ok(
                                #[trigger] self.regions()[q],
                                self.leaves()[q],
                            ) by {
                                if q != r {
                                    assert(region_ok(
                                        old(self).regions()[q],
                                        old(self).leaves()[q],
                                    ));
                                }
                            }
                        }
                        return Ok(r * PT_LEN);
                    },
                    None => {},
                }
            }
            assert(!hits[j as int]);
            k += 1;
        }
        Err(Error::Corruption)
    }

    /// Marks the subtree that holds frame `page` as one giant unit.
    ///
    /// The mark takes the place of the descriptor of the subtree's first region.
    pub fn persist(&mut self, page: usize)
        requires
            old(self).wf(),
            page < old(self).frames(),
        ensures
            final(self).wf(),
            final(self).same_range(old(self)),
            final(self).leaves() == old(self).leaves(),
            final(self).regions() == old(self).regions().update(
                subtree_base(page as int),
                giant_entry(),
            ),
            forall|f: int|
                0 <= f < old(self).frames() ==> #[trigger] final(self).allocated(f) == (if subtree_base(
                    f,
                ) == subtree_base(page as int) {
                    true
                } else {
                    old(self).allocated(f)
                }),
    {
        proof {
            self.lemma_shape();
        }
        let base = page / SUBTREE * PT_LEN;
        let marker = Entry2 { pages: 0, i1: 0, page: false, giant: true };
        self.write2(base, marker);
        proof {
            assert forall|f: int| 0 <= f < old(self).frames() implies #[trigger] self.allocated(f)
                == (if subtree_base(f) == subtree_base(page as int) {
                true
            } else {
                old(self).allocated(f)
            }) by {
                let q = f / (PT_LEN as int);
                let b = subtree_base(f);
                assert(0 <= b <= q < self.regions().len());
                if b != base {
                    assert(b % 512 == 0 && base % 512 == 0 && q - b < 512);
                    assert(q != base);
                    assert(self.regions()[q] == old(self).regions()[q]);
                    assert(self.regions()[b] == old(self).regions()[b]);
                }
            }
            assert forall|q: int| 0 <= q < self.regions().len() implies region_ok(
                #[trigger] self.regions()[q],
                self.leaves()[q],
            ) by {
                if q != base {
                    assert(region_ok(old(self).regions()[q], old(self).leaves()[q]));
                }
            }
        }
    }

    /// What `put` makes of the descriptor and the leaf table of the region of frame `page`.
    ///
    /// A region that is allocated as a unit is freed by its first frame. In
    /// a full region the freed frame takes over the leaf table, in which
    /// only its own slot is free. In any other region the frame's slot must
    /// be allocated, and becomes free.
    pub open spec fn put_spec(e: Entry2, t: Seq<Entry1>, slot: int) -> Result<
        (Size, Entry2, Seq<Entry1>),
        Error,
    > {
        if e.page {
            if slot != 0 {
                Err(Error::Address)
            } else {
                Ok((Size::L1, fresh_entry(), empty_table()))
            }
        } else if !e.giant && e.pages > 0 {
            if e.pages == PT_LEN {
                Ok(
                    (
                        Size::L0,
                        Entry2 {
                            pages: (PT_LEN - 1) as usize,
                            i1: slot as usize,
                            page: false,
                            giant: false,
                        },
                        full_but(slot),
                    ),
                )
            } else if t[slot] != Entry1::Page {
                Err(Error::Address)
            } else {
                Ok(
                    (
                        Size::L0,
                        Entry2 { pages: (e.pages - 1) as usize, ..e },
                        t.update(slot, Entry1::Empty),
                    ),
                )
            }
        } else {
            Err(Error::Address)
        }
    }

    /// Frees in a full region: the freed frame becomes the leaf table.
    fn put_full(&mut self, r: usize, slot: usize)
        requires
            old(self).structure(),
            r < old(self).regions().len(),
            slot < PT_LEN,
        ensures
            final(self).structure(),
            final(self).same_range(old(self)),
            final(self).claims() == old(self).claims(),
            final(self).regions() == old(self).regions().update(
                r as int,
                Entry2 { pages: (PT_LEN - 1) as usize, i1: slot, page: false, giant: false },
            ),
            final(self).leaves() == old(self).leaves().update(r as int, full_but(slot as int)),
    {
        proof {
            self.lemma_shape();
        }
        let mut j: usize = 0;
        while j < PT_LEN
            invariant
                j <= PT_LEN,
                self.structure(),
                self.same_range(old(self)),
                self.claims() == old(self).claims(),
                self.regions() == old(self).regions(),
                r < self.regions().len(),
                self.leaves().len() == old(self).leaves().len(),
                self.leaves()[r as int].len() == PT_LEN,
                forall|q: int|
                    0 <= q < self.leaves().len() && q != r ==> #[trigger] self.leaves()[q] == old(self).leaves()[q],
                forall|i: int| 0 <= i < j ==> #[trigger] self.leaves()[r as int][i] == full_but(slot as int)[i],
            decreases PT_LEN - j,
        {
            if j == slot {
                self.write1(r, j, Entry1::Empty);
            } else {
                self.write1(r, j, Entry1::Page);
            }
            j += 1;
        }
        assert(self.leaves()[r as int] =~= full_but(slot as int));
        assert(self.leaves() =~= old(self).leaves().update(r as int, full_but(slot as int)));
        self.write2(r, Entry2::new_table(PT_LEN - 1, slot));
    }

    /// Frees the single frame `page`, which lies in a region with descriptor `pte2`.
    ///
    /// In a full region the frame takes over the leaf table. In any other,
    /// `Address` says that the frame's slot is not allocated.
    fn put_small(&mut self, pte2: Entry2, page: usize) -> (res: Result<(), Error>)
        requires
            old(self).structure(),
            page < old(self).frames(),
            pte2 == old(self).regions()[(page / PT_LEN) as int],
            pte2.wf(),
            !pte2.page,
            !pte2.giant,
            0 < pte2.pages <= PT_LEN,
        ensures
            final(self).structure(),
            final(self).same_range(old(self)),
            final(self).claims() == old(self).claims(),
            match Self::put_spec(
                pte2,
                old(self).leaves()[(page / PT_LEN) as int],
                (page % PT_LEN) as int,
            ) {
                Ok((size, e, t)) => {
                    &&& res == Ok::<(), Error>(())
                    &&& final(self).regions() == old(self).regions().update(
                        (page / PT_LEN) as int,
                        e,
                    )
                    &&& final(self).leaves() == old(self).leaves().update((page / PT_LEN) as int, t)
                },
                Err(err) => {
                    &&& res == Err::<(), Error>(err)
                    &&& final(self).regions() == old(self).regions()
                    &&& final(self).leaves() == old(self).leaves()
                },
            },
    {
        proof {
            self.lemma_shape();
        }
        let r = page / PT_LEN;
        let slot = page % PT_LEN;
        if pte2.pages == PT_LEN {
            self.put_full(r, slot);
            return Ok(());
        }
        if self.read1(r, slot) != Entry1::Page {
            return Err(Error::Address);
        }
        match pte2.dec(pte2.i1) {
            Some(next) => {
                self.write2(r, next);
                self.write1(r, slot, Entry1::Empty);
                Ok(())
            },
            None => Err(Error::Corruption),
        }
    }

    /// Frees the unit that frame `page` belongs to, and tells its size.
    ///
    /// `Address` says that nothing is allocated there, or that `page` is not
    /// the first frame of its allocated region.
    pub fn put(&mut self, page: usize) -> (res: Result<Size, Error>)
        requires
            old(self).wf(),
            page < old(self).frames(),
        ensures
            final(self).wf(),
            final(self).same_range(old(self)),
            match Self::put_spec(
                old(self).regions()[(page / PT_LEN) as int],
                old(self).leaves()[(page / PT_LEN) as int],
                (page % PT_LEN) as int,
            ) {
                Ok((size, e, t)) => {
                    &&& res == Ok::<Size, Error>(size)
                    &&& final(self).regions() == old(self).regions().update(
                        (page / PT_LEN) as int,
                        e,
                    )
                    &&& final(self).leaves() == old(self).leaves().update((page / PT_LEN) as int, t)
                    &&& forall|f: int|
                        0 <= f < old(self).frames() ==> #[trigger] final(self).allocated(f) == (old(self).allocated(f) && (old(self).regions()[subtree_base(f)].giant || !(page
                            <= f < page + size.span_spec())))
                    &&& forall|f: int|
                        page <= f < page + size.span_spec() ==> #[trigger] old(self).allocated(f)
                },
                Err(err) => {
                    &&& res == Err::<Size, Error>(err)
                    &&& final(self).regions() == old(self).regions()
                    &&& final(self).leaves() == old(self).leaves()
                },
            },
    {
        proof {
            self.lemma_shape();
        }
        let r = page / PT_LEN;
        let slot = page % PT_LEN;
        let pte2 = self.read2(r);
        let ghost t = self.leaves()[r as int];
        assert(region_ok(self.regions()[r as int], t));
        let size = if pte2.page {
            if slot != 0 {
                return Err(Error::Address);
            }
            self.clear1(r);
            self.write2(r, Entry2::new());
            proof {
                lemma_count_none(empty_table());
            }
            Size::L1
        } else if !pte2.giant && pte2.pages > 0 {
            match self.put_small(pte2, page) {
                Ok(()) => {},
                Err(e) => {
                    return Err(e);
                },
            }
            proof {
                lemma_count_all_but(full_but(slot as int), slot as int);
                lemma_count_update(t, slot as int, Entry1::Empty);
            }
            Size::L0
        } else {
            return Err(Error::Address);
        };
        proof {
            let spec_res = Self::put_spec(
                old(self).regions()[r as int],
                old(self).leaves()[r as int],
                slot as int,
            );
            old(self).lemma_put_allocated(
                &*self,
                page as int,
                size,
                spec_res->Ok_0.1,
                spec_res->Ok_0.2,
            );
            assert forall|q: int| 0 <= q < self.regions().len() implies region_ok(
                #[trigger] self.regions()[q],
                self.leaves()[q],
            ) by {
                if q != r {
                    assert(region_ok(old(self).regions()[q], old(self).leaves()[q]));
                }
            }
        }
        Ok(size)
    }

    /// The descriptor of the region of frame `page`.
    pub fn pt2(&self, page: usize) -> (e: Entry2)
        requires
            self.structure(),
            page < self.frames(),
        ensures
            e == self.regions()[(page / PT_LEN) as int],
    {
        proof {
            self.lemma_shape();
        }
        self.read2(page / PT_LEN)
    }

    /// The slot of frame `page` in the leaf table of its region.
    pub fn pt1(&self, page: usize) -> (e: Entry1)
        requires
            self.structure(),
            page < self.frames(),
        ensures
            e == self.leaves()[(page / PT_LEN) as int][(page % PT_LEN) as int],
    {
        proof {
            self.lemma_shape();
        }
        self.read1(page / PT_LEN, page % PT_LEN)
    }

    /// Overwrites the descriptor of the region of frame `page`, as a write
    /// that was cut short would.
    ///
    /// What is written need not fit the leaf table: `recover` sets it right.
    pub fn set_pt2(&mut self, page: usize, e: Entry2)
        requires
            old(self).structure(),
            page < old(self).frames(),
            e.wf(),
        ensures
            final(self).structure(),
            final(self).same_range(old(self)),
            final(self).claims() == old(self).claims(),
            final(self).leaves() == old(self).leaves(),
            final(self).regions() == old(self).regions().update((page / PT_LEN) as int, e),
    {
        proof {
            self.lemma_shape();
        }
        self.write2(page / PT_LEN, e);
    }

    /// Overwrites the slot of frame `page` in the leaf table of its region,
    /// as a write that was cut short would.
    pub fn set_pt1(&mut self, page: usize, e: Entry1)
        requires
            old(self).structure(),
            page < old(self).frames(),
        ensures
            final(self).structure(),
            final(self).same_range(old(self)),
            final(self).claims() == old(self).claims(),
            final(self).regions() == old(self).regions(),
            final(self).leaves() == old(self).leaves().update(
                (page / PT_LEN) as int,
                old(self).leaves()[(page / PT_LEN) as int].update((page % PT_LEN) as int, e),
            ),
    {
        proof {
            self.lemma_shape();
        }
        self.write1(page / PT_LEN, page % PT_LEN, e);
    }

    /// One past the last region of the subtree that begins at region `base`.
    pub open spec fn subtree_end(&self, base: int) -> int {
        if base + PT_LEN <= self.regions().len() {
            base + PT_LEN
        } else {
            self.regions().len() as int
        }
    }

    /// Frees every region of the subtree that holds frame `page`: each gets
    /// the unused descriptor and an empty leaf table.
    pub fn clear_giant(&mut self, page: usize)
        requires
            old(self).wf(),
            page < old(self).frames(),
        ensures
            final(self).wf(),
            final(self).same_range(old(self)),
            final(self).regions().len() == old(self).regions().len(),
            forall|r: int|
                0 <= r < old(self).regions().len() ==> #[trigger] final(self).regions()[r] == (if subtree_base(
                    page as int,
                ) <= r < old(self).subtree_end(subtree_base(page as int)) {
                    fresh_entry()
                } else {
                    old(self).regions()[r]
                }),
            forall|r: int|
                0 <= r < old(self).regions().len() ==> #[trigger] final(self).leaves()[r] == (if subtree_base(
                    page as int,
                ) <= r < old(self).subtree_end(subtree_base(page as int)) {
                    empty_table()
                } else {
                    old(self).leaves()[r]
                }),
            forall|f: int|
                0 <= f < old(self).frames() ==> #[trigger] final(self).allocated(f) == (if subtree_base(
                    f,
                ) == subtree_base(page as int) {
                    false
                } else {
                    old(self).allocated(f)
                }),
    {
        proof {
            self.lemma_shape();
        }
        let base = page / SUBTREE * PT_LEN;
        let nregions = self.pages / PT_LEN;
        let end = if base + PT_LEN <= nregions {
            base + PT_LEN
        } else {
            nregions
        };
        let mut r = base;
        while r < end
            invariant
                base <= r <= end,
                end <= nregions,
                nregions == self.regions().len(),
                self.regions().len() == old(self).regions().len(),
                self.leaves().len() == old(self).leaves().len(),
                self.structure(),
                self.same_range(old(self)),
                self.claims() == old(self).claims(),
                forall|q: int|
                    0 <= q < nregions ==> #[trigger] self.regions()[q] == (if base <= q < r {
                        fresh_entry()
                    } else {
                        old(self).regions()[q]
                    }),
                forall|q: int|
                    0 <= q < nregions ==> #[trigger] self.leaves()[q] == (if base <= q < r {
                        empty_table()
                    } else {
                        old(self).leaves()[q]
                    }),
            decreases end - r,
        {
            self.clear1(r);
            self.write2(r, Entry2::new());
            r += 1;
        }
        proof {
            lemma_count_none(empty_table());
            assert forall|q: int| 0 <= q < self.regions().len() implies region_ok(
                #[trigger] self.regions()[q],
                self.leaves()[q],
            ) by {
                if !(base <= q < end) {
                    assert(region_ok(old(self).regions()[q], old(self).leaves()[q]));
                }
            }
            assert forall|f: int| 0 <= f < old(self).frames() implies #[trigger] self.allocated(f)
                == (if subtree_base(f) == subtree_base(page as int) {
                false
            } else {
                old(self).allocated(f)
            }) by {
                let q = f / (PT_LEN as int);
                let b = subtree_base(f);
                assert(0 <= b <= q < self.regions().len());
                assert(b % 512 == 0 && base % 512 == 0 && q - b < 512);
                if b == base {
                    assert(base <= q < end);
                    assert(self.regions()[q] == fresh_entry());
                    assert(self.regions()[b] == fresh_entry());
                    assert(self.leaves()[q] == empty_table());
                } else {
                    assert(!(base <= q < end));
                    assert(!(base <= b < end));
                    assert(self.regions()[q] == old(self).regions()[q]);
                    assert(self.regions()[b] == old(self).regions()[b]);
                    assert(self.leaves()[q] == old(self).leaves()[q]);
                }
            }
        }
    }

    /// Frees everything: every region gets the unused descriptor and an empty leaf table.
    pub fn clear(&mut self)
        requires
            old(self).structure(),
            old(self).quiet(),
            old(self).claims().len() == old(self).cores(),
        ensures
            final(self).wf(),
            final(self).same_range(old(self)),
            forall|r: int|
                0 <= r < final(self).regions().len() ==> #[trigger] final(self).regions()[r]
                    == fresh_entry(),
            forall|r: int|
                0 <= r < final(self).leaves().len() ==> #[trigger] final(self).leaves()[r]
                    == empty_table(),
    {
        proof {
            self.lemma_shape();
        }
        let nregions = self.pages / PT_LEN;
        let mut r: usize = 0;
        while r < nregions
            invariant
                r <= nregions,
                nregions == self.regions().len(),
                self.leaves().len() == nregions,
                self.structure(),
                self.same_range(old(self)),
                self.claims() == old(self).claims(),
                forall|q: int| 0 <= q < r ==> #[trigger] self.regions()[q] == fresh_entry(),
                forall|q: int| 0 <= q < r ==> #[trigger] self.leaves()[q] == empty_table(),
            decreases nregions - r,
        {
            self.clear1(r);
            self.write2(r, Entry2::new());
            r += 1;
        }
        proof {
            self.lemma_shape();
            lemma_count_none(empty_table());
        }
    }

    /// The descriptors of the regions of the subtree that holds frame `start`, in order.
    pub fn dump(&self, start: usize) -> (out: Vec<Entry2>)
        requires
            self.structure(),
            start < self.frames(),
        ensures
            out@ == self.regions().subrange(
                subtree_base(start as int),
                self.subtree_end(subtree_base(start as int)),
            ),
    {
        proof {
            self.lemma_shape();
        }
        let base = start / SUBTREE * PT_LEN;
        let nregions = self.pages / PT_LEN;
        let end = if base + PT_LEN <= nregions {
            base + PT_LEN
        } else {
            nregions
        };
        let mut out: Vec<Entry2> = Vec::new();
        let mut r = base;
        while r < end
            invariant
                base <= r <= end,
                end <= nregions,
                nregions == self.regions().len(),
                self.structure(),
                out@ == self.regions().subrange(base as int, r as int),
            decreases end - r,
        {
            let e = self.read2(r);
            out.push(e);
            assert(out@ =~= self.regions().subrange(base as int, r + 1));
            r += 1;
        }
        out
    }

    /// The descriptors of the subtree that begins at region `base`, each set right by its leaf table.
    pub open spec fn recovered(&self, base: int) -> Seq<Entry2> {
        Seq::new(
            (self.subtree_end(base) - base) as nat,
            |j: int| fixed(self.regions()[base + j], self.leaves()[base + j]),
        )
    }

    /// Every descriptor of the subtree that begins at region `base` can be set right,
    /// and none but the first carries the giant mark.
    pub open spec fn recoverable(&self, base: int) -> bool {
        forall|r: int|
            base <= r < self.subtree_end(base) ==> deep_valid(
                #[trigger] self.regions()[r],
                self.leaves()[r],
            ) && (r > base ==> !self.regions()[r].giant)
    }

    /// What `recover` reports of a subtree with these descriptors: how many
    /// frames are allocated and in which size.
    ///
    /// A giant unit counts the whole subtree. A subtree that holds both
    /// allocated regions and allocated single frames contradicts itself.
    pub open spec fn summary(sub: Seq<Entry2>) -> Result<(usize, Size), Error> {
        if sub[0].giant {
            Ok((SUBTREE, Size::L2))
        } else if any_huge(sub) && any_small(sub) {
            Err(Error::Corruption)
        } else {
            Ok(
                (
                    sum_used(sub) as usize,
                    if any_huge(sub) {
                        Size::L1
                    } else {
                        Size::L0
                    },
                ),
            )
        }
    }

    /// Counts the allocated slots of the leaf table of region `r`.
    ///
    /// `Corruption` says that the slot of the frame that holds the table is not free.
    fn recover_l1(&self, r: usize, i1: usize) -> (res: Result<usize, Error>)
        requires
            self.structure(),
            r < self.regions().len(),
            i1 < PT_LEN,
        ensures
            match res {
                Ok(c) => c == count_pages(self.leaves()[r as int]) && self.leaves()[r as int][i1 as int]
                    == Entry1::Empty,
                Err(e) => e == Error::Corruption && self.leaves()[r as int][i1 as int]
                    != Entry1::Empty,
            },
    {
        proof {
            self.lemma_shape();
        }
        let ghost t = self.leaves()[r as int];
        let mut pages: usize = 0;
        let mut j: usize = 0;
        while j < PT_LEN
            invariant
                j <= PT_LEN,
                self.structure(),
                r < self.regions().len(),
                t == self.leaves()[r as int],
                t.len() == PT_LEN,
                pages == count_pages(t.take(j as int)),
                pages <= j,
            decreases PT_LEN - j,
        {
            let e = self.read1(r, j);
            assert(t.take(j + 1).drop_last() =~= t.take(j as int));
            if e == Entry1::Page {
                pages += 1;
            }
            j += 1;
        }
        assert(t.take(PT_LEN as int) =~= t);
        if self.read1(r, i1) != Entry1::Empty {
            return Err(Error::Corruption);
        }
        Ok(pages)
    }

    /// Finds out what is allocated in the subtree that holds frame `start`.
    ///
    /// A shallow recovery reads the descriptors of the regions. A deep one
    /// first counts the leaf table of every region that is neither full nor
    /// allocated as a unit, and writes the count into each descriptor that
    /// differs. `Corruption` says that a descriptor cannot be set right, or
    /// that the subtree holds allocations of two sizes; nothing is written
    /// then.
    pub fn recover(&mut self, start: usize, deep: bool) -> (res: Result<(usize, Size), Error>)
        requires
            old(self).structure(),
            old(self).quiet(),
            old(self).claims().len() == old(self).cores(),
            start < old(self).frames(),
            !deep ==> old(self).wf(),
        ensures
            final(self).structure(),
            final(self).quiet(),
            final(self).same_range(old(self)),
            final(self).claims() == old(self).claims(),
            final(self).leaves() == old(self).leaves(),
            final(self).regions().len() == old(self).regions().len(),
            old(self).wf() ==> final(self).wf() && final(self).regions() == old(self).regions(),
            match res {
                Ok(v) => {
                    &&& old(self).recoverable(subtree_base(start as int))
                    &&& Self::summary(old(self).recovered(subtree_base(start as int))) == Ok::<
                        (usize, Size),
                        Error,
                    >(v)
                    &&& forall|r: int|
                        0 <= r < old(self).regions().len() ==> #[trigger] final(self).regions()[r] == (if subtree_base(
                            start as int,
                        ) <= r < old(self).subtree_end(subtree_base(start as int)) {
                            fixed(old(self).regions()[r], old(self).leaves()[r])
                        } else {
                            old(self).regions()[r]
                        })
                },
                Err(e) => {
                    &&& e == Error::Corruption
                    &&& final(self).regions() == old(self).regions()
                    &&& !old(self).recoverable(subtree_base(start as int)) || Self::summary(
                        old(self).recovered(subtree_base(start as int)),
                    ) is Err
                },
            },
    {
        proof {
            self.lemma_shape();
        }
        let base = start / SUBTREE * PT_LEN;
        let nregions = self.pages / PT_LEN;
        let end = if base + PT_LEN <= nregions {
            base + PT_LEN
        } else {
            nregions
        };
        let ghost sub = self.recovered(base as int);
        let mut counts: Vec<usize> = Vec::new();
        let mut pages: usize = 0;
        let mut huge = false;
        let mut small = false;
        let mut r = base;
        assert(sub.take(0) =~= Seq::<Entry2>::empty());
        while r < end
            invariant
                base <= r <= end,
                end <= nregions,
                base < end,
                end == self.subtree_end(base as int),
                end - base <= PT_LEN,
                nregions == self.regions().len(),
                self.leaves().len() == nregions,
                *self == *old(self),
                self.structure(),
                self.quiet(),
                base == subtree_base(start as int),
                !deep ==> self.wf(),
                sub == self.recovered(base as int),
                sub.len() == end - base,
                counts.len() == r - base,
                forall|k: int| 0 <= k < r - base ==> #[trigger] counts[k] == sub[k].pages,
                pages == sum_used(sub.take(r - base)),
                pages <= (r - base) * PT_LEN,
                huge == any_huge(sub.take(r - base)),
                small == any_small(sub.take(r - base)),
                forall|q: int|
                    base <= q < r ==> deep_valid(#[trigger] self.regions()[q], self.leaves()[q]) && (q
                        > base ==> !self.regions()[q].giant),
            decreases end - r,
        {
            let e = self.read2(r);
            let ghost t = self.leaves()[r as int];
            assert(sub[r - base] == fixed(e, t));
            assert(sub.take(r - base + 1).drop_last() =~= sub.take(r - base));
            if deep {
                if e.pages > PT_LEN || (e.giant && (r > base || e.page || e.pages != 0 || e.i1
                    != 0)) || (e.page && (e.pages != 0 || e.i1 != 0)) {
                    assert(!deep_valid(self.regions()[r as int], t) || (r > base
                        && self.regions()[r as int].giant));
                    assert(!self.recoverable(base as int));
                    return Err(Error::Corruption);
                }
            } else {
                assert(region_ok(self.regions()[r as int], t));
            }
            let p = if e.page {
                huge = true;
                pages += PT_LEN;
                0
            } else if deep && !e.giant && e.pages < PT_LEN {
                match self.recover_l1(r, e.i1) {
                    Ok(c) => {
                        proof {
                            lemma_count_bound(t);
                            if c == PT_LEN {
                                lemma_count_update(t, e.i1 as int, Entry1::Page);
                                lemma_count_bound(t.update(e.i1 as int, Entry1::Page));
                            }
                        }
                        if c > 0 {
                            small = true;
                        }
                        pages += c;
                        c
                    },
                    Err(_) => {
                        assert(!deep_valid(self.regions()[r as int], t));
                        assert(!self.recoverable(base as int));
                        return Err(Error::Corruption);
                    },
                }
            } else {
                if e.pages > 0 {
                    small = true;
                }
                pages += e.pages;
                e.pages
            };
            counts.push(p);
            assert((r - base) * PT_LEN + PT_LEN == (r + 1 - base) * PT_LEN) by (nonlinear_arith);
            r += 1;
        }
        assert(sub.take(end - base) =~= sub);
        assert(self.recoverable(base as int));
        let first = self.read2(base);
        assert(sub[0].giant == first.giant);
        if !first.giant && huge && small {
            return Err(Error::Corruption);
        }
        if deep {
            let mut r = base;
            while r < end
                invariant
                    base <= r <= end,
                    end <= nregions,
                    end == old(self).subtree_end(base as int),
                    nregions == self.regions().len(),
                    self.regions().len() == old(self).regions().len(),
                    self.structure(),
                    self.same_range(old(self)),
                    self.claims() == old(self).claims(),
                    self.leaves() == old(self).leaves(),
                    old(self).recoverable(base as int),
                    sub == old(self).recovered(base as int),
                    sub.len() == end - base,
                    counts.len() == end - base,
                    forall|k: int| 0 <= k < end - base ==> #[trigger] counts[k] == sub[k].pages,
                    forall|q: int|
                        0 <= q < nregions ==> #[trigger] self.regions()[q] == (if base <= q < r {
                            fixed(old(self).regions()[q], old(self).leaves()[q])
                        } else {
                            old(self).regions()[q]
                        }),
                decreases end - r,
            {
                let e = self.read2(r);
                assert(deep_valid(old(self).regions()[r as int], old(self).leaves()[r as int]));
                assert(sub[r - base] == fixed(e, old(self).leaves()[r as int]));
                if !e.page && !e.giant && e.pages < PT_LEN && e.pages != counts[r - base] {
                    proof {
                        lemma_fixed_ok(e, old(self).leaves()[r as int]);
                    }
                    self.write2(r, Entry2 { pages: counts[r - base], ..e });
                }
                r += 1;
            }
        }
        proof {
            if old(self).wf() {
                assert forall|q: int| 0 <= q < nregions implies #[trigger] self.regions()[q] == old(self).regions()[q] by {
                    assert(region_ok(old(self).regions()[q], old(self).leaves()[q]));
                    if base <= q < end {
                        assert(deep_valid(old(self).regions()[q], old(self).leaves()[q]));
                        lemma_fixed_ok(old(self).regions()[q], old(self).leaves()[q]);
                    }
                }
                assert(self.regions() =~= old(self).regions());
            }
        }
        if first.giant {
            Ok((SUBTREE, Size::L2))
        } else {
            Ok(
                (
                    pages,
                    if huge {
                        Size::L1
                    } else {
                        Size::L0
                    },
                ),
            )
        }
    }

    /// How many regions there are of each class of free frames.
    pub fn stats(&self) -> (out: Vec<usize>)
        requires
            self.structure(),
        ensures
            out.len() == BUCKETS,
            forall|b: int| 0 <= b < BUCKETS ==> #[trigger] out[b] == count_bucket(self.regions(), b),
    {
        proof {
            self.lemma_shape();
        }
        let nregions = self.pages / PT_LEN;
        let mut out: Vec<usize> = Vec::new();
        let mut b: usize = 0;
        while b < BUCKETS
            invariant
                b <= BUCKETS,
                out.len() == b,
                forall|k: int| 0 <= k < b ==> out[k] == 0,
            decreases BUCKETS - b,
        {
            out.push(0);
            b += 1;
        }
        let mut r: usize = 0;
        assert(self.regions().take(0) =~= Seq::<Entry2>::empty());
        while r < nregions
            invariant
                r <= nregions,
                nregions == self.regions().len(),
                self.structure(),
                out.len() == BUCKETS,
                forall|b: int|
                    0 <= b < BUCKETS ==> #[trigger] out[b] == count_bucket(
                        self.regions().take(r as int),
                        b,
                    ),
            decreases nregions - r,
        {
            let e = self.read2(r);
            let b = count_pte2(e);
            proof {
                let s = self.regions().take(r + 1);
                assert(s.drop_last() =~= self.regions().take(r as int));
                assert(s.last() == e);
                lemma_count_bucket_bound(self.regions().take(r as int), b as int);
            }
            let n = out[b];
            out.set(b, n + 1);
            r += 1;
        }
        assert(self.regions().take(nregions as int) =~= self.regions());
        out
    }

    /// Number of allocated frames among the first `n`.
    pub open spec fn frames_allocated(&self, n: int) -> int
        decreases n,
    {
        if n <= 0 {
            0
        } else {
            self.frames_allocated(n - 1) + if self.allocated(n - 1) {
                1int
            } else {
                0int
            }
        }
    }

    /// Frames of region `r` that are allocated, as its descriptor tells:
    /// all of them in a giant unit, else what the descriptor counts.
    pub open spec fn region_used(&self, r: int) -> int {
        if self.regions()[subtree_base(r * PT_LEN)].giant {
            PT_LEN as int
        } else {
            used(self.regions()[r]) as int
        }
    }

    /// Among the first `k` frames of region `r`, as many are allocated as
    /// the leaf table counts, or all of them where the region is allocated
    /// as a whole.
    proof fn lemma_region_frames(&self, r: int, k: int)
        requires
            self.wf(),
            0 <= r < self.regions().len(),
            0 <= k <= PT_LEN,
        ensures
            self.frames_allocated(r * PT_LEN + k) - self.frames_allocated(r * PT_LEN) == (if self.regions()[subtree_base(
                r * PT_LEN,
            )].giant || self.regions()[r].page || self.regions()[r].pages == PT_LEN {
                k
            } else {
                count_pages(self.leaves()[r].take(k)) as int
            }),
        decreases k,
    {
        let t = self.leaves()[r];
        if k > 0 {
            self.lemma_region_frames(r, k - 1);
            let f = r * PT_LEN + k - 1;
            assert(f / (PT_LEN as int) == r && f % (PT_LEN as int) == k - 1);
            assert(subtree_base(f) == subtree_base(r * PT_LEN));
            assert(t.take(k).drop_last() =~= t.take(k - 1));
            assert(t.take(k).last() == t[k - 1]);
            assert(region_ok(self.regions()[r], t));
        } else {
            assert(t.take(0) =~= Seq::<Entry1>::empty());
        }
    }

    /// As many frames of a region are allocated as its descriptor tells.
    pub proof fn lemma_region_used(&self, r: int)
        requires
            self.wf(),
            0 <= r < self.regions().len(),
        ensures
            self.frames_allocated(r * PT_LEN + PT_LEN) - self.frames_allocated(r * PT_LEN)
                == self.region_used(r),
    {
        let t = self.leaves()[r];
        self.lemma_region_frames(r, PT_LEN as int);
        assert(region_ok(self.regions()[r], t));
        assert(t.take(PT_LEN as int) =~= t);
        let b = subtree_base(r * PT_LEN);
        assert(0 <= b <= r);
        if self.regions()[r].giant {
            assert(r % (PT_LEN as int) == 0);
            assert(b == r);
        }
    }
}

} // verus!
