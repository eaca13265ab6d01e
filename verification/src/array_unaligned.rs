//! The allocator as a whole: the directory of subtrees, its free lists, the
//! places where each core allocates, and the recovery after a restart.
//!
//! The directory holds one descriptor per subtree. A subtree that is worth
//! looking at is in one of three lists: wholly free, partly used for single
//! frames, partly used for regions. The lists are threaded through the
//! descriptors themselves: while a subtree is in a list, its `idx` names the
//! subtree below it.
use vstd::prelude::*;
use crate::entry::Entry2;
use crate::free_entry::Entry3;
use crate::leaf_alloc::{
    any_huge, any_small, deep_valid, fixed, lemma_fixed_ok, lemma_sum_used_bound, region_ok,
    sum_used, used, LeafAllocator, SUBTREE,
};
use crate::table::PT_LEN;
use crate::util::Atomic;
use crate::{Error, Size, MAGIC, MAX_PAGES, MIN_PAGES, PAGE_SIZE};

verus! {

/// A subtree with at most this many free frames is in no list.
pub const PTE3_FULL: usize = 4096;

/// The link of the subtree at the bottom of a list, and the head of a list without subtrees.
pub const END: usize = 0xffff_ffff;

/// The `idx` of a subtree that is allocated as one giant unit.
pub const GIANT: usize = 0xffff_fffe;

/// The place of a core that has none yet.
pub const NONE: usize = usize::MAX;

/// The list of wholly free subtrees.
pub const EMPTY: usize = 0;

/// The list of subtrees that are partly used for single frames.
pub const PARTIAL_L0: usize = 1;

/// The list of subtrees that are partly used for regions.
pub const PARTIAL_L1: usize = 2;

/// The descriptor of a subtree that is allocated as one giant unit.
pub open spec fn giant_mark() -> Entry3 {
    Entry3 { free: 0, idx: GIANT, reserved: true, huge: true }
}

/// The descriptor is the giant mark.
pub open spec fn is_giant(e: Entry3) -> bool {
    e.idx == GIANT
}

/// The list in which partly used subtrees of a size are kept.
pub open spec fn partial(huge: bool) -> int {
    if huge {
        PARTIAL_L1 as int
    } else {
        PARTIAL_L0 as int
    }
}

/// Frames of an allocation of single frames or of regions.
pub open spec fn span_of(huge: bool) -> int {
    if huge {
        PT_LEN as int
    } else {
        1
    }
}

/// Writing one descriptor changes the count by the difference of the two.
pub proof fn lemma_sum_used_update(s: Seq<Entry2>, j: int, e: Entry2)
    requires
        0 <= j < s.len(),
    ensures
        sum_used(s.update(j, e)) == sum_used(s) - used(s[j]) + used(e),
    decreases s.len(),
{
    let u = s.update(j, e);
    if j == s.len() - 1 {
        assert(u.drop_last() =~= s.drop_last());
    } else {
        assert(u.drop_last() =~= s.drop_last().update(j, e));
        lemma_sum_used_update(s.drop_last(), j, e);
    }
}

/// No region is allocated as a unit exactly when `any_huge` says so.
pub proof fn lemma_any_huge(s: Seq<Entry2>)
    ensures
        any_huge(s) <==> exists|j: int| 0 <= j < s.len() && (#[trigger] s[j]).page,
    decreases s.len(),
{
    if s.len() > 0 {
        lemma_any_huge(s.drop_last());
        if any_huge(s.drop_last()) {
            let j = choose|j: int| 0 <= j < s.drop_last().len() && (#[trigger] s.drop_last()[j]).page;
            assert(s[j].page);
        }
        if exists|j: int| 0 <= j < s.len() && (#[trigger] s[j]).page {
            let j = choose|j: int| 0 <= j < s.len() && (#[trigger] s[j]).page;
            if j < s.len() - 1 {
                assert(s.drop_last()[j].page);
            }
        }
    }
}

/// No region holds single frames exactly when `any_small` says so.
pub proof fn lemma_any_small(s: Seq<Entry2>)
    ensures
        any_small(s) <==> exists|j: int|
            0 <= j < s.len() && !(#[trigger] s[j]).page && s[j].pages > 0,
    decreases s.len(),
{
    if s.len() > 0 {
        lemma_any_small(s.drop_last());
        if any_small(s.drop_last()) {
            let j = choose|j: int|
                0 <= j < s.drop_last().len() && !(#[trigger] s.drop_last()[j]).page
                    && s.drop_last()[j].pages > 0;
            assert(!s[j].page && s[j].pages > 0);
        }
        if exists|j: int| 0 <= j < s.len() && !(#[trigger] s[j]).page && s[j].pages > 0 {
            let j = choose|j: int| 0 <= j < s.len() && !(#[trigger] s[j]).page && s[j].pages > 0;
            if j < s.len() - 1 {
                assert(!s.drop_last()[j].page && s.drop_last()[j].pages > 0);
            }
        }
    }
}

/// An allocated region counts with all its frames.
pub proof fn lemma_any_huge_used(s: Seq<Entry2>)
    requires
        any_huge(s),
    ensures
        sum_used(s) >= PT_LEN,
    decreases s.len(),
{
    if s.len() > 0 {
        if !s.last().page {
            lemma_any_huge_used(s.drop_last());
        }
    }
}

/// Where nothing is counted, no region counts anything.
pub proof fn lemma_sum_used_zero(s: Seq<Entry2>)
    requires
        sum_used(s) == 0,
    ensures
        forall|j: int| 0 <= j < s.len() ==> used(#[trigger] s[j]) == 0,
    decreases s.len(),
{
    if s.len() > 0 {
        lemma_sum_used_zero(s.drop_last());
        assert forall|j: int| 0 <= j < s.len() implies used(#[trigger] s[j]) == 0 by {
            if j < s.len() - 1 {
                assert(s.drop_last()[j] == s[j]);
            }
        }
    }
}

/// Regions without allocations count nothing.
pub proof fn lemma_sum_used_none(s: Seq<Entry2>)
    requires
        forall|j: int| 0 <= j < s.len() ==> used(#[trigger] s[j]) == 0,
    ensures
        sum_used(s) == 0,
    decreases s.len(),
{
    if s.len() > 0 {
        lemma_sum_used_none(s.drop_last());
    }
}

/// Where fewer frames are counted than the regions hold, one region counts fewer than its own.
pub proof fn lemma_sum_used_room(s: Seq<Entry2>)
    requires
        sum_used(s) < s.len() * PT_LEN,
    ensures
        exists|j: int| 0 <= j < s.len() && used(#[trigger] s[j]) < PT_LEN,
    decreases s.len(),
{
    if s.len() > 0 {
        if used(s.last()) < PT_LEN {
            assert(used(s[s.len() - 1]) < PT_LEN);
        } else {
            assert((s.len() - 1) * PT_LEN + PT_LEN == s.len() * PT_LEN) by (nonlinear_arith);
            lemma_sum_used_room(s.drop_last());
            let j = choose|j: int|
                0 <= j < s.drop_last().len() && used(#[trigger] s.drop_last()[j]) < PT_LEN;
            assert(used(s[j]) < PT_LEN);
        }
    }
}

/// The list `h` (or none, for -1) is the place for a subtree with descriptor `e` and `max` frames.
///
/// A subtree in a list is held by nobody and has more than `PTE3_FULL` free
/// frames. In the list of free subtrees it is a whole subtree without
/// allocations; in the list for single frames it serves no regions; in the
/// list for regions it serves regions or is without allocations.
pub open spec fn home_ok(e: Entry3, h: int, max: int) -> bool {
    &&& -1 <= h < 3
    &&& h != -1 ==> !e.reserved && !is_giant(e) && e.free > PTE3_FULL
    &&& h == EMPTY ==> e.free == SUBTREE && !e.huge
    &&& h == PARTIAL_L0 ==> !e.huge
    &&& h == PARTIAL_L1 ==> e.huge || e.free == max
}

/// A subtree's descriptor agrees with the descriptors of its regions.
///
/// The free frames and the allocated ones make up the subtree; a subtree
/// that serves regions holds no allocated single frames, and any other no
/// allocated region.
pub open spec fn subtree_ok(e: Entry3, sub: Seq<Entry2>) -> bool {
    &&& e.free + sum_used(sub) == sub.len() * PT_LEN
    &&& e.huge ==> !any_small(sub)
    &&& !e.huge ==> !any_huge(sub)
    &&& e.free == sub.len() * PT_LEN ==> !e.huge
}

/// A subtree with descriptor `e` can hand out a unit of the size: it serves
/// the size or is a whole subtree without allocations, and has the frames.
pub open spec fn can_dec(e: Entry3, huge: bool) -> bool {
    (e.huge == huge || e.free == SUBTREE) && e.free >= span_of(huge)
}

/// Free frames that a run of subtree descriptors counts.
pub open spec fn sum_free(s: Seq<Entry3>) -> int
    decreases s.len(),
{
    if s.len() == 0 {
        0
    } else {
        sum_free(s.drop_last()) + s.last().free
    }
}

/// Writing one descriptor changes the count by the difference of the two.
pub proof fn lemma_sum_free_update(s: Seq<Entry3>, j: int, e: Entry3)
    requires
        0 <= j < s.len(),
    ensures
        sum_free(s.update(j, e)) == sum_free(s) - s[j].free + e.free,
    decreases s.len(),
{
    let u = s.update(j, e);
    if j == s.len() - 1 {
        assert(u.drop_last() =~= s.drop_last());
    } else {
        assert(u.drop_last() =~= s.drop_last().update(j, e));
        lemma_sum_free_update(s.drop_last(), j, e);
    }
}

/// A region with allocated single frames counts at least one frame.
pub proof fn lemma_any_small_used(s: Seq<Entry2>)
    requires
        any_small(s),
    ensures
        sum_used(s) >= 1,
    decreases s.len(),
{
    if s.len() > 0 {
        if !(!s.last().page && s.last().pages > 0) {
            lemma_any_small_used(s.drop_last());
        }
    }
}

/// Writing a descriptor that is no allocated region adds no allocated region.
pub proof fn lemma_any_huge_update(s: Seq<Entry2>, j: int, e: Entry2)
    requires
        0 <= j < s.len(),
        !any_huge(s),
        !e.page,
    ensures
        !any_huge(s.update(j, e)),
{
    lemma_any_huge(s);
    lemma_any_huge(s.update(j, e));
    if any_huge(s.update(j, e)) {
        let k = choose|k: int| 0 <= k < s.update(j, e).len() && (#[trigger] s.update(j, e)[k]).page;
        assert(s[k].page);
    }
}

/// Writing a descriptor without single frames adds no region with single frames.
pub proof fn lemma_any_small_update(s: Seq<Entry2>, j: int, e: Entry2)
    requires
        0 <= j < s.len(),
        !any_small(s),
        e.page || e.pages == 0,
    ensures
        !any_small(s.update(j, e)),
{
    lemma_any_small(s);
    lemma_any_small(s.update(j, e));
    if any_small(s.update(j, e)) {
        let u = s.update(j, e);
        let k = choose|k: int| 0 <= k < u.len() && !(#[trigger] u[k]).page && u[k].pages > 0;
        assert(!s[k].page && s[k].pages > 0);
    }
}

/// A subtree that is not full has a region with room for a single frame,
/// if none of its regions is allocated as a unit.
pub proof fn lemma_small_room(s: Seq<Entry2>)
    requires
        sum_used(s) < s.len() * PT_LEN,
        !any_huge(s),
    ensures
        exists|j: int| 0 <= j < s.len() && !(#[trigger] s[j]).page && s[j].pages < PT_LEN,
{
    lemma_sum_used_room(s);
    let j = choose|j: int| 0 <= j < s.len() && used(#[trigger] s[j]) < PT_LEN;
    assert(!s[j].page && s[j].pages < PT_LEN);
}

/// A subtree that is not full has an unused region, if none of its regions
/// holds allocated single frames.
pub proof fn lemma_huge_room(s: Seq<Entry2>)
    requires
        sum_used(s) < s.len() * PT_LEN,
        !any_small(s),
    ensures
        exists|j: int| 0 <= j < s.len() && !(#[trigger] s[j]).page && s[j].pages == 0,
{
    lemma_sum_used_room(s);
    lemma_any_small(s);
    let j = choose|j: int| 0 <= j < s.len() && used(#[trigger] s[j]) < PT_LEN;
    assert(!s[j].page && s[j].pages == 0);
}


/// The list `items` is threaded through the descriptors, from `head` down.
///
/// The head is the list's last subtree, and the `idx` of each subtree names
/// the one before it; the first one and the head of a list without subtrees
/// hold `END`.
pub open spec fn linked(entries: Seq<Entry3>, head: usize, items: Seq<usize>) -> bool {
    &&& items.len() == 0 ==> head == END
    &&& items.len() > 0 ==> head == items.last()
    &&& forall|k: int|
        0 <= k < items.len() ==> (#[trigger] items[k]) < entries.len() && entries[items[k] as int].idx
            == link_of(items, k)
}

/// The link that the subtree at position `k` of a list holds.
#[verifier::opaque]
pub open spec fn link_of(items: Seq<usize>, k: int) -> usize {
    if k == 0 {
        END
    } else {
        items[k - 1]
    }
}

/// Every subtree of list `k` has `k` as its home.
pub open spec fn homed(homes: Seq<int>, k: int, items: Seq<usize>) -> bool {
    forall|a: int|
        0 <= a < items.len() ==> (#[trigger] items[a]) < homes.len() && homes[items[a] as int] == k
}

/// A descriptor may change where it keeps its link or belongs to another list.
proof fn lemma_linked_write(
    entries: Seq<Entry3>,
    head: usize,
    items: Seq<usize>,
    homes: Seq<int>,
    k: int,
    i: int,
    e: Entry3,
)
    requires
        linked(entries, head, items),
        homed(homes, k, items),
        0 <= i < entries.len(),
        e.idx == entries[i].idx || homes[i] != k,
    ensures
        linked(entries.update(i, e), head, items),
{
    reveal(link_of);
    let after = entries.update(i, e);
    assert forall|a: int| 0 <= a < items.len() implies (#[trigger] items[a]) < after.len()
        && after[items[a] as int].idx == link_of(items, a) by {
        assert(items[a] < entries.len());
    }
}

/// A subtree that is in no list goes on top.
proof fn lemma_linked_push(
    entries: Seq<Entry3>,
    head: usize,
    items: Seq<usize>,
    homes: Seq<int>,
    k: int,
    i: usize,
)
    requires
        linked(entries, head, items),
        homed(homes, k, items),
        items.no_duplicates(),
        homes.len() == entries.len(),
        0 <= i < entries.len(),
        homes[i as int] == -1,
        0 <= k,
    ensures
        linked(
            entries.update(i as int, Entry3 { idx: head, ..entries[i as int] }),
            i,
            items.push(i),
        ),
        homed(homes.update(i as int, k), k, items.push(i)),
        items.push(i).no_duplicates(),
{
    reveal(link_of);
    let after = entries.update(i as int, Entry3 { idx: head, ..entries[i as int] });
    let pushed = items.push(i);
    assert forall|a: int| 0 <= a < pushed.len() implies (#[trigger] pushed[a]) < after.len()
        && after[pushed[a] as int].idx == link_of(pushed, a) by {
        if a < items.len() {
            assert(items[a] < entries.len());
            assert(items[a] != i);
        }
    }
    assert forall|a: int| 0 <= a < pushed.len() implies (#[trigger] pushed[a]) < homes.update(
        i as int,
        k,
    ).len() && homes.update(i as int, k)[pushed[a] as int] == k by {
        if a < items.len() {
            assert(items[a] < homes.len());
        }
    }
    assert forall|a: int, b: int| 0 <= a < pushed.len() && 0 <= b < pushed.len() && a != b implies pushed[a]
        != pushed[b] by {
        if a < items.len() {
            assert(items[a] < homes.len());
        }
        if b < items.len() {
            assert(items[b] < homes.len());
        }
    }
}

/// A list of another home is not touched when a subtree without a home gets one.
proof fn lemma_homed_other(homes: Seq<int>, j: int, items: Seq<usize>, i: int, k: int)
    requires
        homed(homes, j, items),
        0 <= i < homes.len(),
        homes[i] != j,
    ensures
        homed(homes.update(i, k), j, items),
{
    assert forall|a: int| 0 <= a < items.len() implies (#[trigger] items[a]) < homes.update(
        i,
        k,
    ).len() && homes.update(i, k)[items[a] as int] == j by {
        assert(items[a] < homes.len());
    }
}

/// The subtree on top comes off.
proof fn lemma_linked_pop(
    entries: Seq<Entry3>,
    head: usize,
    items: Seq<usize>,
    homes: Seq<int>,
    k: int,
)
    requires
        linked(entries, head, items),
        homed(homes, k, items),
        items.no_duplicates(),
        items.len() > 0,
    ensures
        head == items.last(),
        head < entries.len(),
        linked(entries, entries[head as int].idx, items.drop_last()),
        homed(homes.update(head as int, -1), k, items.drop_last()),
        items.drop_last().no_duplicates(),
{
    reveal(link_of);
    let rest = items.drop_last();
    assert(items[items.len() - 1] < entries.len());
    assert forall|a: int| 0 <= a < rest.len() implies (#[trigger] rest[a]) < entries.len()
        && entries[rest[a] as int].idx == link_of(rest, a) by {
        assert(items[a] < entries.len());
    }
    assert forall|a: int| 0 <= a < rest.len() implies (#[trigger] rest[a]) < homes.update(
        head as int,
        -1,
    ).len() && homes.update(head as int, -1)[rest[a] as int] == k by {
        assert(items[a] < homes.len());
        assert(items[a] != items[items.len() - 1]);
    }
}

/// How many frames subtree `i` of `n` has, and where its regions lie.
pub proof fn lemma_subtree_span(frames: int, i: int)
    requires
        0 <= frames,
        frames % 512 == 0,
        0 <= i < (frames + 262144 - 1) / 262144,
    ensures
        i * 512 < frames / 512,
        i * 262144 < frames,
        i * 512 + 512 <= frames / 512 ==> frames - i * 262144 >= 262144,
        i * 512 + 512 > frames / 512 ==> frames - i * 262144 == (frames / 512 - i * 512) * 512,
        i * 512 + 512 > frames / 512 ==> frames - i * 262144 < 262144,
{
}

/// The subtree that is taken out of the lists for a unit of the size.
///
/// The list for the size is looked through from the top. A subtree in it
/// that has become wholly free counts as one of the free subtrees, on top
/// of them; the first other one that can hand out a unit is taken. Where
/// the list gives none, the topmost free subtree is taken.
pub open spec fn pick_from(
    partial: Seq<usize>,
    empty: Seq<usize>,
    entries: Seq<Entry3>,
    huge: bool,
) -> Option<usize>
    decreases partial.len(),
{
    if partial.len() == 0 {
        if empty.len() == 0 {
            None
        } else {
            Some(empty.last())
        }
    } else {
        let i = partial.last();
        if entries[i as int].free == SUBTREE {
            pick_from(partial.drop_last(), empty.push(i), entries, huge)
        } else if can_dec(entries[i as int], huge) {
            Some(i)
        } else {
            pick_from(partial.drop_last(), empty, entries, huge)
        }
    }
}

/// The subtree that is taken does not depend on the links.
pub proof fn lemma_pick_links(
    partial: Seq<usize>,
    empty: Seq<usize>,
    a: Seq<Entry3>,
    b: Seq<Entry3>,
    huge: bool,
)
    requires
        a.len() == b.len(),
        forall|j: int| 0 <= j < a.len() ==> (#[trigger] a[j]) == (Entry3 { idx: a[j].idx, ..b[j] }),
        forall|k: int| 0 <= k < partial.len() ==> #[trigger] partial[k] < a.len(),
    ensures
        pick_from(partial, empty, a, huge) == pick_from(partial, empty, b, huge),
    decreases partial.len(),
{
    if partial.len() > 0 {
        let i = partial.last();
        assert(partial[partial.len() - 1] < a.len());
        let e = a[i as int];
        assert(e == (Entry3 { idx: e.idx, ..b[i as int] }));
        let rest = partial.drop_last();
        assert forall|k: int| 0 <= k < rest.len() implies #[trigger] rest[k] < a.len() by {
            assert(partial[k] < a.len());
        }
        lemma_pick_links(rest, empty.push(i), a, b, huge);
        lemma_pick_links(rest, empty, a, b, huge);
    }
}

/// The lists after a subtree was looked for: the list for the size, the
/// list of free subtrees, and the subtrees that were put aside.
///
/// The list for the size loses the subtrees that were looked at. Those that
/// had become wholly free went on top of the free ones, and those that
/// cannot serve the size were put aside. Where the list gave no subtree, the
/// topmost free subtree was taken.
pub open spec fn sift(
    partial: Seq<usize>,
    empty: Seq<usize>,
    aside: Seq<usize>,
    entries: Seq<Entry3>,
    huge: bool,
) -> (Seq<usize>, Seq<usize>, Seq<usize>)
    decreases partial.len(),
{
    if partial.len() == 0 {
        (
            partial,
            if empty.len() == 0 {
                empty
            } else {
                empty.drop_last()
            },
            aside,
        )
    } else {
        let i = partial.last();
        if entries[i as int].free == SUBTREE {
            sift(partial.drop_last(), empty.push(i), aside, entries, huge)
        } else if can_dec(entries[i as int], huge) {
            (partial.drop_last(), empty, aside)
        } else {
            sift(partial.drop_last(), empty, aside.push(i), entries, huge)
        }
    }
}

/// The lists after the search do not depend on the links.
pub proof fn lemma_sift_links(
    partial: Seq<usize>,
    empty: Seq<usize>,
    aside: Seq<usize>,
    a: Seq<Entry3>,
    b: Seq<Entry3>,
    huge: bool,
)
    requires
        a.len() == b.len(),
        forall|j: int| 0 <= j < a.len() ==> (#[trigger] a[j]) == (Entry3 { idx: a[j].idx, ..b[j] }),
        forall|k: int| 0 <= k < partial.len() ==> #[trigger] partial[k] < a.len(),
    ensures
        sift(partial, empty, aside, a, huge) == sift(partial, empty, aside, b, huge),
    decreases partial.len(),
{
    if partial.len() > 0 {
        let i = partial.last();
        assert(partial[partial.len() - 1] < a.len());
        let e = a[i as int];
        assert(e == (Entry3 { idx: e.idx, ..b[i as int] }));
        let rest = partial.drop_last();
        assert forall|k: int| 0 <= k < rest.len() implies #[trigger] rest[k] < a.len() by {
            assert(partial[k] < a.len());
        }
        lemma_sift_links(rest, empty.push(i), aside, a, b, huge);
        lemma_sift_links(rest, empty, aside.push(i), a, b, huge);
    }
}

/// One call of the allocator with its result.
pub enum Call {
    /// A call of `get`.
    Get { core: int, size: Size, got: Result<u64, Error> },
    /// A call of `put`.
    Put { addr: u64, size: Size, done: Result<(), Error> },
}

/// The frames that a call adds to the allocated ones: those of the unit for
/// a `get` that succeeds, their negative for a `put` that succeeds, else none.
pub open spec fn effect(call: Call) -> int {
    match call {
        Call::Get { core, size, got } => if got is Ok {
            size.span_spec() as int
        } else {
            0
        },
        Call::Put { addr, size, done } => if done is Ok {
            -(size.span_spec() as int)
        } else {
            0
        },
    }
}

/// The frames that a run of calls adds to the allocated ones.
pub open spec fn net(calls: Seq<Call>) -> int
    decreases calls.len(),
{
    if calls.len() == 0 {
        0
    } else {
        net(calls.drop_last()) + effect(calls.last())
    }
}

/// The header that outlives a restart.
struct Meta {
    magic: usize,
    pages: usize,
    active: usize,
}

/// The allocator: what outlives a restart (the header, the region
/// descriptors and the leaf tables) and what is rebuilt after one (the
/// directory, the lists and the places of the cores).
pub struct ArrayUnalignedAlloc {
    meta: Meta,
    lower: LeafAllocator,
    subtrees: Vec<Atomic<Entry3>>,
    heads: Vec<usize>,
    items: Ghost<Seq<Seq<usize>>>,
    homes: Ghost<Seq<int>>,
    start_l0: Vec<usize>,
    start_l1: Vec<usize>,
}

impl ArrayUnalignedAlloc {
    /// The allocator of single frames and regions.
    pub closed spec fn lower(&self) -> LeafAllocator {
        self.lower
    }

    /// The descriptors of the subtrees.
    pub closed spec fn entries(&self) -> Seq<Entry3> {
        Seq::new(self.subtrees.len() as nat, |i: int| self.subtrees[i]@)
    }

    /// The subtrees in list `k`, the one that is taken next at the end.
    pub closed spec fn list(&self, k: int) -> Seq<usize> {
        self.items@[k]
    }

    /// For each core, the frame at which it allocates units of a size next, or `NONE`.
    pub closed spec fn places(&self, huge: bool) -> Seq<usize> {
        if huge {
            self.start_l1@
        } else {
            self.start_l0@
        }
    }

    /// The header says that the allocator is in use.
    pub closed spec fn active(&self) -> bool {
        self.meta.active != 0
    }

    /// The header is that of an allocator that was set up over as many frames.
    pub closed spec fn set_up(&self) -> bool {
        self.meta.magic == MAGIC && self.meta.pages == self.lower.frames()
    }

    /// Number of frames.
    pub open spec fn frames(&self) -> nat {
        self.lower().frames()
    }

    /// Number of cores.
    pub open spec fn cores(&self) -> nat {
        self.lower().cores()
    }

    /// The descriptors of the regions of subtree `i`.
    pub open spec fn sub(&self, i: int) -> Seq<Entry2> {
        self.lower().regions().subrange(i * PT_LEN, self.lower().subtree_end(i * PT_LEN))
    }

    /// The list in which subtree `i` is, or -1.
    pub closed spec fn home(&self, i: int) -> int {
        self.homes@[i]
    }

    /// List `k` is threaded through the descriptors, holds no subtree twice,
    /// and is the home of each of its subtrees.
    pub closed spec fn list_inv(&self, k: int) -> bool {
        &&& linked(self.entries(), self.heads[k], self.items@[k])
        &&& homed(self.homes@, k, self.items@[k])
        &&& self.items@[k].no_duplicates()
    }

    /// The vectors have their lengths and the lists are in order.
    pub closed spec fn shape(&self) -> bool {
        &&& self.heads.len() == 3
        &&& self.items@.len() == 3
        &&& self.homes@.len() == self.subtrees.len()
        &&& self.start_l0.len() == self.lower.cores()
        &&& self.start_l1.len() == self.lower.cores()
        &&& self.subtrees.len() == (self.lower.frames() + SUBTREE - 1) / (SUBTREE as int)
        &&& self.list_inv(0)
        &&& self.list_inv(1)
        &&& self.list_inv(2)
    }

    /// Subtree `i` is in no list.
    pub open spec fn unlisted(&self, i: int) -> bool {
        self.home(i) == -1
    }

    /// A subtree is in the list that is its home, once, and in no other.
    pub proof fn lemma_home(&self, k: int, a: int)
        requires
            self.shape(),
            0 <= k < 3,
            0 <= a < self.list(k).len(),
        ensures
            0 <= self.list(k)[a] < self.entries().len(),
            self.home(self.list(k)[a] as int) == k,
            forall|b: int| 0 <= b < self.list(k).len() && b != a ==> self.list(k)[b] != self.list(k)[a],
    {
        assert(self.list_inv(k));
        assert(self.items@[k][a] < self.homes@.len());
    }

    /// Subtree `i` is in order.
    ///
    /// Its descriptor is within its widths. One with the giant mark is
    /// exactly the mark, and has the mark below as well. Any other has no
    /// mark below and counts what its regions leave free. It is in the list
    /// that fits it, or in none.
    pub open spec fn entry_ok(&self, i: int) -> bool {
        let e = self.entries()[i];
        &&& e.wf()
        &&& is_giant(e) ==> e == giant_mark() && self.sub(i).len() == PT_LEN
        &&& is_giant(e) == self.lower().regions()[i * PT_LEN].giant
        &&& !is_giant(e) ==> subtree_ok(e, self.sub(i))
        &&& home_ok(e, self.home(i), self.sub(i).len() * PT_LEN)
    }

    /// The place of a core lies in a subtree that is held and is no giant unit.
    pub open spec fn place_ok(&self, p: usize) -> bool {
        p != NONE ==> p < self.frames() && self.entries()[p as int / SUBTREE as int].reserved
            && !is_giant(self.entries()[p as int / SUBTREE as int])
    }

    /// Each core's places lie in subtrees that are held, and no two places in the same subtree.
    pub open spec fn places_ok(&self) -> bool {
        &&& self.places(false).len() == self.cores()
        &&& self.places(true).len() == self.cores()
        &&& forall|h: bool, c: int|
            0 <= c < self.cores() ==> self.place_ok(#[trigger] self.places(h)[c])
        &&& forall|h1: bool, c1: int, h2: bool, c2: int|
            0 <= c1 < self.cores() && 0 <= c2 < self.cores() && (h1 != h2 || c1 != c2)
                && #[trigger] self.places(h1)[c1] != NONE && #[trigger] self.places(h2)[c2] != NONE
                ==> self.places(h1)[c1] as int / SUBTREE as int != self.places(h2)[c2] as int
                / SUBTREE as int
    }

    /// What holds of an allocator in any state: the vectors have their lengths.
    ///
    /// The descriptors need not agree with each other: `init` sets that right.
    pub open spec fn image_ok(&self) -> bool {
        &&& self.shape()
        &&& self.lower().structure()
        &&& self.lower().quiet()
        &&& self.lower().claims().len() == self.lower().cores()
        &&& !self.active() ==> self.lower().wf()
    }

    /// The allocator is consistent.
    pub open spec fn wf(&self) -> bool {
        &&& self.shape()
        &&& self.lower().wf()
        &&& self.entries().len() == (self.frames() + SUBTREE - 1) / (SUBTREE as int)
        &&& self.lower().base() + self.frames() * PAGE_SIZE <= u64::MAX
        &&& forall|i: int| 0 <= i < self.entries().len() ==> #[trigger] self.entry_ok(i)
        &&& self.places_ok()
    }

    /// An allocator over nothing, for no core.
    pub fn new() -> (s: Self)
        ensures
            s.wf(),
            s.frames() == 0,
            s.cores() == 0,
            !s.active(),
            !s.set_up(),
    {
        let mut heads: Vec<usize> = Vec::new();
        heads.push(END);
        heads.push(END);
        heads.push(END);
        let items: Ghost<Seq<Seq<usize>>> = Ghost(Seq::new(3, |k: int| Seq::<usize>::empty()));
        let homes: Ghost<Seq<int>> = Ghost(Seq::empty());
        let s = ArrayUnalignedAlloc {
            meta: Meta { magic: 0, pages: 0, active: 0 },
            lower: LeafAllocator::new(0, 0, 0),
            subtrees: Vec::new(),
            heads,
            items,
            homes,
            start_l0: Vec::new(),
            start_l1: Vec::new(),
        };
        s
    }

    /// Number of frames that the allocator manages.
    pub fn pages(&self) -> (n: usize)
        ensures
            n == self.frames(),
    {
        self.lower.pages()
    }

    /// The header, the allocator below and the places of the cores are those of `o`.
    pub closed spec fn rest_eq(&self, o: &Self) -> bool {
        &&& self.meta.magic == o.meta.magic
        &&& self.meta.pages == o.meta.pages
        &&& self.meta.active == o.meta.active
        &&& self.lower == o.lower
        &&& self.start_l0@ == o.start_l0@
        &&& self.start_l1@ == o.start_l1@
    }

    /// What `rest_eq` says in terms of the public views.
    pub proof fn lemma_rest_eq(&self, o: &Self)
        requires
            self.rest_eq(o),
        ensures
            self.lower() == o.lower(),
            self.active() == o.active(),
            self.set_up() == o.set_up(),
            self.places(true) == o.places(true),
            self.places(false) == o.places(false),
    {
    }

    /// The lists are those of `o`, but for list `k`.
    pub open spec fn lists_but(&self, o: &Self, k: int) -> bool {
        &&& k != 0 ==> self.list(0) == o.list(0)
        &&& k != 1 ==> self.list(1) == o.list(1)
        &&& k != 2 ==> self.list(2) == o.list(2)
    }

    /// The homes of the subtrees are those of `o`, but for subtree `i`.
    pub open spec fn homes_but(&self, o: &Self, i: int) -> bool {
        forall|j: int| 0 <= j < self.entries().len() && j != i ==> #[trigger] self.home(j) == o.home(j)
    }

    fn load(&self, i: usize) -> (e: Entry3)
        requires
            i < self.entries().len(),
        ensures
            e == self.entries()[i as int],
            e.wf(),
    {
        self.subtrees[i].load()
    }

    /// Writes a descriptor; that of a subtree in a list keeps its link.
    fn write_entry(&mut self, i: usize, e: Entry3)
        requires
            old(self).shape(),
            i < old(self).entries().len(),
            e.wf(),
            e.idx == old(self).entries()[i as int].idx || old(self).unlisted(i as int),
        ensures
            final(self).shape(),
            final(self).entries() == old(self).entries().update(i as int, e),
            final(self).lists_but(old(self), -1),
            final(self).homes_but(old(self), -1),
            final(self).rest_eq(old(self)),
    {
        self.subtrees[i].store(e);
        proof {
            assert(self.entries() =~= old(self).entries().update(i as int, e));
            assert(old(self).list_inv(0) && old(self).list_inv(1) && old(self).list_inv(2));
            lemma_linked_write(old(self).entries(), self.heads[0], self.items@[0], self.homes@, 0, i as int, e);
            lemma_linked_write(old(self).entries(), self.heads[1], self.items@[1], self.homes@, 1, i as int, e);
            lemma_linked_write(old(self).entries(), self.heads[2], self.items@[2], self.homes@, 2, i as int, e);
        }
    }

    /// Puts subtree `i`, which is in no list, on top of list `k`.
    #[verifier::rlimit(60)]
    fn push(&mut self, k: usize, i: usize)
        requires
            old(self).shape(),
            k < 3,
            i < old(self).entries().len(),
            old(self).unlisted(i as int),
            old(self).entries()[i as int].wf(),
            old(self).entries().len() <= PT_LEN,
        ensures
            final(self).shape(),
            final(self).rest_eq(old(self)),
            final(self).lists_but(old(self), k as int),
            final(self).homes_but(old(self), i as int),
            final(self).home(i as int) == k,
            final(self).list(k as int) == old(self).list(k as int).push(i),
            final(self).entries() == old(self).entries().update(
                i as int,
                final(self).entries()[i as int],
            ),
            final(self).entries()[i as int] == (Entry3 {
                idx: final(self).entries()[i as int].idx,
                ..old(self).entries()[i as int]
            }),
            final(self).entries()[i as int].wf(),
            !is_giant(final(self).entries()[i as int]),
    {
        let head = self.heads[k];
        let e = self.load(i);
        proof {
            assert(self.list_inv(0) && self.list_inv(1) && self.list_inv(2));
            if self.items@[k as int].len() > 0 {
                assert(self.items@[k as int][self.items@[k as int].len() - 1] < self.entries().len());
            }
            assert(head == END || head < self.entries().len());
        }
        self.write_entry(i, Entry3 { idx: head, ..e });
        let ghost mid = *self;
        self.heads.set(k, i);
        self.items = Ghost(self.items@.update(k as int, self.items@[k as int].push(i)));
        self.homes = Ghost(self.homes@.update(i as int, k as int));
        proof {
            let oe = old(self).entries();
            let oh = old(self).homes@;
            assert forall|j: int| 0 <= j < self.entries().len() && j != i implies #[trigger] self.home(
                j,
            ) == old(self).home(j) by {
                assert(mid.home(j) == old(self).home(j));
            }
            lemma_linked_push(oe, head, old(self).items@[k as int], oh, k as int, i);
            if k != 0 {
                lemma_linked_write(oe, old(self).heads[0], old(self).items@[0], oh, 0, i as int, Entry3 { idx: head, ..e });
                lemma_homed_other(oh, 0, old(self).items@[0], i as int, k as int);
            }
            if k != 1 {
                lemma_linked_write(oe, old(self).heads[1], old(self).items@[1], oh, 1, i as int, Entry3 { idx: head, ..e });
                lemma_homed_other(oh, 1, old(self).items@[1], i as int, k as int);
            }
            if k != 2 {
                lemma_linked_write(oe, old(self).heads[2], old(self).items@[2], oh, 2, i as int, Entry3 { idx: head, ..e });
                lemma_homed_other(oh, 2, old(self).items@[2], i as int, k as int);
            }
        }
    }

    /// Takes the subtree on top of list `k`, if there is one.
    #[verifier::rlimit(60)]
    fn pop(&mut self, k: usize) -> (res: Option<usize>)
        requires
            old(self).shape(),
            k < 3,
            old(self).entries().len() <= PT_LEN,
        ensures
            final(self).shape(),
            final(self).rest_eq(old(self)),
            final(self).entries() == old(self).entries(),
            final(self).lists_but(old(self), k as int),
            old(self).list(k as int).len() == 0 ==> res is None && final(self).list(k as int)
                == old(self).list(k as int) && final(self).homes_but(old(self), -1),
            old(self).list(k as int).len() > 0 ==> res == Some(old(self).list(k as int).last())
                && final(self).list(k as int) == old(self).list(k as int).drop_last()
                && res.unwrap() < old(self).entries().len() && final(self).unlisted(
                res.unwrap() as int,
            ) && old(self).home(res.unwrap() as int) == k && final(self).homes_but(
                old(self),
                res.unwrap() as int,
            ),
    {
        let head = self.heads[k];
        let ghost items = self.items@[k as int];
        proof {
            assert(self.list_inv(0) && self.list_inv(1) && self.list_inv(2));
            if items.len() > 0 {
                assert(items[items.len() - 1] < self.entries().len());
            }
        }
        if head == END {
            return None;
        }
        proof {
            lemma_linked_pop(self.entries(), head, items, self.homes@, k as int);
        }
        let e = self.load(head);
        self.heads.set(k, e.idx);
        self.items = Ghost(self.items@.update(k as int, items.drop_last()));
        self.homes = Ghost(self.homes@.update(head as int, -1));
        proof {
            let oh = old(self).homes@;
            assert(self.entries() =~= old(self).entries());
            if k != 0 {
                lemma_homed_other(oh, 0, old(self).items@[0], head as int, -1);
            }
            if k != 1 {
                lemma_homed_other(oh, 1, old(self).items@[1], head as int, -1);
            }
            if k != 2 {
                lemma_homed_other(oh, 2, old(self).items@[2], head as int, -1);
            }
        }
        Some(head)
    }

    /// The directory is blank from subtree `from` on: the descriptors are
    /// zero and in no list.
    pub open spec fn blank_from(&self, from: int) -> bool {
        forall|i: int|
            from <= i < self.entries().len() ==> (#[trigger] self.entries()[i]) == (Entry3 {
                free: 0,
                idx: 0,
                reserved: false,
                huge: false,
            }) && self.home(i) == -1
    }

    /// No core has a place.
    pub open spec fn no_places(&self) -> bool {
        &&& self.places(false).len() == self.cores()
        &&& self.places(true).len() == self.cores()
        &&& forall|c: int| 0 <= c < self.cores() ==> #[trigger] self.places(false)[c] == NONE
        &&& forall|c: int| 0 <= c < self.cores() ==> #[trigger] self.places(true)[c] == NONE
    }

    /// Makes a blank directory for the frames below, with empty lists and no places.
    fn rebuild(&mut self)
        requires
            old(self).lower().structure(),
        ensures
            final(self).shape(),
            final(self).lower() == old(self).lower(),
            final(self).active() == old(self).active(),
            final(self).set_up() == old(self).set_up(),
            final(self).entries().len() == (final(self).frames() + SUBTREE - 1) / (SUBTREE as int),
            final(self).entries().len() <= PT_LEN,
            final(self).blank_from(0),
            final(self).no_places(),
            final(self).list(0).len() == 0,
            final(self).list(1).len() == 0,
            final(self).list(2).len() == 0,
    {
        proof {
            self.lower.lemma_shape();
        }
        let cores = self.lower.cores_count();
        let n = (self.lower.pages() + SUBTREE - 1) / SUBTREE;
        let mut subtrees: Vec<Atomic<Entry3>> = Vec::new();
        let mut i: usize = 0;
        while i < n
            invariant
                i <= n,
                subtrees.len() == i,
                forall|j: int|
                    0 <= j < i ==> (#[trigger] subtrees[j])@ == (Entry3 {
                        free: 0,
                        idx: 0,
                        reserved: false,
                        huge: false,
                    }),
            decreases n - i,
        {
            subtrees.push(Atomic::new(Entry3::new()));
            i += 1;
        }
        let mut start_l0: Vec<usize> = Vec::new();
        let mut start_l1: Vec<usize> = Vec::new();
        let mut c: usize = 0;
        while c < cores
            invariant
                c <= cores,
                start_l0.len() == c,
                start_l1.len() == c,
                forall|j: int| 0 <= j < c ==> start_l0[j] == NONE,
                forall|j: int| 0 <= j < c ==> start_l1[j] == NONE,
            decreases cores - c,
        {
            start_l0.push(NONE);
            start_l1.push(NONE);
            c += 1;
        }
        let mut heads: Vec<usize> = Vec::new();
        heads.push(END);
        heads.push(END);
        heads.push(END);
        let items: Ghost<Seq<Seq<usize>>> = Ghost(Seq::new(3, |k: int| Seq::<usize>::empty()));
        let homes: Ghost<Seq<int>> = Ghost(Seq::new(n as nat, |k: int| -1));
        self.subtrees = subtrees;
        self.start_l0 = start_l0;
        self.start_l1 = start_l1;
        self.heads = heads;
        self.items = items;
        self.homes = homes;
    }

    /// The list for a subtree with descriptor `e` that nobody holds: that
    /// of the free subtrees for a whole subtree without allocations, that of
    /// its size if it has more than `PTE3_FULL` free frames, else none.
    pub open spec fn list_for(e: Entry3) -> int {
        if e.free == SUBTREE {
            EMPTY as int
        } else if e.free > PTE3_FULL {
            partial(e.huge)
        } else {
            -1
        }
    }

    /// Writes the descriptor of subtree `i`, which nobody holds and which is in no list,
    /// and puts the subtree into the list that fits it.
    #[verifier::rlimit(60)]
    fn install(&mut self, i: usize, e: Entry3)
        requires
            old(self).shape(),
            i < old(self).entries().len(),
            old(self).entries().len() <= PT_LEN,
            old(self).unlisted(i as int),
            e.wf(),
            !e.reserved,
            e.idx == 0,
            e.free == SUBTREE ==> !e.huge,
        ensures
            final(self).shape(),
            final(self).rest_eq(old(self)),
            final(self).entries() == old(self).entries().update(
                i as int,
                final(self).entries()[i as int],
            ),
            final(self).entries()[i as int] == (Entry3 {
                idx: final(self).entries()[i as int].idx,
                ..e
            }),
            final(self).entries()[i as int].wf(),
            !is_giant(final(self).entries()[i as int]),
            final(self).homes_but(old(self), i as int),
            final(self).home(i as int) == Self::list_for(e),
            final(self).lists_but(old(self), Self::list_for(e)),
            Self::list_for(e) >= 0 ==> final(self).list(Self::list_for(e)) == old(self).list(
                Self::list_for(e),
            ).push(i),
    {
        self.write_entry(i, e);
        let ghost mid = *self;
        assert(mid.home(i as int) == -1) by {
            assert(mid.homes_but(old(self), -1));
        }
        if e.free == SUBTREE {
            self.push(EMPTY, i);
        } else if e.free > PTE3_FULL {
            if e.huge {
                self.push(PARTIAL_L1, i);
            } else {
                self.push(PARTIAL_L0, i);
            }
        }
        proof {
            assert(self.entries() =~= old(self).entries().update(i as int, self.entries()[i as int]));
            assert forall|j: int| 0 <= j < self.entries().len() && j != i implies #[trigger] self.home(
                j,
            ) == old(self).home(j) by {
                assert(mid.home(j) == old(self).home(j));
            }
        }
    }

    /// Number of frames of subtree `i`.
    pub open spec fn span(&self, i: int) -> int {
        self.sub(i).len() * PT_LEN
    }

    /// The lists as they are after the first `n` subtrees of an allocator
    /// without allocations were put into them, in order: the whole subtrees
    /// in the list of free subtrees, a short last one with more than
    /// `PTE3_FULL` frames in the list for single frames.
    pub open spec fn fresh_lists(&self, n: int) -> bool {
        let whole = self.frames() as int / SUBTREE as int;
        &&& self.list(EMPTY as int) == Seq::new(
            (if n <= whole {
                n
            } else {
                whole
            }) as nat,
            |j: int| j as usize,
        )
        &&& self.list(PARTIAL_L0 as int) == (if n > whole && self.frames() - whole * SUBTREE
            > PTE3_FULL {
            seq![whole as usize]
        } else {
            Seq::<usize>::empty()
        })
        &&& self.list(PARTIAL_L1 as int) == Seq::<usize>::empty()
    }

    /// Every subtree is wholly free and held by nobody, no core has a place,
    /// and the lists hold the subtrees in order.
    pub open spec fn all_free(&self) -> bool {
        &&& self.no_places()
        &&& self.fresh_lists(self.entries().len() as int)
        &&& forall|i: int|
            0 <= i < self.entries().len() ==> {
                let e = #[trigger] self.entries()[i];
                e.free == self.span(i) && !e.reserved && !e.huge && !is_giant(e) && self.home(i)
                    == Self::list_for(e)
            }
        &&& forall|r: int|
            0 <= r < self.lower().regions().len() ==> #[trigger] self.lower().regions()[r]
                == crate::leaf_alloc::fresh_entry()
    }

    /// The frames and regions of subtree `i`.
    proof fn lemma_span(&self, i: int)
        requires
            self.lower().structure(),
            0 <= i < (self.frames() + SUBTREE - 1) / (SUBTREE as int),
        ensures
            self.frames() <= MAX_PAGES,
            i * PT_LEN < self.lower().regions().len(),
            i * SUBTREE < self.frames(),
            self.sub(i).len() == self.lower().subtree_end(i * PT_LEN) - i * PT_LEN,
            0 < self.sub(i).len() <= PT_LEN,
            self.span(i) == if self.frames() - i * SUBTREE >= SUBTREE {
                SUBTREE as int
            } else {
                self.frames() - i * SUBTREE
            },
            forall|j: int|
                0 <= j < self.sub(i).len() ==> #[trigger] self.sub(i)[j] == self.lower().regions()[i
                    * PT_LEN + j],
    {
        self.lower().lemma_shape();
        lemma_subtree_span(self.frames() as int, i);
    }

    /// Putting subtree `i` of an allocator without allocations into its list
    /// gives the lists of the first `i + 1` subtrees.
    proof fn lemma_fresh_lists_step(&self, before: &Self, i: int, max: int)
        requires
            before.fresh_lists(i),
            before.lower().structure(),
            self.frames() == before.frames(),
            0 <= i < (before.frames() + SUBTREE - 1) / (SUBTREE as int),
            max == before.span(i),
            self.lists_but(
                before,
                Self::list_for(Entry3 { free: max as usize, idx: 0, reserved: false, huge: false }),
            ),
            Self::list_for(Entry3 { free: max as usize, idx: 0, reserved: false, huge: false }) >= 0
                ==> self.list(
                Self::list_for(Entry3 { free: max as usize, idx: 0, reserved: false, huge: false }),
            ) == before.list(
                Self::list_for(Entry3 { free: max as usize, idx: 0, reserved: false, huge: false }),
            ).push(i as usize),
        ensures
            self.fresh_lists(i + 1),
    {
        before.lemma_span(i);
        let whole = self.frames() as int / SUBTREE as int;
        if max == SUBTREE {
            assert(i < whole);
            assert(self.list(EMPTY as int) =~= Seq::new((i + 1) as nat, |j: int| j as usize));
        } else {
            assert(i == whole);
            if max > PTE3_FULL {
                assert(self.list(PARTIAL_L0 as int) =~= seq![whole as usize]);
            }
        }
    }

    /// Sets up an allocator in which nothing is allocated.
    #[verifier::rlimit(60)]
    fn setup(&mut self)
        requires
            old(self).shape(),
            old(self).lower().structure(),
            old(self).lower().quiet(),
            old(self).lower().claims().len() == old(self).lower().cores(),
            old(self).entries().len() == (old(self).frames() + SUBTREE - 1) / (SUBTREE as int),
            old(self).entries().len() <= PT_LEN,
            old(self).blank_from(0),
            old(self).no_places(),
            old(self).lower().base() + old(self).frames() * PAGE_SIZE <= u64::MAX,
            old(self).list(0).len() == 0,
            old(self).list(1).len() == 0,
            old(self).list(2).len() == 0,
        ensures
            final(self).wf(),
            final(self).all_free(),
            final(self).lower().same_range(&old(self).lower()),
            final(self).active() == old(self).active(),
            final(self).set_up() == old(self).set_up(),
    {
        self.lower.clear();
        let n = self.subtrees.len();
        let pages = self.lower.pages();
        let ghost low = self.lower;
        proof {
            low.lemma_shape();
            assert(self.list(EMPTY as int) =~= Seq::new(0nat, |j: int| j as usize));
            assert(self.list(PARTIAL_L0 as int) =~= Seq::<usize>::empty());
            assert(self.list(PARTIAL_L1 as int) =~= Seq::<usize>::empty());
        }
        let mut i: usize = 0;
        while i < n
            invariant
                i <= n,
                n == self.entries().len(),
                n == (self.frames() + SUBTREE - 1) / (SUBTREE as int),
                n <= PT_LEN,
                pages == self.frames(),
                self.shape(),
                self.lower() == low,
                low.wf(),
                forall|r: int|
                    0 <= r < low.regions().len() ==> #[trigger] low.regions()[r]
                        == crate::leaf_alloc::fresh_entry(),
                self.active() == old(self).active(),
                self.set_up() == old(self).set_up(),
                self.no_places(),
                self.blank_from(i as int),
                self.fresh_lists(i as int),
                forall|j: int| 0 <= j < i ==> #[trigger] self.entry_ok(j),
                forall|j: int|
                    0 <= j < i ==> {
                        let e = #[trigger] self.entries()[j];
                        e.free == self.span(j) && !e.reserved && !e.huge && !is_giant(e)
                            && self.home(j) == Self::list_for(e)
                    },
            decreases n - i,
        {
            proof {
                self.lemma_span(i as int);
            }
            let rest = pages - i * SUBTREE;
            let max = if rest >= SUBTREE {
                SUBTREE
            } else {
                rest
            };
            let ghost before = *self;
            assert(self.entries()[i as int].idx == 0 && self.home(i as int) == -1);
            self.install(i, Entry3::empty(max));
            proof {
                self.lemma_rest_eq(&before);
                self.lemma_fresh_lists_step(&before, i as int, max as int);
                let sub = self.sub(i as int);
                assert forall|j: int| 0 <= j < sub.len() implies used(#[trigger] sub[j]) == 0 by {
                    assert(sub[j] == low.regions()[i * PT_LEN + j]);
                }
                lemma_sum_used_none(sub);
                lemma_any_huge(sub);
                assert(!any_huge(sub)) by {
                    if any_huge(sub) {
                        let j = choose|j: int| 0 <= j < sub.len() && (#[trigger] sub[j]).page;
                        assert(sub[j] == low.regions()[i * PT_LEN + j]);
                    }
                }
                assert(self.entry_ok(i as int));
                assert forall|j: int| 0 <= j < i implies #[trigger] self.entry_ok(j) by {
                    assert(before.entry_ok(j));
                    assert(self.entries()[j] == before.entries()[j]);
                    assert(self.home(j) == before.home(j));
                }
                assert forall|j: int| 0 <= j < i implies {
                    let e = #[trigger] self.entries()[j];
                    e.free == self.span(j) && !e.reserved && !e.huge && !is_giant(e) && self.home(j)
                        == Self::list_for(e)
                } by {
                    assert(self.entries()[j] == before.entries()[j]);
                    assert(self.home(j) == before.home(j));
                }
                self.lemma_blank_step(&before, i as int);
            }
            i += 1;
        }
    }

    /// A subtree whose descriptor, home and regions are those of `before` is in order as it was.
    proof fn lemma_entry_ok_frame(&self, before: &Self, j: int)
        requires
            before.entry_ok(j),
            self.entries()[j] == before.entries()[j],
            self.home(j) == before.home(j),
            self.sub(j) == before.sub(j),
            self.lower().regions()[j * PT_LEN].giant == before.lower().regions()[j * PT_LEN].giant,
        ensures
            self.entry_ok(j),
    {
    }

    /// Subtree `i` of the frames below can be recovered.
    ///
    /// Each of its region descriptors can be set right, it holds
    /// allocations of one size only, and a giant unit is a whole subtree.
    pub open spec fn recoverable(low: &LeafAllocator, i: int) -> bool {
        &&& low.recoverable(i * PT_LEN)
        &&& LeafAllocator::summary(low.recovered(i * PT_LEN)) is Ok
        &&& low.recovered(i * PT_LEN)[0].giant ==> low.recovered(i * PT_LEN).len() == PT_LEN
    }

    /// The descriptor that recovery gives subtree `i`, apart from its link.
    ///
    /// A giant unit gets the giant mark. Any other subtree gets as free
    /// frames what the region descriptors, set right by their leaf tables,
    /// do not count as allocated, and serves regions if one is allocated.
    pub open spec fn recovered_entry(low: &LeafAllocator, i: int) -> Entry3 {
        let sub = low.recovered(i * PT_LEN);
        if sub[0].giant {
            giant_mark()
        } else {
            Entry3 {
                free: (sub.len() * PT_LEN - sum_used(sub)) as usize,
                idx: 0,
                reserved: false,
                huge: any_huge(sub),
            }
        }
    }

    /// List `k` after the recovery of the first `n` subtrees: those of them
    /// that belong into it, in order.
    pub open spec fn recovered_list(low: &LeafAllocator, n: int, k: int) -> Seq<usize>
        decreases n,
    {
        if n <= 0 {
            Seq::empty()
        } else {
            let rest = Self::recovered_list(low, n - 1, k);
            let e = Self::recovered_entry(low, n - 1);
            if !is_giant(e) && Self::list_for(e) == k {
                rest.push((n - 1) as usize)
            } else {
                rest
            }
        }
    }

    /// The lists after a recovery depend on the recovered descriptors only.
    proof fn lemma_recovered_list_eq(a: &LeafAllocator, b: &LeafAllocator, n: int, k: int)
        requires
            forall|j: int|
                0 <= j < n ==> #[trigger] Self::recovered_entry(a, j) == Self::recovered_entry(b, j),
        ensures
            Self::recovered_list(a, n, k) == Self::recovered_list(b, n, k),
        decreases n,
    {
        if n > 0 {
            Self::lemma_recovered_list_eq(a, b, n - 1, k);
            assert(Self::recovered_entry(a, n - 1) == Self::recovered_entry(b, n - 1));
        }
    }

    /// The lists are those after the recovery of the first `n` subtrees.
    pub open spec fn recovered_lists(&self, low: &LeafAllocator, n: int) -> bool {
        &&& self.list(0) == Self::recovered_list(low, n, 0)
        &&& self.list(1) == Self::recovered_list(low, n, 1)
        &&& self.list(2) == Self::recovered_list(low, n, 2)
    }

    /// What holds while the directory is rebuilt, when the subtrees below `i` are done.
    pub open spec fn recover_inv(&self, before: &Self, i: int, deep: bool) -> bool {
        let low0 = before.lower();
        &&& 0 <= i <= self.entries().len()
        &&& self.entries().len() == before.entries().len()
        &&& self.entries().len() == (self.frames() + SUBTREE - 1) / (SUBTREE as int)
        &&& self.entries().len() <= PT_LEN
        &&& low0.structure()
        &&& low0.leaves().len() == low0.regions().len()
        &&& self.shape()
        &&& self.lower().structure()
        &&& self.lower().quiet()
        &&& self.lower().claims().len() == self.lower().cores()
        &&& self.lower().same_range(&low0)
        &&& self.lower().leaves() == low0.leaves()
        &&& self.lower().regions().len() == low0.regions().len()
        &&& !deep ==> self.lower().wf()
        &&& forall|r: int|
            0 <= r < low0.regions().len() ==> #[trigger] self.lower().regions()[r] == (if r < i
                * PT_LEN {
                fixed(low0.regions()[r], low0.leaves()[r])
            } else {
                low0.regions()[r]
            })
        &&& forall|r: int|
            0 <= r < low0.regions().len() && r < i * PT_LEN ==> region_ok(
                #[trigger] self.lower().regions()[r],
                low0.leaves()[r],
            ) && (self.lower().regions()[r].giant ==> r % (PT_LEN as int) == 0)
        &&& forall|j: int| 0 <= j < i ==> #[trigger] Self::recoverable(&low0, j)
        &&& self.active() == before.active()
        &&& self.set_up() == before.set_up()
        &&& self.no_places()
        &&& self.blank_from(i)
        &&& self.recovered_lists(&low0, i)
        &&& forall|j: int| 0 <= j < i ==> #[trigger] self.entry_ok(j)
        &&& forall|j: int|
            0 <= j < i ==> (#[trigger] self.entries()[j]) == (Entry3 {
                idx: self.entries()[j].idx,
                ..Self::recovered_entry(&low0, j)
            }) && (!is_giant(self.entries()[j]) ==> self.home(j) == Self::list_for(
                self.entries()[j],
            ))
    }

    /// The subtrees from `i + 1` on stay blank when only subtree `i` changes.
    proof fn lemma_blank_step(&self, before: &Self, i: int)
        requires
            before.blank_from(i),
            0 <= i < before.entries().len(),
            self.entries() == before.entries().update(i, self.entries()[i]),
            self.homes_but(before, i),
        ensures
            self.blank_from(i + 1),
    {
        assert forall|j: int| i + 1 <= j < self.entries().len() implies (
        #[trigger] self.entries()[j]) == (Entry3 { free: 0, idx: 0, reserved: false, huge: false })
            && self.home(j) == -1 by {
            assert(before.entries().len() == self.entries().len());
            assert(i <= j < before.entries().len());
            let e = before.entries()[j];
            assert(e == (Entry3 { free: 0, idx: 0, reserved: false, huge: false }));
            assert(before.home(j) == -1);
            assert(self.home(j) == before.home(j));
        }
    }

    /// The subtrees below `i` stay as they are when only subtree `i` and its regions change.
    proof fn lemma_done_step(&self, before: &Self, low0: &LeafAllocator, i: int)
        requires
            0 <= i < before.entries().len(),
            before.entries().len() <= PT_LEN,
            before.lower().structure(),
            self.lower().structure(),
            before.entries().len() == (before.frames() + SUBTREE - 1) / (SUBTREE as int),
            self.lower().frames() == before.lower().frames(),
            self.lower().regions().len() == before.lower().regions().len(),
            forall|r: int|
                0 <= r < before.lower().regions().len() && !(i * PT_LEN <= r < i * PT_LEN + PT_LEN)
                    ==> #[trigger] self.lower().regions()[r] == before.lower().regions()[r],
            self.entries() == before.entries().update(i, self.entries()[i]),
            self.homes_but(before, i),
            forall|j: int| 0 <= j < i ==> #[trigger] before.entry_ok(j),
            forall|j: int|
                0 <= j < i ==> (#[trigger] before.entries()[j]) == (Entry3 {
                    idx: before.entries()[j].idx,
                    ..Self::recovered_entry(low0, j)
                }) && (!is_giant(before.entries()[j]) ==> before.home(j) == Self::list_for(
                    before.entries()[j],
                )),
        ensures
            forall|j: int| 0 <= j < i ==> #[trigger] self.entry_ok(j),
            forall|j: int|
                0 <= j < i ==> (#[trigger] self.entries()[j]) == (Entry3 {
                    idx: self.entries()[j].idx,
                    ..Self::recovered_entry(low0, j)
                }) && (!is_giant(self.entries()[j]) ==> self.home(j) == Self::list_for(
                    self.entries()[j],
                )),
    {
        assert forall|j: int| 0 <= j < i implies #[trigger] self.entry_ok(j) by {
            assert(before.entry_ok(j));
            before.lemma_span(j);
            self.lemma_span(j);
            assert(self.home(j) == before.home(j));
            assert(self.sub(j) =~= before.sub(j));
            assert(self.lower().regions()[j * PT_LEN] == before.lower().regions()[j * PT_LEN]);
            self.lemma_entry_ok_frame(before, j);
        }
        assert forall|j: int| 0 <= j < i implies (#[trigger] self.entries()[j]) == (Entry3 {
            idx: self.entries()[j].idx,
            ..Self::recovered_entry(low0, j)
        }) && (!is_giant(self.entries()[j]) ==> self.home(j) == Self::list_for(
            self.entries()[j],
        )) by {
            assert(before.entries()[j].idx == self.entries()[j].idx);
            assert(self.home(j) == before.home(j));
        }
    }

    /// Rebuilds the descriptor of subtree `i` from the region descriptors below.
    #[verifier::rlimit(80)]
    fn recover_one(&mut self, i: usize, deep: bool, start: Ghost<Self>) -> (res: Result<(), Error>)
        requires
            old(self).recover_inv(&start@, i as int, deep),
            i < old(self).entries().len(),
        ensures
            res is Ok ==> final(self).recover_inv(&start@, i + 1, deep),
            res is Err ==> !Self::recoverable(&start@.lower(), i as int),
            final(self).active() == old(self).active(),
            final(self).set_up() == old(self).set_up(),
            final(self).lower().same_range(&old(self).lower()),
            final(self).lower().leaves() == old(self).lower().leaves(),
    {
        let ghost low0 = start@.lower();
        let pages = self.lower.pages();
        proof {
            self.lemma_span(i as int);
            low0.lemma_shape();
        }
        assert(self.entries()[i as int].idx == 0 && self.home(i as int) == -1);
        let ghost before = *self;
        let ghost base = (i * PT_LEN) as int;
        let ghost end = before.lower().subtree_end(base);
        assert(crate::leaf_alloc::subtree_base((i * SUBTREE) as int) == base);
        proof {
            assert(before.lower().recovered(base) =~= low0.recovered(base));
            assert(before.lower().recoverable(base) == low0.recoverable(base)) by {
                assert forall|r: int| base <= r < end implies before.lower().regions()[r]
                    == low0.regions()[r] by {}
            }
        }
        let found = self.lower.recover(i * SUBTREE, deep);
        let ghost mid = *self;
        let ghost sub = low0.recovered(base);
        match found {
            Err(_) => {
                assert(!Self::recoverable(&low0, i as int));
                Err(Error::Corruption)
            },
            Ok((count, size)) => {
                let rest = pages - i * SUBTREE;
                let max = if rest >= SUBTREE {
                    SUBTREE
                } else {
                    rest
                };
                if size == Size::L2 && max != SUBTREE {
                    assert(!Self::recoverable(&low0, i as int));
                    return Err(Error::Corruption);
                }
                proof {
                    assert forall|j: int| 0 <= j < sub.len() implies (#[trigger] sub[j]).pages
                        <= PT_LEN by {
                        assert(deep_valid(low0.regions()[base + j], low0.leaves()[base + j]));
                        lemma_fixed_ok(low0.regions()[base + j], low0.leaves()[base + j]);
                    }
                    lemma_sum_used_bound(sub);
                    assert(self.sub(i as int) =~= sub);
                    assert(self.lower().regions()[base] == sub[0]);
                    assert(mid.entries() == before.entries());
                    assert(mid.home(i as int) == before.home(i as int));
                    if any_huge(sub) {
                        lemma_any_huge_used(sub);
                    }
                }
                if size == Size::L2 {
                    self.write_entry(i, Entry3 { free: 0, idx: GIANT, reserved: true, huge: true });
                } else {
                    self.install(i, Entry3::new_table(max - count, size, false));
                }
                proof {
                    self.lemma_rest_eq(&mid);
                    assert(self.homes_but(&before, i as int)) by {
                        assert forall|j: int|
                            0 <= j < self.entries().len() && j != i implies #[trigger] self.home(j)
                            == before.home(j) by {
                            assert(self.home(j) == mid.home(j));
                        }
                    }
                    assert(self.entries() =~= before.entries().update(
                        i as int,
                        self.entries()[i as int],
                    ));
                    self.lemma_blank_step(&before, i as int);
                    self.lemma_done_step(&before, &low0, i as int);
                    assert(self.entry_ok(i as int));
                    assert(mid.lists_but(&before, -1));
                    let e = self.entries()[i as int];
                    assert(e == (Entry3 { idx: e.idx, ..Self::recovered_entry(&low0, i as int) }));
                    assert(self.recovered_lists(&low0, i + 1));
                    assert forall|r: int|
                        0 <= r < low0.regions().len() && r < (i + 1) * PT_LEN implies region_ok(
                        #[trigger] self.lower().regions()[r],
                        low0.leaves()[r],
                    ) && (self.lower().regions()[r].giant ==> r % (PT_LEN as int) == 0) by {
                        if r >= base {
                            assert(deep_valid(low0.regions()[r], low0.leaves()[r]));
                            lemma_fixed_ok(low0.regions()[r], low0.leaves()[r]);
                        } else {
                            assert(region_ok(before.lower().regions()[r], low0.leaves()[r]));
                        }
                    }
                }
                Ok(())
            },
        }
    }

    /// Rebuilds the directory from the region descriptors below.
    ///
    /// A deep recovery sets the region descriptors right by their leaf
    /// tables first. `Corruption` says that a subtree cannot be recovered.
    fn recover(&mut self, deep: bool) -> (res: Result<(), Error>)
        requires
            old(self).shape(),
            old(self).lower().structure(),
            old(self).lower().quiet(),
            old(self).lower().claims().len() == old(self).lower().cores(),
            !deep ==> old(self).lower().wf(),
            old(self).entries().len() == (old(self).frames() + SUBTREE - 1) / (SUBTREE as int),
            old(self).entries().len() <= PT_LEN,
            old(self).blank_from(0),
            old(self).no_places(),
            old(self).lower().base() + old(self).frames() * PAGE_SIZE <= u64::MAX,
            old(self).list(0).len() == 0,
            old(self).list(1).len() == 0,
            old(self).list(2).len() == 0,
        ensures
            final(self).active() == old(self).active(),
            final(self).set_up() == old(self).set_up(),
            final(self).lower().same_range(&old(self).lower()),
            final(self).lower().leaves() == old(self).lower().leaves(),
            res is Ok <==> forall|i: int|
                0 <= i < old(self).entries().len() ==> #[trigger] Self::recoverable(
                    &old(self).lower(),
                    i,
                ),
            res is Err ==> res == Err::<(), Error>(Error::Corruption),
            res is Ok ==> {
                &&& final(self).wf()
                &&& final(self).no_places()
                &&& final(self).recovered_lists(
                    &old(self).lower(),
                    old(self).entries().len() as int,
                )
                &&& final(self).entries().len() == old(self).entries().len()
                &&& final(self).lower().regions().len() == old(self).lower().regions().len()
                &&& forall|r: int|
                    0 <= r < old(self).lower().regions().len() ==> #[trigger] final(self).lower().regions()[r] == fixed(
                        old(self).lower().regions()[r],
                        old(self).lower().leaves()[r],
                    )
                &&& forall|i: int|
                    0 <= i < old(self).entries().len() ==> (#[trigger] final(self).entries()[i]) == (Entry3 {
                        idx: final(self).entries()[i].idx,
                        ..Self::recovered_entry(&old(self).lower(), i)
                    }) && (!is_giant(final(self).entries()[i]) ==> final(self).home(i)
                        == Self::list_for(final(self).entries()[i]))
            },
    {
        let n = self.subtrees.len();
        let start: Ghost<Self> = Ghost(*self);
        proof {
            self.lower().lemma_shape();
            assert(self.list(0) =~= Seq::<usize>::empty());
            assert(self.list(1) =~= Seq::<usize>::empty());
            assert(self.list(2) =~= Seq::<usize>::empty());
        }
        let mut i: usize = 0;
        while i < n
            invariant
                i <= n,
                n == self.entries().len(),
                start@ == *old(self),
                self.recover_inv(&start@, i as int, deep),
                self.active() == old(self).active(),
                self.set_up() == old(self).set_up(),
                self.lower().same_range(&old(self).lower()),
                self.lower().leaves() == old(self).lower().leaves(),
            decreases n - i,
        {
            match self.recover_one(i, deep, start) {
                Ok(()) => {},
                Err(_) => {
                    return Err(Error::Corruption);
                },
            }
            i += 1;
        }
        proof {
            self.lower().lemma_shape();
            assert forall|r: int| 0 <= r < self.lower().regions().len() implies region_ok(
                #[trigger] self.lower().regions()[r],
                self.lower().leaves()[r],
            ) by {
                if n > 0 {
                    self.lemma_span(n - 1);
                }
            }
            assert forall|r: int|
                0 <= r < self.lower().regions().len() && (
                #[trigger] self.lower().regions()[r]).giant implies r % (PT_LEN as int) == 0 by {
                if n > 0 {
                    self.lemma_span(n - 1);
                }
            }
            assert forall|r: int| 0 <= r < old(self).lower().regions().len() implies #[trigger] self.lower().regions()[r]
                == fixed(old(self).lower().regions()[r], old(self).lower().leaves()[r]) by {
                if n > 0 {
                    self.lemma_span(n - 1);
                }
            }
        }
        Ok(())
    }

    /// Writes the header.
    fn set_meta(&mut self, magic: usize, pages: usize, active: usize)
        ensures
            final(self).shape() == old(self).shape(),
            final(self).lower() == old(self).lower(),
            final(self).entries() == old(self).entries(),
            final(self).places(true) == old(self).places(true),
            final(self).places(false) == old(self).places(false),
            final(self).lists_but(old(self), -1),
            final(self).homes_but(old(self), -1),
            final(self).active() == (active != 0),
            final(self).set_up() == (magic == MAGIC && pages == old(self).frames()),
            old(self).wf() ==> final(self).wf(),
            old(self).all_free() ==> final(self).all_free(),
            old(self).no_places() ==> final(self).no_places(),
    {
        self.meta.magic = magic;
        self.meta.pages = pages;
        self.meta.active = active;
        proof {
            assert(self.list_inv(0) == old(self).list_inv(0));
            assert(self.list_inv(1) == old(self).list_inv(1));
            assert(self.list_inv(2) == old(self).list_inv(2));
            if old(self).wf() {
                assert forall|i: int| 0 <= i < self.entries().len() implies #[trigger] self.entry_ok(
                    i,
                ) by {
                    assert(old(self).entry_ok(i));
                }
            }
            if old(self).all_free() {
                assert(self.fresh_lists(self.entries().len() as int));
                assert forall|i: int| 0 <= i < self.entries().len() implies {
                    let e = #[trigger] self.entries()[i];
                    e.free == self.span(i) && !e.reserved && !e.huge && !is_giant(e) && self.home(i)
                        == Self::list_for(e)
                } by {
                    let e = old(self).entries()[i];
                    assert(e.free == old(self).span(i));
                }
            }
        }
    }

    /// The frames that an allocator manages in a range of `len` frames.
    ///
    /// The last frame of the range holds the header, at most `MAX_PAGES`
    /// frames are managed, and only whole regions.
    pub open spec fn usable(len: usize) -> int {
        if len == 0 {
            0
        } else if len - 1 >= MAX_PAGES {
            MAX_PAGES as int
        } else {
            (len - 1) - (len - 1) % (PT_LEN as int)
        }
    }

    /// A range of `len` frames from address `begin` on cannot serve `cores` cores.
    ///
    /// It is empty, or smaller than `MIN_PAGES` frames per core, or reaches
    /// beyond the end of the address space.
    pub open spec fn unusable(cores: usize, begin: u64, len: usize) -> bool {
        len == 0 || len < MIN_PAGES * cores || begin + Self::usable(len) * PAGE_SIZE > u64::MAX
    }

    /// Makes the allocator ready over the `len` frames from address `begin` on, for `cores` cores.
    ///
    /// Where the header tells that the allocator was set up over as many
    /// frames, and `overwrite` does not forbid it, the state is recovered:
    /// from the region descriptors if the allocator was shut down, and from
    /// the leaf tables as well if it was not. Otherwise the allocator is set
    /// up anew, with nothing allocated. An allocator whose recovery fails
    /// manages nothing afterwards.
    #[verifier::rlimit(60)]
    pub fn init(&mut self, cores: usize, begin: u64, len: usize, overwrite: bool) -> (res: Result<
        (),
        Error,
    >)
        requires
            old(self).image_ok(),
        ensures
            Self::unusable(cores, begin, len) ==> res == Err::<(), Error>(Error::Initialization)
                && *final(self) == *old(self),
            !Self::unusable(cores, begin, len) && !(!overwrite && old(self).set_up() && old(self).frames() == Self::usable(len)) ==> res is Ok && final(self).all_free(),
            !Self::unusable(cores, begin, len) && !overwrite && old(self).set_up() && old(self).frames() == Self::usable(len) ==> {
                &&& res is Ok <==> forall|i: int|
                    0 <= i < (old(self).frames() + SUBTREE - 1) / (SUBTREE as int)
                        ==> #[trigger] Self::recoverable(&old(self).lower(), i)
                &&& res is Err ==> res == Err::<(), Error>(Error::Corruption) && final(self).frames() == 0 && final(self).cores() == 0 && final(self).wf() && !final(self).active() && !final(self).set_up()
                &&& res is Ok ==> {
                    &&& final(self).no_places()
                    &&& final(self).recovered_lists(
                        &old(self).lower(),
                        final(self).entries().len() as int,
                    )
                    &&& final(self).lower().leaves() == old(self).lower().leaves()
                    &&& final(self).lower().regions().len() == old(self).lower().regions().len()
                    &&& forall|r: int|
                        0 <= r < old(self).lower().regions().len() ==> #[trigger] final(self).lower().regions()[r] == fixed(
                            old(self).lower().regions()[r],
                            old(self).lower().leaves()[r],
                        )
                    &&& forall|i: int|
                        0 <= i < final(self).entries().len() ==> #[trigger] final(self).entries()[i] == (Entry3 {
                            idx: final(self).entries()[i].idx,
                            ..Self::recovered_entry(&old(self).lower(), i)
                        }) && (!is_giant(final(self).entries()[i]) ==> final(self).home(i)
                            == Self::list_for(final(self).entries()[i]))
                }
            },
            res is Ok ==> {
                &&& final(self).wf()
                &&& final(self).active()
                &&& final(self).set_up()
                &&& final(self).frames() == Self::usable(len)
                &&& final(self).cores() == cores
                &&& final(self).lower().base() == begin
            },
    {
        if len == 0 || cores > len / MIN_PAGES {
            assert(Self::unusable(cores, begin, len)) by {
                if len > 0 {
                    assert(len < MIN_PAGES * cores) by (nonlinear_arith)
                        requires
                            cores > len / 1024,
                            MIN_PAGES == 1024,
                    ;
                }
            }
            return Err(Error::Initialization);
        }
        assert(len >= MIN_PAGES * cores) by (nonlinear_arith)
            requires
                cores <= len / 1024,
                MIN_PAGES == 1024,
        ;
        let most = if len - 1 >= MAX_PAGES {
            MAX_PAGES
        } else {
            len - 1
        };
        let usable = most - most % PT_LEN;
        assert(usable == Self::usable(len));
        assert(usable * PAGE_SIZE <= 134217728 * 4096) by (nonlinear_arith)
            requires
                usable <= 134217728,
                PAGE_SIZE == 4096,
        ;
        if begin > u64::MAX - (usable as u64) * (PAGE_SIZE as u64) {
            return Err(Error::Initialization);
        }
        proof {
            self.lower().lemma_shape();
        }
        let recovering = !overwrite && self.meta.magic == MAGIC && self.meta.pages == usable
            && self.lower.pages() == usable;
        let mut ready_low: Ghost<LeafAllocator> = Ghost(self.lower);
        if recovering {
            let deep = self.meta.active != 0;
            let ghost low0 = self.lower;
            self.lower.restart(cores, begin);
            proof {
                assert(self.lower().recovered(0) =~= low0.recovered(0));
            }
            self.rebuild();
            let ghost low1 = self.lower;
            proof {
                ready_low@ = low1;
                assert forall|i: int| 0 <= i < self.entries().len() implies Self::recoverable(
                    &low1,
                    i,
                ) == #[trigger] Self::recoverable(&low0, i) by {
                    assert(low1.recovered(i * PT_LEN) =~= low0.recovered(i * PT_LEN));
                }
                assert forall|i: int|
                    0 <= i < self.entries().len() implies #[trigger] Self::recovered_entry(&low1, i)
                    == Self::recovered_entry(&low0, i) by {
                    assert(low1.recovered(i * PT_LEN) =~= low0.recovered(i * PT_LEN));
                }
            }
            let ghost n = self.entries().len() as int;
            match self.recover(deep) {
                Ok(()) => {},
                Err(_) => {
                    proof {
                        let i = choose|i: int| 0 <= i < n && !Self::recoverable(&low1, i);
                        assert(low1.recovered(i * PT_LEN) =~= low0.recovered(i * PT_LEN));
                        assert(!Self::recoverable(&low0, i));
                    }
                    *self = Self::new();
                    return Err(Error::Corruption);
                },
            }
        } else {
            self.lower = LeafAllocator::new(cores, begin, usable);
            self.rebuild();
            self.setup();
        }
        let ghost ready = *self;
        self.set_meta(MAGIC, usable, 1);
        proof {
            if recovering {
                let n = self.entries().len() as int;
                assert(ready.recovered_lists(&ready_low@, n));
                Self::lemma_recovered_list_eq(&ready_low@, &old(self).lower(), n, 0);
                Self::lemma_recovered_list_eq(&ready_low@, &old(self).lower(), n, 1);
                Self::lemma_recovered_list_eq(&ready_low@, &old(self).lower(), n, 2);
                assert forall|i: int| 0 <= i < self.entries().len() implies #[trigger] self.entries()[i] == (Entry3 {
                    idx: self.entries()[i].idx,
                    ..Self::recovered_entry(&old(self).lower(), i)
                }) && (!is_giant(self.entries()[i]) ==> self.home(i) == Self::list_for(
                    self.entries()[i],
                )) by {
                    assert(ready.entries()[i] == self.entries()[i]);
                    assert(self.home(i) == ready.home(i));
                }
            }
        }
        Ok(())
    }

    /// Marks the allocator as shut down: the next `init` trusts the region descriptors.
    pub fn shutdown(&mut self)
        requires
            old(self).wf(),
        ensures
            final(self).wf(),
            !final(self).active(),
            final(self).set_up() == old(self).set_up(),
            final(self).lower() == old(self).lower(),
            final(self).entries() == old(self).entries(),
            final(self).places(true) == old(self).places(true),
            final(self).places(false) == old(self).places(false),
            final(self).lists_but(old(self), -1),
            final(self).homes_but(old(self), -1),
    {
        self.set_meta(self.meta.magic, self.meta.pages, 0);
    }

    /// Overwrites the descriptor of the region of frame `page`, as a write
    /// that was cut short would, and marks the allocator as not shut down.
    ///
    /// Only `init` brings the allocator back into order after that.
    pub fn set_pt2(&mut self, page: usize, e: Entry2)
        requires
            old(self).image_ok(),
            page < old(self).frames(),
            e.wf(),
        ensures
            final(self).image_ok(),
            final(self).active(),
            final(self).set_up() == old(self).set_up(),
            final(self).lower().same_range(&old(self).lower()),
            final(self).lower().leaves() == old(self).lower().leaves(),
            final(self).lower().regions() == old(self).lower().regions().update(
                (page / PT_LEN) as int,
                e,
            ),
    {
        self.set_meta(self.meta.magic, self.meta.pages, 1);
        self.lower.set_pt2(page, e);
        proof {
            self.lower().lemma_shape();
            old(self).lower().lemma_shape();
            assert(self.list_inv(0) == old(self).list_inv(0));
            assert(self.list_inv(1) == old(self).list_inv(1));
            assert(self.list_inv(2) == old(self).list_inv(2));
        }
    }

    /// Overwrites the slot of frame `page` in the leaf table of its region,
    /// as a write that was cut short would, and marks the allocator as not
    /// shut down.
    ///
    /// Only `init` brings the allocator back into order after that.
    pub fn set_pt1(&mut self, page: usize, e: crate::entry::Entry1)
        requires
            old(self).image_ok(),
            page < old(self).frames(),
        ensures
            final(self).image_ok(),
            final(self).active(),
            final(self).set_up() == old(self).set_up(),
            final(self).lower().same_range(&old(self).lower()),
            final(self).lower().regions() == old(self).lower().regions(),
            final(self).lower().leaves() == old(self).lower().leaves().update(
                (page / PT_LEN) as int,
                old(self).lower().leaves()[(page / PT_LEN) as int].update(
                    (page % PT_LEN) as int,
                    e,
                ),
            ),
    {
        self.set_meta(self.meta.magic, self.meta.pages, 1);
        self.lower.set_pt1(page, e);
        proof {
            self.lower().lemma_shape();
            old(self).lower().lemma_shape();
            assert(self.list_inv(0) == old(self).list_inv(0));
            assert(self.list_inv(1) == old(self).list_inv(1));
            assert(self.list_inv(2) == old(self).list_inv(2));
        }
    }

    /// The descriptors of the subtrees, in order.
    pub fn subtrees(&self) -> (out: Vec<Entry3>)
        ensures
            out@ == self.entries(),
    {
        let mut out: Vec<Entry3> = Vec::new();
        let mut i: usize = 0;
        while i < self.subtrees.len()
            invariant
                i <= self.subtrees.len(),
                self.subtrees.len() == self.entries().len(),
                out@ == self.entries().subrange(0, i as int),
            decreases self.subtrees.len() - i,
        {
            let e = self.load(i);
            out.push(e);
            assert(out@ =~= self.entries().subrange(0, i + 1));
            i += 1;
        }
        assert(out@ =~= self.entries());
        out
    }

    /// Frame `f` is allocated.
    pub open spec fn allocated(&self, f: int) -> bool {
        self.lower().allocated(f)
    }

    /// Number of allocated frames, as the directory counts them.
    pub open spec fn allocated_count(&self) -> int {
        self.frames() - sum_free(self.entries())
    }

    /// The subtree that is taken out of the lists for a unit of the size, if there is one.
    pub open spec fn pick(&self, huge: bool) -> Option<usize> {
        pick_from(self.list(partial(huge)), self.list(EMPTY as int), self.entries(), huge)
    }

    /// The subtrees that are put aside in a search for the size: they go to
    /// the list for single frames, which a search for single frames looks
    /// through itself, so that it puts nothing aside.
    pub open spec fn aside(&self, huge: bool) -> Seq<usize> {
        if huge {
            self.list(PARTIAL_L0 as int)
        } else {
            Seq::empty()
        }
    }

    /// The lists after a subtree was looked for.
    pub open spec fn sifted(&self, huge: bool) -> (Seq<usize>, Seq<usize>, Seq<usize>) {
        sift(
            self.list(partial(huge)),
            self.list(EMPTY as int),
            self.aside(huge),
            self.entries(),
            huge,
        )
    }

    /// The lists are those that a search for the size in `o` leaves behind.
    pub open spec fn lists_sifted(&self, o: &Self, huge: bool) -> bool {
        &&& self.list(partial(huge)) == o.sifted(huge).0
        &&& self.list(EMPTY as int) == o.sifted(huge).1
        &&& self.aside(huge) == o.sifted(huge).2
        &&& !huge ==> self.list(PARTIAL_L1 as int) == o.list(PARTIAL_L1 as int)
    }

    /// The members of a list are subtrees.
    proof fn lemma_list_bound(&self, k: int)
        requires
            self.shape(),
            0 <= k < 3,
        ensures
            forall|a: int| 0 <= a < self.list(k).len() ==> #[trigger] self.list(k)[a] < self.entries().len(),
    {
        assert forall|a: int| 0 <= a < self.list(k).len() implies #[trigger] self.list(k)[a]
            < self.entries().len() by {
            self.lemma_home(k, a);
        }
    }

    /// No list holds a subtree that could hand out a unit of the size.
    pub open spec fn exhausted(&self, huge: bool) -> bool {
        &&& self.list(EMPTY as int).len() == 0
        &&& forall|a: int|
            0 <= a < self.list(partial(huge)).len() ==> !can_dec(
                self.entries()[(#[trigger] self.list(partial(huge))[a]) as int],
                huge,
            )
    }

    /// The descriptors are those of `o`, apart from their links.
    pub open spec fn entries_but_links(&self, o: &Self) -> bool {
        &&& self.entries().len() == o.entries().len()
        &&& forall|j: int|
            0 <= j < self.entries().len() ==> (#[trigger] self.entries()[j]) == (Entry3 {
                idx: self.entries()[j].idx,
                ..o.entries()[j]
            })
    }

    /// The subtrees other than `i` stay in order when only subtree `i` and its regions change.
    proof fn lemma_others_ok(&self, before: &Self, i: int)
        requires
            before.wf(),
            0 <= i < before.entries().len(),
            self.lower().structure(),
            self.lower().frames() == before.lower().frames(),
            self.lower().regions().len() == before.lower().regions().len(),
            forall|r: int|
                0 <= r < before.lower().regions().len() && !(i * PT_LEN <= r < i * PT_LEN + PT_LEN)
                    ==> #[trigger] self.lower().regions()[r] == before.lower().regions()[r],
            self.entries() == before.entries().update(i, self.entries()[i]),
            self.homes_but(before, i),
        ensures
            forall|j: int| 0 <= j < self.entries().len() && j != i ==> #[trigger] self.entry_ok(j),
    {
        before.lower().lemma_shape();
        assert forall|j: int| 0 <= j < self.entries().len() && j != i implies #[trigger] self.entry_ok(
            j,
        ) by {
            assert(before.entry_ok(j));
            before.lemma_span(j);
            self.lemma_span(j);
            assert(self.home(j) == before.home(j));
            assert(self.sub(j) =~= before.sub(j));
            assert(self.lower().regions()[j * PT_LEN] == before.lower().regions()[j * PT_LEN]);
            self.lemma_entry_ok_frame(before, j);
        }
    }

    /// The places stay in order when only subtree `i` changes and stays held as it was.
    proof fn lemma_places_step(&self, before: &Self, i: int)
        requires
            before.places_ok(),
            0 <= i < before.entries().len(),
            before.entries().len() == (before.frames() + SUBTREE - 1) / (SUBTREE as int),
            self.frames() == before.frames(),
            self.cores() == before.cores(),
            self.places(true) == before.places(true),
            self.places(false) == before.places(false),
            self.entries() == before.entries().update(i, self.entries()[i]),
            self.entries()[i].reserved == before.entries()[i].reserved || forall|h: bool, c: int|
                0 <= c < self.cores() && #[trigger] self.places(h)[c] != NONE ==> self.places(h)[c] as int
                    / SUBTREE as int != i,
            is_giant(self.entries()[i]) == is_giant(before.entries()[i]) || forall|h: bool, c: int|
                0 <= c < self.cores() && #[trigger] self.places(h)[c] != NONE ==> self.places(h)[c] as int
                    / SUBTREE as int != i,
        ensures
            self.places_ok(),
    {
        assert forall|h: bool, c: int| 0 <= c < self.cores() implies self.place_ok(
            #[trigger] self.places(h)[c],
        ) by {
            let p = self.places(h)[c];
            assert(before.place_ok(before.places(h)[c]));
            if p != NONE {
                let j = p as int / SUBTREE as int;
                if j != i {
                    assert(self.entries()[j] == before.entries()[j]);
                }
            }
        }
    }

    /// A move of subtree `i` between the lists leaves the allocator in order.
    proof fn lemma_move_ok(&self, before: &Self, i: int)
        requires
            before.wf(),
            self.shape(),
            self.rest_eq(before),
            0 <= i < before.entries().len(),
            self.entries() == before.entries().update(i, self.entries()[i]),
            self.entries()[i] == (Entry3 { idx: self.entries()[i].idx, ..before.entries()[i] }),
            self.entries()[i].wf(),
            !is_giant(self.entries()[i]),
            !is_giant(before.entries()[i]),
            self.homes_but(before, i),
            home_ok(self.entries()[i], self.home(i), self.span(i)),
        ensures
            self.wf(),
            self.entries_but_links(before),
            sum_free(self.entries()) == sum_free(before.entries()),
    {
        self.lemma_rest_eq(before);
        self.lemma_others_ok(before, i);
        self.lemma_places_step(before, i);
        assert(before.entry_ok(i));
        assert(self.sub(i) == before.sub(i));
        assert(self.entry_ok(i));
        assert forall|j: int| 0 <= j < self.entries().len() implies #[trigger] self.entry_ok(j) by {}
        lemma_sum_free_update(before.entries(), i, self.entries()[i]);
        assert forall|j: int| 0 <= j < self.entries().len() implies (
        #[trigger] self.entries()[j]) == (Entry3 {
            idx: self.entries()[j].idx,
            ..before.entries()[j]
        }) by {
            if j != i {
                assert(self.entries()[j] == before.entries()[j]);
            }
        }
    }

    /// The lists, homes and descriptors are those of `o`.
    pub open spec fn list_same(&self, o: &Self) -> bool {
        &&& self.shape()
        &&& self.rest_eq(o)
        &&& self.entries() == o.entries()
        &&& self.lists_but(o, -1)
        &&& self.homes_but(o, -1)
    }

    /// An allocator with the lists, homes and descriptors of one in order is in order.
    proof fn lemma_same_lists_ok(&self, before: &Self)
        requires
            before.wf(),
            self.list_same(before),
        ensures
            self.wf(),
            self.entries_but_links(before),
            forall|huge: bool| self.exhausted(huge) == before.exhausted(huge),
    {
        self.lemma_rest_eq(before);
        assert forall|j: int| 0 <= j < self.entries().len() implies #[trigger] self.entry_ok(j) by {
            assert(before.entry_ok(j));
            assert(self.home(j) == before.home(j));
        }
        assert forall|huge: bool| self.exhausted(huge) == before.exhausted(huge) by {
            assert(self.list(partial(huge)) == before.list(partial(huge)));
        }
    }

    /// Descriptors that differ from others in their links only, which do so from a third.
    proof fn lemma_links_trans(&self, mid: &Self, first: &Self)
        requires
            self.entries_but_links(mid),
            mid.entries_but_links(first),
        ensures
            self.entries_but_links(first),
    {
        assert forall|j: int| 0 <= j < self.entries().len() implies (
        #[trigger] self.entries()[j]) == (Entry3 {
            idx: self.entries()[j].idx,
            ..first.entries()[j]
        }) by {
            let m = mid.entries()[j];
            assert(m == (Entry3 { idx: m.idx, ..first.entries()[j] }));
        }
    }

    /// The rest stays the same over two steps.
    proof fn lemma_rest_trans(&self, mid: &Self, first: &Self)
        requires
            self.rest_eq(mid),
            mid.rest_eq(first),
        ensures
            self.rest_eq(first),
    {
    }

    /// A list that holds a subtree for the size is not exhausted.
    proof fn lemma_found_not_exhausted(&self, huge: bool)
        requires
            self.list(partial(huge)).len() > 0,
            can_dec(self.entries()[self.list(partial(huge)).last() as int], huge),
        ensures
            !self.exhausted(huge),
    {
        let a = self.list(partial(huge)).len() - 1;
        assert(can_dec(self.entries()[self.list(partial(huge))[a] as int], huge));
    }

    /// Moving the top of the list for a size into another list does not
    /// change whether the lists are exhausted: a subtree that goes to the
    /// free ones could have served, and one that goes elsewhere could not.
    proof fn lemma_moved_exhausted(&self, before: &Self, huge: bool, i: int, to: int)
        requires
            before.wf(),
            self.wf(),
            before.list(partial(huge)).len() > 0,
            i == before.list(partial(huge)).last(),
            to != partial(huge),
            0 <= to < 3,
            self.list(partial(huge)) == before.list(partial(huge)).drop_last(),
            self.list(to) == before.list(to).push(i as usize),
            to != EMPTY ==> self.list(EMPTY as int) == before.list(EMPTY as int),
            self.entries_but_links(before),
            to == EMPTY ==> before.entries()[i].free == SUBTREE,
            to != EMPTY ==> !can_dec(before.entries()[i], huge),
        ensures
            self.exhausted(huge) == before.exhausted(huge),
    {
        let p = partial(huge);
        let n = before.list(p).len() as int;
        if to == EMPTY {
            assert(self.list(EMPTY as int).len() > 0);
            assert(can_dec(before.entries()[before.list(p)[n - 1] as int], huge)) by {
                before.lemma_home(p, n - 1);
                assert(before.entry_ok(i));
            }
        } else {
            if before.exhausted(huge) {
                assert forall|a: int| 0 <= a < self.list(p).len() implies !can_dec(
                    self.entries()[(#[trigger] self.list(p)[a]) as int],
                    huge,
                ) by {
                    let j = before.list(p)[a] as int;
                    assert(!can_dec(before.entries()[j], huge));
                    before.lemma_home(p, a);
                    let e = self.entries()[j];
                    assert(e == (Entry3 { idx: e.idx, ..before.entries()[j] }));
                }
            }
            if self.exhausted(huge) {
                assert forall|a: int| 0 <= a < before.list(p).len() implies !can_dec(
                    before.entries()[(#[trigger] before.list(p)[a]) as int],
                    huge,
                ) by {
                    if a < n - 1 {
                        let j = self.list(p)[a] as int;
                        assert(!can_dec(self.entries()[j], huge));
                        before.lemma_home(p, a);
                        let e = self.entries()[j];
                        assert(e == (Entry3 { idx: e.idx, ..before.entries()[j] }));
                    }
                }
            }
        }
    }

    /// A subtree that is in order and has as many free frames as a whole subtree is one.
    proof fn lemma_whole(&self, i: int)
        requires
            self.wf(),
            0 <= i < self.entries().len(),
            !is_giant(self.entries()[i]),
        ensures
            self.entries()[i].free <= self.span(i) <= SUBTREE,
            self.entries()[i].free == SUBTREE ==> self.span(i) == SUBTREE && !self.entries()[i].huge,
    {
        assert(self.entry_ok(i));
        self.lemma_span(i);
    }

    /// Takes a subtree that can hand out a unit of the size out of the lists.
    ///
    /// The list for the size is looked through from the top. A subtree in it
    /// that has become wholly free goes to the list of free subtrees, and one
    /// that cannot serve the size to the list for single frames. Where the
    /// list gives nothing, the list of free subtrees is asked. `Memory` says
    /// that no list holds a subtree for the size.
    #[verifier::rlimit(60)]
    fn reserve(&mut self, huge: bool) -> (res: Result<usize, Error>)
        requires
            old(self).wf(),
        ensures
            final(self).wf(),
            final(self).rest_eq(old(self)),
            final(self).entries_but_links(old(self)),
            sum_free(final(self).entries()) == sum_free(old(self).entries()),
            res is Err <==> old(self).exhausted(huge),
            res is Err ==> res == Err::<usize, Error>(Error::Memory),
            res is Ok <==> old(self).pick(huge) is Some,
            res is Ok ==> res.unwrap() == old(self).pick(huge).unwrap(),
            final(self).lists_sifted(old(self), huge),
            res is Ok ==> {
                let i = res.unwrap() as int;
                &&& 0 <= i < final(self).entries().len()
                &&& final(self).unlisted(i)
                &&& can_dec(final(self).entries()[i], huge)
                &&& !final(self).entries()[i].reserved
                &&& !is_giant(final(self).entries()[i])
            },
    {
        let k = if huge {
            PARTIAL_L1
        } else {
            PARTIAL_L0
        };
        let span: usize = if huge {
            PT_LEN
        } else {
            1
        };
        proof {
            self.lower().lemma_shape();
        }
        let mut more = true;
        while more
            invariant
                k == partial(huge),
                span == span_of(huge),
                self.wf(),
                self.rest_eq(old(self)),
                self.entries_but_links(old(self)),
                self.entries().len() <= PT_LEN,
                sum_free(self.entries()) == sum_free(old(self).entries()),
                self.exhausted(huge) == old(self).exhausted(huge),
                self.pick(huge) == old(self).pick(huge),
                self.sifted(huge) == old(self).sifted(huge),
                !huge ==> self.list(PARTIAL_L1 as int) == old(self).list(PARTIAL_L1 as int),
                !more ==> self.list(k as int).len() == 0,
            decreases self.list(k as int).len() + (if more { 1int } else { 0int }),
        {
            let ghost before = *self;
            match self.pop(k) {
                None => {
                    more = false;
                    proof {
                        assert(self.list_same(&before));
                        self.lemma_same_lists_ok(&before);
                    }
                },
                Some(i) => {
                    let ghost popped = *self;
                    let e = self.load(i);
                    proof {
                        before.lemma_home(k as int, before.list(k as int).len() - 1);
                        assert(before.entry_ok(i as int));
                        before.lemma_whole(i as int);
                        assert(popped.entries() =~= before.entries().update(
                            i as int,
                            popped.entries()[i as int],
                        ));
                        popped.lemma_move_ok(&before, i as int);
                    }
                    if e.free == SUBTREE {
                        self.push(EMPTY, i);
                        proof {
                            popped.lemma_list_bound(k as int);
                            lemma_pick_links(
                                popped.list(k as int),
                                self.list(EMPTY as int),
                                self.entries(),
                                before.entries(),
                                huge,
                            );
                            lemma_sift_links(
                                popped.list(k as int),
                                self.list(EMPTY as int),
                                self.aside(huge),
                                self.entries(),
                                before.entries(),
                                huge,
                            );
                            self.lemma_move_ok(&popped, i as int);
                            self.lemma_links_trans(&popped, old(self));
                            self.lemma_rest_trans(&popped, old(self));
                            self.lemma_moved_exhausted(&before, huge, i as int, EMPTY as int);
                        }
                    } else {
                        match e.dec(span, SUBTREE) {
                            Some(_) => {
                                proof {
                                    popped.lemma_links_trans(&before, old(self));
                                    popped.lemma_rest_trans(&before, old(self));
                                    before.lemma_found_not_exhausted(huge);
                                }
                                return Ok(i);
                            },
                            None => {
                                self.push(PARTIAL_L0, i);
                                proof {
                                    popped.lemma_list_bound(k as int);
                                    lemma_pick_links(
                                        popped.list(k as int),
                                        self.list(EMPTY as int),
                                        self.entries(),
                                        before.entries(),
                                        huge,
                                    );
                                    lemma_sift_links(
                                        popped.list(k as int),
                                        self.list(EMPTY as int),
                                        self.aside(huge),
                                        self.entries(),
                                        before.entries(),
                                        huge,
                                    );
                                    self.lemma_move_ok(&popped, i as int);
                                    self.lemma_links_trans(&popped, old(self));
                                    self.lemma_rest_trans(&popped, old(self));
                                    self.lemma_moved_exhausted(
                                        &before,
                                        huge,
                                        i as int,
                                        PARTIAL_L0 as int,
                                    );
                                }
                            },
                        }
                    }
                },
            }
        }
        let ghost before = *self;
        match self.pop(EMPTY) {
            Some(i) => {
                proof {
                    before.lemma_home(EMPTY as int, before.list(EMPTY as int).len() - 1);
                    assert(before.entry_ok(i as int));
                    assert(self.entries() =~= before.entries().update(
                        i as int,
                        self.entries()[i as int],
                    ));
                    self.lemma_move_ok(&before, i as int);
                    self.lemma_links_trans(&before, old(self));
                    self.lemma_rest_trans(&before, old(self));
                }
                Ok(i)
            },
            None => {
                proof {
                    assert(self.list_same(&before));
                    self.lemma_same_lists_ok(&before);
                    self.lemma_rest_trans(&before, old(self));
                }
                Err(Error::Memory)
            },
        }
    }

    /// No core's place lies in subtree `i`.
    pub open spec fn no_place_in(&self, i: int) -> bool {
        forall|h: bool, c: int|
            0 <= c < self.cores() && #[trigger] self.places(h)[c] != NONE ==> self.places(h)[c] as int
                / SUBTREE as int != i
    }

    /// Writes the place at which a core allocates units of a size.
    fn set_place(&mut self, core: usize, huge: bool, v: usize)
        requires
            old(self).shape(),
            core < old(self).cores(),
        ensures
            final(self).shape(),
            final(self).lower() == old(self).lower(),
            final(self).active() == old(self).active(),
            final(self).set_up() == old(self).set_up(),
            final(self).entries() == old(self).entries(),
            final(self).lists_but(old(self), -1),
            final(self).homes_but(old(self), -1),
            final(self).places(huge) == old(self).places(huge).update(core as int, v),
            final(self).places(!huge) == old(self).places(!huge),
    {
        if huge {
            self.start_l1.set(core, v);
        } else {
            self.start_l0.set(core, v);
        }
        proof {
            assert(self.list_inv(0) == old(self).list_inv(0));
            assert(self.list_inv(1) == old(self).list_inv(1));
            assert(self.list_inv(2) == old(self).list_inv(2));
        }
    }

    /// Forgetting a place leaves the allocator in order.
    proof fn lemma_forget_place(&self, before: &Self, core: int, huge: bool)
        requires
            before.wf(),
            0 <= core < before.cores(),
            self.shape(),
            self.lower() == before.lower(),
            self.entries() == before.entries(),
            self.homes_but(before, -1),
            self.places(huge) == before.places(huge).update(core, NONE),
            self.places(!huge) == before.places(!huge),
        ensures
            self.wf(),
            before.places(huge)[core] != NONE ==> self.no_place_in(
                before.places(huge)[core] as int / SUBTREE as int,
            ),
    {
        assert forall|j: int| 0 <= j < self.entries().len() implies #[trigger] self.entry_ok(j) by {
            assert(before.entry_ok(j));
            assert(self.home(j) == before.home(j));
        }
        assert forall|h: bool, c: int| 0 <= c < self.cores() implies self.place_ok(
            #[trigger] self.places(h)[c],
        ) by {
            assert(before.place_ok(before.places(h)[c]));
        }
        assert forall|h1: bool, c1: int, h2: bool, c2: int|
            0 <= c1 < self.cores() && 0 <= c2 < self.cores() && (h1 != h2 || c1 != c2)
                && #[trigger] self.places(h1)[c1] != NONE && #[trigger] self.places(h2)[c2]
                != NONE implies self.places(h1)[c1] as int / SUBTREE as int != self.places(
            h2,
        )[c2] as int / SUBTREE as int by {
            assert(before.places(h1)[c1] == self.places(h1)[c1]);
            assert(before.places(h2)[c2] == self.places(h2)[c2]);
        }
        if before.places(huge)[core] != NONE {
            let i = before.places(huge)[core] as int / SUBTREE as int;
            assert forall|h: bool, c: int|
                0 <= c < self.cores() && #[trigger] self.places(h)[c] != NONE implies self.places(
                h,
            )[c] as int / SUBTREE as int != i by {
                assert(before.places(h)[c] == self.places(h)[c]);
                assert(h != huge || c != core);
            }
        }
    }

    /// Lets go of subtree `k`, in which no core has a place any more, and puts it
    /// into the list that fits it.
    #[verifier::rlimit(60)]
    fn release(&mut self, k: usize)
        requires
            old(self).wf(),
            k < old(self).entries().len(),
            old(self).entries()[k as int].reserved,
            !is_giant(old(self).entries()[k as int]),
            old(self).no_place_in(k as int),
        ensures
            final(self).wf(),
            final(self).rest_eq(old(self)),
            final(self).entries().len() == old(self).entries().len(),
            final(self).entries() == old(self).entries().update(
                k as int,
                final(self).entries()[k as int],
            ),
            final(self).entries()[k as int] == (Entry3 {
                idx: final(self).entries()[k as int].idx,
                reserved: false,
                ..old(self).entries()[k as int]
            }),
            !is_giant(final(self).entries()[k as int]),
            final(self).homes_but(old(self), k as int),
            final(self).home(k as int) == Self::list_for(old(self).entries()[k as int]),
            final(self).lists_but(old(self), Self::list_for(old(self).entries()[k as int])),
            Self::list_for(old(self).entries()[k as int]) >= 0 ==> final(self).list(
                Self::list_for(old(self).entries()[k as int]),
            ) == old(self).list(Self::list_for(old(self).entries()[k as int])).push(k),
            sum_free(final(self).entries()) == sum_free(old(self).entries()),
    {
        proof {
            self.lower().lemma_shape();
            assert(self.entry_ok(k as int));
            self.lemma_whole(k as int);
        }
        let e = self.load(k);
        match e.unreserve() {
            Some(next) => {
                self.install(k, Entry3 { idx: 0, ..next });
            },
            None => {},
        }
        proof {
            self.lemma_rest_eq(old(self));
            self.lemma_others_ok(old(self), k as int);
            self.lemma_places_step(old(self), k as int);
            assert(self.sub(k as int) == old(self).sub(k as int));
            assert(self.entry_ok(k as int));
            assert forall|j: int| 0 <= j < self.entries().len() implies #[trigger] self.entry_ok(
                j,
            ) by {}
            lemma_sum_free_update(old(self).entries(), k as int, self.entries()[k as int]);
        }
    }

    /// The frame at address `addr`, if that is the address of a managed frame.
    pub open spec fn page_of(&self, addr: u64) -> Option<int> {
        if addr >= self.lower().base() && (addr - self.lower().base()) % (PAGE_SIZE as int) == 0 && (
        addr - self.lower().base()) / (PAGE_SIZE as int) < self.frames() {
            Some((addr - self.lower().base()) / (PAGE_SIZE as int))
        } else {
            None
        }
    }

    /// A unit of the size is allocated at frame `page`.
    ///
    /// A giant unit begins a subtree that carries the giant mark. A region
    /// begins a region that is allocated as a unit. A single frame lies in a
    /// region that is full, or has its slot in the leaf table allocated.
    pub open spec fn unit_at(&self, page: int, size: Size) -> bool {
        let e = self.entries()[page / (SUBTREE as int)];
        let e2 = self.lower().regions()[page / (PT_LEN as int)];
        match size {
            Size::L2 => is_giant(e) && page % (SUBTREE as int) == 0,
            Size::L1 => !is_giant(e) && e2.page && page % (PT_LEN as int) == 0,
            Size::L0 => !is_giant(e) && !e2.page && (e2.pages == PT_LEN || (e2.pages > 0
                && self.lower().leaves()[page / (PT_LEN as int)][page % (PT_LEN as int)]
                == crate::entry::Entry1::Page)),
        }
    }

    /// The free frames of the subtrees are those of `o`, but for subtree `i`, which has `by` more.
    pub open spec fn free_changed(&self, o: &Self, i: int, by: int) -> bool {
        &&& self.entries().len() == o.entries().len()
        &&& forall|j: int|
            0 <= j < self.entries().len() ==> (#[trigger] self.entries()[j]).free
                == o.entries()[j].free + (if j == i {
                by
            } else {
                0
            })
    }

    /// Descriptors that differ in their links only count the same free frames.
    proof fn lemma_links_free(&self, o: &Self)
        requires
            self.entries_but_links(o),
        ensures
            self.free_changed(o, -1, 0),
    {
        assert forall|j: int| 0 <= j < self.entries().len() implies (
        #[trigger] self.entries()[j]).free == o.entries()[j].free by {
            let e = self.entries()[j];
            assert(e == (Entry3 { idx: e.idx, ..o.entries()[j] }));
        }
    }

    /// A change of one subtree's free frames after none, or none after one.
    proof fn lemma_free_trans(&self, mid: &Self, first: &Self, i: int, by: int)
        requires
            (self.free_changed(mid, i, by) && mid.free_changed(first, -1, 0)) || (
            self.free_changed(mid, -1, 0) && mid.free_changed(first, i, by)),
        ensures
            self.free_changed(first, i, by),
    {
        assert forall|j: int| 0 <= j < self.entries().len() implies (
        #[trigger] self.entries()[j]).free == first.entries()[j].free + (if j == i {
            by
        } else {
            0
        }) by {
            let m = mid.entries()[j];
            assert(m.free == first.entries()[j].free || j == i);
        }
    }

    /// The first frame of the unit that the search below finds from frame `start` on.
    ///
    /// For a region, this is the first unused region of the subtree, from
    /// the region of `start` on and around the end. For a single frame, it
    /// is the first region with room, and in it the first free slot.
    pub open spec fn unit_from(&self, start: int, huge: bool) -> int {
        if huge {
            self.lower().get_huge_region(start).unwrap() * PT_LEN
        } else {
            let r = self.lower().get_region(start).unwrap();
            r * PT_LEN + self.lower().get_slot(start, r)
        }
    }

    /// The frame at which the search for the next unit of `core` starts: the
    /// core's place while its subtree can hand out a unit, else the first
    /// frame of the subtree that is taken out of the lists.
    pub open spec fn next_start(&self, core: int, huge: bool) -> int {
        if self.places(huge)[core] != NONE && can_dec(
            self.entries()[self.places(huge)[core] as int / SUBTREE as int],
            huge,
        ) {
            self.places(huge)[core] as int
        } else {
            self.pick(huge).unwrap() * SUBTREE
        }
    }

    /// The first frame of the unit that `core` gets next.
    pub open spec fn next_unit(&self, core: int, size: Size) -> int {
        match size {
            Size::L0 => self.unit_from(self.next_start(core, false), false),
            Size::L1 => self.unit_from(self.next_start(core, true), true),
            Size::L2 => self.list(EMPTY as int).last() * SUBTREE,
        }
    }

    /// No core but `core`, for units of the size, has its place in subtree `i`.
    pub open spec fn no_other_place_in(&self, i: int, core: int, huge: bool) -> bool {
        forall|h: bool, c: int|
            0 <= c < self.cores() && (h != huge || c != core) && #[trigger] self.places(h)[c]
                != NONE ==> self.places(h)[c] as int / SUBTREE as int != i
    }

    /// A subtree that can hand out a single frame has a region with room.
    proof fn lemma_room_small(&self, i: int, start: int)
        requires
            self.wf(),
            0 <= i < self.entries().len(),
            !is_giant(self.entries()[i]),
            can_dec(self.entries()[i], false),
            0 <= start < self.frames(),
            start / (SUBTREE as int) == i,
        ensures
            self.lower().get_region(start) is Some,
            crate::leaf_alloc::subtree_base(start) == i * PT_LEN,
    {
        let low = self.lower();
        let base = i * PT_LEN;
        let sub = self.sub(i);
        assert(self.entry_ok(i));
        self.lemma_span(i);
        self.lemma_whole(i);
        lemma_small_room(sub);
        let j = choose|j: int| 0 <= j < sub.len() && !(#[trigger] sub[j]).page && sub[j].pages < PT_LEN;
        assert(sub[j] == low.regions()[base + j]);
        let hits = crate::leaf_alloc::room_hits(low.regions(), base);
        assert(hits[j]);
        let from = (start / (PT_LEN as int)) % (PT_LEN as int);
        if crate::leaf_alloc::first_from(hits, from, 0) is None {
            crate::leaf_alloc::lemma_first_none_all(hits, from);
        }
    }

    /// A subtree that can hand out a region has an unused region.
    proof fn lemma_room_huge(&self, i: int, start: int)
        requires
            self.wf(),
            0 <= i < self.entries().len(),
            !is_giant(self.entries()[i]),
            can_dec(self.entries()[i], true),
            0 <= start < self.frames(),
            start / (SUBTREE as int) == i,
        ensures
            self.lower().get_huge_region(start) is Some,
            crate::leaf_alloc::subtree_base(start) == i * PT_LEN,
    {
        let low = self.lower();
        let base = i * PT_LEN;
        let sub = self.sub(i);
        assert(self.entry_ok(i));
        self.lemma_span(i);
        self.lemma_whole(i);
        if any_small(sub) {
            lemma_any_small_used(sub);
        }
        lemma_huge_room(sub);
        let j = choose|j: int| 0 <= j < sub.len() && !(#[trigger] sub[j]).page && sub[j].pages == 0;
        assert(sub[j] == low.regions()[base + j]);
        let hits = crate::leaf_alloc::unused_hits(low.regions(), base);
        assert(hits[j]);
        let from = (start / (PT_LEN as int)) % (PT_LEN as int);
        if crate::leaf_alloc::first_from(hits, from, 0) is None {
            crate::leaf_alloc::lemma_first_none_all(hits, from);
        }
    }

    /// The subtree stays in order when one of its regions takes an allocation
    /// and its descriptor counts it.
    proof fn lemma_taken_ok(&self, before: &Self, i: int, huge: bool, r: int, e2: Entry2)
        requires
            before.wf(),
            self.lower().wf(),
            self.lower().frames() == before.lower().frames(),
            0 <= i < before.entries().len(),
            !is_giant(before.entries()[i]),
            can_dec(before.entries()[i], huge),
            before.home(i) == -1,
            self.home(i) == -1,
            self.entries().len() == before.entries().len(),
            self.entries()[i] == (Entry3 {
                free: (before.entries()[i].free - span_of(huge)) as usize,
                huge,
                reserved: true,
                ..before.entries()[i]
            }),
            self.entries()[i].wf(),
            i * PT_LEN <= r < before.lower().subtree_end(i * PT_LEN),
            self.lower().regions() == before.lower().regions().update(r, e2),
            !e2.giant,
            !before.lower().regions()[r].giant,
            huge ==> e2.page && used(before.lower().regions()[r]) == 0,
            !huge ==> !e2.page && !before.lower().regions()[r].page && e2.pages
                == before.lower().regions()[r].pages + 1,
        ensures
            self.entry_ok(i),
    {
        let sub = before.sub(i);
        let base = i * PT_LEN;
        assert(before.entry_ok(i));
        before.lemma_span(i);
        self.lemma_span(i);
        before.lemma_whole(i);
        assert(self.sub(i) =~= sub.update(r - base, e2));
        lemma_sum_used_update(sub, r - base, e2);
        assert(sub[r - base] == before.lower().regions()[r]);
        if huge {
            if any_small(sub) {
                lemma_any_small_used(sub);
            }
            lemma_any_small_update(sub, r - base, e2);
        } else {
            lemma_any_huge_update(sub, r - base, e2);
        }
        assert(self.lower().regions()[base].giant == before.lower().regions()[base].giant);
    }

    /// Allocates a unit of the size in subtree `i`, which can hand one out, for `core`.
    ///
    /// The search below starts at frame `start`. The subtree is held by
    /// `core` afterwards, which has its place there.
    #[verifier::rlimit(60)]
    fn take(&mut self, core: usize, huge: bool, i: usize, start: usize) -> (res: Result<
        usize,
        Error,
    >)
        requires
            old(self).wf(),
            core < old(self).cores(),
            i < old(self).entries().len(),
            start < old(self).frames(),
            start as int / SUBTREE as int == i,
            old(self).unlisted(i as int),
            !is_giant(old(self).entries()[i as int]),
            can_dec(old(self).entries()[i as int], huge),
            old(self).no_other_place_in(i as int, core as int, huge),
        ensures
            final(self).wf(),
            final(self).lower().same_range(&old(self).lower()),
            final(self).active() == old(self).active(),
            final(self).set_up() == old(self).set_up(),
            final(self).lists_but(old(self), -1),
            final(self).homes_but(old(self), -1),
            final(self).places(!huge) == old(self).places(!huge),
            res is Ok,
            ({
                let page = res.unwrap() as int;
                let e = old(self).entries()[i as int];
                &&& page == old(self).unit_from(start as int, huge)
                &&& page % span_of(huge) == 0
                &&& page + span_of(huge) <= old(self).frames()
                &&& page / (SUBTREE as int) == i
                &&& forall|f: int| page <= f < page + span_of(huge) ==> !#[trigger] old(self).allocated(f)
                &&& forall|f: int|
                    0 <= f < old(self).frames() ==> #[trigger] final(self).allocated(f) == (old(self).allocated(f) || page <= f < page + span_of(huge))
                &&& sum_free(final(self).entries()) == sum_free(old(self).entries()) - span_of(
                    huge,
                )
                &&& final(self).places(huge) == old(self).places(huge).update(
                    core as int,
                    res.unwrap(),
                )
                &&& final(self).entries() == old(self).entries().update(
                    i as int,
                    Entry3 {
                        free: (e.free - span_of(huge)) as usize,
                        huge,
                        reserved: true,
                        ..e
                    },
                )
                &&& final(self).free_changed(old(self), i as int, -span_of(huge))
                &&& final(self).unit_at(
                    page,
                    if huge {
                        Size::L1
                    } else {
                        Size::L0
                    },
                )
            }),
    {
        proof {
            self.lower().lemma_shape();
            self.lemma_span(i as int);
            if huge {
                self.lemma_room_huge(i as int, start as int);
            } else {
                self.lemma_room_small(i as int, start as int);
            }
            assert(self.entry_ok(i as int));
        }
        let found = if huge {
            self.lower.get_huge(start)
        } else {
            self.lower.get(core, start)
        };
        let page = match found {
            Ok(page) => page,
            Err(e) => {
                return Err(e);
            },
        };
        let ghost mid = *self;
        let e = self.load(i);
        let span: usize = if huge {
            PT_LEN
        } else {
            1
        };
        match e.dec(span, SUBTREE) {
            Some(next) => {
                self.write_entry(i, next);
            },
            None => {
                return Err(Error::Corruption);
            },
        }
        let ghost written = *self;
        self.set_place(core, huge, page);
        proof {
            written.lemma_rest_eq(&mid);
            let r = page as int / PT_LEN as int;
            let e2 = self.lower().regions()[r];
            assert(self.home(i as int) == -1) by {
                assert(written.home(i as int) == mid.home(i as int));
            }
            assert(self.homes_but(old(self), -1)) by {
                assert forall|j: int| 0 <= j < self.entries().len() implies #[trigger] self.home(j)
                    == old(self).home(j) by {
                    assert(written.home(j) == mid.home(j));
                }
            }
            self.lemma_taken_ok(old(self), i as int, huge, r, e2);
            self.lemma_others_ok(old(self), i as int);
            assert forall|j: int| 0 <= j < self.entries().len() implies #[trigger] self.entry_ok(
                j,
            ) by {}
            lemma_sum_free_update(old(self).entries(), i as int, self.entries()[i as int]);
            assert(self.places_ok()) by {
                assert forall|h: bool, c: int| 0 <= c < self.cores() implies self.place_ok(
                    #[trigger] self.places(h)[c],
                ) by {
                    if h == huge && c == core {
                    } else {
                        let p = old(self).places(h)[c];
                        assert(old(self).place_ok(p));
                        assert(self.places(h)[c] == p);
                        if p != NONE {
                            let j = p as int / SUBTREE as int;
                            assert(j != i);
                            assert(self.entries()[j] == old(self).entries()[j]);
                        }
                    }
                }
                assert forall|h1: bool, c1: int, h2: bool, c2: int|
                    0 <= c1 < self.cores() && 0 <= c2 < self.cores() && (h1 != h2 || c1 != c2)
                        && #[trigger] self.places(h1)[c1] != NONE && #[trigger] self.places(h2)[c2]
                        != NONE implies self.places(h1)[c1] as int / SUBTREE as int != self.places(
                    h2,
                )[c2] as int / SUBTREE as int by {
                    if h1 == huge && c1 == core {
                        assert(old(self).places(h2)[c2] == self.places(h2)[c2]);
                    } else if h2 == huge && c2 == core {
                        assert(old(self).places(h1)[c1] == self.places(h1)[c1]);
                    } else {
                        assert(old(self).places(h1)[c1] == self.places(h1)[c1]);
                        assert(old(self).places(h2)[c2] == self.places(h2)[c2]);
                    }
                }
            }
        }
        Ok(page)
    }

    /// The place of `core` for the size lies in a subtree that can hand out a unit.
    pub open spec fn place_usable(&self, core: int, huge: bool) -> bool {
        self.places(huge)[core] != NONE && can_dec(
            self.entries()[self.places(huge)[core] as int / SUBTREE as int],
            huge,
        )
    }

    /// List `l` after a subtree was looked for in `self`.
    pub open spec fn sifted_list(&self, huge: bool, l: int) -> Seq<usize> {
        if l == EMPTY {
            self.sifted(huge).1
        } else if l == partial(huge) {
            self.sifted(huge).0
        } else if huge {
            self.sifted(huge).2
        } else {
            self.list(l)
        }
    }

    /// What a `get` of a single frame or of a region at frame `page` makes of
    /// the directory.
    ///
    /// Where the core goes on in the subtree of its place, the lists stay
    /// as they are. Otherwise they are those that the search for a subtree
    /// leaves behind, and the subtree of the core's former place, which the
    /// core lets go of, is on top of the list that fits it. The descriptor
    /// of the unit's subtree counts the frames and is held; no other
    /// descriptor changes but in its link.
    pub open spec fn get_effect(pre: &Self, post: &Self, core: int, huge: bool, page: int) -> bool {
        let i = page / (SUBTREE as int);
        let place = pre.places(huge)[core];
        let k = place as int / SUBTREE as int;
        let released = !pre.place_usable(core, huge) && place != NONE;
        let h = if released {
            Self::list_for(pre.entries()[k])
        } else {
            -1
        };
        &&& pre.place_usable(core, huge) ==> post.lists_but(pre, -1)
        &&& !pre.place_usable(core, huge) ==> forall|l: int|
            0 <= l < 3 ==> #[trigger] post.list(l) == (if l == h {
                pre.sifted_list(huge, l).push(k as usize)
            } else {
                pre.sifted_list(huge, l)
            })
        &&& post.entries().len() == pre.entries().len()
        &&& forall|j: int|
            0 <= j < post.entries().len() ==> (#[trigger] post.entries()[j]) == (Entry3 {
                idx: post.entries()[j].idx,
                ..(if j == i {
                    Entry3 {
                        free: (pre.entries()[j].free - span_of(huge)) as usize,
                        huge,
                        reserved: true,
                        ..pre.entries()[j]
                    }
                } else if released && j == k {
                    Entry3 { reserved: false, ..pre.entries()[j] }
                } else {
                    pre.entries()[j]
                })
            })
    }

    /// Allocates a single frame or a region for `core`, and gives its first frame.
    ///
    /// The core goes on in the subtree in which it has its place, while
    /// that can hand out a unit. Otherwise it gets a subtree from the lists
    /// and lets go of the one it held. `Memory` says that neither gives a unit.
    #[verifier::rlimit(60)]
    fn get_lower(&mut self, core: usize, huge: bool) -> (res: Result<usize, Error>)
        requires
            old(self).wf(),
            core < old(self).cores(),
        ensures
            final(self).wf(),
            final(self).lower().same_range(&old(self).lower()),
            final(self).active() == old(self).active(),
            final(self).set_up() == old(self).set_up(),
            final(self).places(!huge) == old(self).places(!huge),
            res is Err <==> !old(self).place_usable(core as int, huge) && old(self).exhausted(huge),
            res is Err ==> {
                &&& res == Err::<usize, Error>(Error::Memory)
                &&& final(self).lower() == old(self).lower()
                &&& final(self).places(huge) == old(self).places(huge)
                &&& sum_free(final(self).entries()) == sum_free(old(self).entries())
                &&& final(self).free_changed(old(self), -1, 0)
                &&& final(self).lists_sifted(old(self), huge)
                &&& final(self).entries_but_links(old(self))
            },
            res is Ok ==> {
                let page = res.unwrap() as int;
                &&& page % span_of(huge) == 0
                &&& page + span_of(huge) <= old(self).frames()
                &&& forall|f: int| page <= f < page + span_of(huge) ==> !#[trigger] old(self).allocated(f)
                &&& forall|f: int|
                    0 <= f < old(self).frames() ==> #[trigger] final(self).allocated(f) == (old(self).allocated(f) || page <= f < page + span_of(huge))
                &&& sum_free(final(self).entries()) == sum_free(old(self).entries()) - span_of(
                    huge,
                )
                &&& final(self).places(huge) == old(self).places(huge).update(
                    core as int,
                    res.unwrap(),
                )
                &&& page == old(self).unit_from(old(self).next_start(core as int, huge), huge)
                &&& Self::get_effect(old(self), final(self), core as int, huge, page)
                &&& final(self).free_changed(old(self), page / (SUBTREE as int), -span_of(huge))
                &&& final(self).unit_at(
                    page,
                    if huge {
                        Size::L1
                    } else {
                        Size::L0
                    },
                )
            },
    {
        let place = if huge {
            self.start_l1[core]
        } else {
            self.start_l0[core]
        };
        let span: usize = if huge {
            PT_LEN
        } else {
            1
        };
        proof {
            self.lower().lemma_shape();
            assert(self.place_ok(self.places(huge)[core as int]));
        }
        if place != NONE {
            let i = place / SUBTREE;
            proof {
                assert(self.entry_ok(i as int));
            }
            let e = self.load(i);
            match e.dec(span, SUBTREE) {
                Some(_) => {
                    let res = self.take(core, huge, i, place);
                    proof {
                        assert forall|j: int| 0 <= j < self.entries().len() implies (
                        #[trigger] self.entries()[j]).idx == old(self).entries()[j].idx by {}
                    }
                    return res;
                },
                None => {},
            }
        }
        let i = match self.reserve(huge) {
            Ok(i) => i,
            Err(e) => {
                proof {
                    self.lemma_rest_eq(old(self));
                    self.lemma_links_free(old(self));
                }
                return Err(e);
            },
        };
        let ghost reserved = *self;
        proof {
            self.lemma_rest_eq(old(self));
            self.lemma_links_free(old(self));
            assert(self.no_place_in(i as int)) by {
                assert forall|h: bool, c: int|
                    0 <= c < self.cores() && #[trigger] self.places(h)[c] != NONE implies self.places(
                    h,
                )[c] as int / SUBTREE as int != i by {
                    assert(self.place_ok(self.places(h)[c]));
                }
            }
        }
        let mut forgot_entries: Ghost<Seq<Entry3>> = Ghost(self.entries());
        if place != NONE {
            self.set_place(core, huge, NONE);
            proof {
                self.lemma_forget_place(&reserved, core as int, huge);
                assert(reserved.place_ok(reserved.places(huge)[core as int]));
            }
            let ghost forgot = *self;
            self.release(place / SUBTREE);
            proof {
                self.lemma_rest_eq(&forgot);
                let e = self.entries()[i as int];
                assert(e == forgot.entries()[i as int]);
                assert(self.home(i as int) == forgot.home(i as int));
                assert(forgot.home(i as int) == reserved.home(i as int));
                assert(self.no_place_in(i as int)) by {
                    assert forall|h: bool, c: int|
                        0 <= c < self.cores() && #[trigger] self.places(h)[c] != NONE implies self.places(
                        h,
                    )[c] as int / SUBTREE as int != i by {
                        if h == huge && c == core {
                        } else {
                            assert(self.places(h)[c] == reserved.places(h)[c]);
                        }
                    }
                }
            }
        }
        let ghost pre = *self;
        proof {
            self.lemma_span(i as int);
            assert(pre.lower() == old(self).lower());
            assert(sum_free(pre.entries()) == sum_free(old(self).entries()));
            assert(pre.free_changed(old(self), -1, 0)) by {
                assert forall|j: int| 0 <= j < pre.entries().len() implies (
                #[trigger] pre.entries()[j]).free == old(self).entries()[j].free by {
                    let r = reserved.entries()[j];
                    assert(r.free == old(self).entries()[j].free);
                    if place != NONE {
                        let e = pre.entries()[j];
                        assert(e.free == r.free);
                    }
                }
            }
        }
        let res = self.take(core, huge, i, i * SUBTREE);
        proof {
            self.lemma_free_trans(&pre, old(self), i as int, -span_of(huge));
            let page = res.unwrap() as int;
            let k = place as int / SUBTREE as int;
            let h = if place != NONE {
                Self::list_for(old(self).entries()[k])
            } else {
                -1
            };
            if place != NONE {
                let rk = reserved.entries()[k];
                assert(rk == (Entry3 { idx: rk.idx, ..old(self).entries()[k] }));
            }
            assert forall|l: int| 0 <= l < 3 implies #[trigger] self.list(l) == (if l == h {
                old(self).sifted_list(huge, l).push(k as usize)
            } else {
                old(self).sifted_list(huge, l)
            }) by {
                assert(self.list(l) == pre.list(l));
                assert(reserved.list(l) == old(self).sifted_list(huge, l));
            }
            assert forall|j: int| 0 <= j < self.entries().len() implies (
            #[trigger] self.entries()[j]) == (Entry3 {
                idx: self.entries()[j].idx,
                ..(if j == i {
                    Entry3 {
                        free: (old(self).entries()[j].free - span_of(huge)) as usize,
                        huge,
                        reserved: true,
                        ..old(self).entries()[j]
                    }
                } else if place != NONE && j == k {
                    Entry3 { reserved: false, ..old(self).entries()[j] }
                } else {
                    old(self).entries()[j]
                })
            }) by {
                let r = reserved.entries()[j];
                assert(r == (Entry3 { idx: r.idx, ..old(self).entries()[j] }));
                let p = pre.entries()[j];
                if place != NONE {
                    if j != k {
                        assert(p == forgot_entries@[j]);
                    }
                } else {
                    assert(p == r);
                }
            }
            assert forall|f: int| page <= f < page + span_of(huge) implies !#[trigger] old(self).allocated(f) by {
                assert(!pre.allocated(f));
            }
        }
        res
    }

    /// Allocates a whole subtree as one giant unit, and gives its first frame.
    ///
    /// `Memory` says that the list of free subtrees holds none.
    #[verifier::rlimit(60)]
    fn get_giant(&mut self) -> (res: Result<usize, Error>)
        requires
            old(self).wf(),
        ensures
            final(self).wf(),
            final(self).lower().same_range(&old(self).lower()),
            final(self).active() == old(self).active(),
            final(self).set_up() == old(self).set_up(),
            final(self).places(true) == old(self).places(true),
            final(self).places(false) == old(self).places(false),
            final(self).lists_but(old(self), EMPTY as int),
            res is Err <==> old(self).list(EMPTY as int).len() == 0,
            res is Err ==> {
                &&& res == Err::<usize, Error>(Error::Memory)
                &&& final(self).lower() == old(self).lower()
                &&& final(self).entries() == old(self).entries()
                &&& final(self).list(EMPTY as int) == old(self).list(EMPTY as int)
            },
            res is Ok ==> {
                let page = res.unwrap() as int;
                let i = page / (SUBTREE as int);
                &&& page % (SUBTREE as int) == 0
                &&& page + SUBTREE <= old(self).frames()
                &&& i == old(self).list(EMPTY as int).last()
                &&& final(self).list(EMPTY as int) == old(self).list(EMPTY as int).drop_last()
                &&& final(self).entries() == old(self).entries().update(i, giant_mark())
                &&& forall|f: int| page <= f < page + SUBTREE ==> !#[trigger] old(self).allocated(f)
                &&& forall|f: int|
                    0 <= f < old(self).frames() ==> #[trigger] final(self).allocated(f) == (old(self).allocated(f) || page <= f < page + SUBTREE)
                &&& sum_free(final(self).entries()) == sum_free(old(self).entries()) - SUBTREE
                &&& final(self).free_changed(old(self), i, -(SUBTREE as int))
                &&& final(self).unit_at(page, Size::L2)
            },
    {
        proof {
            self.lower().lemma_shape();
        }
        let i = match self.pop(EMPTY) {
            Some(i) => i,
            None => {
                proof {
                    assert(self.list_same(old(self)));
                    self.lemma_same_lists_ok(old(self));
                    self.lemma_rest_eq(old(self));
                }
                return Err(Error::Memory);
            },
        };
        let ghost popped = *self;
        proof {
            old(self).lemma_home(EMPTY as int, old(self).list(EMPTY as int).len() - 1);
            assert(old(self).entry_ok(i as int));
            old(self).lemma_whole(i as int);
            old(self).lemma_span(i as int);
            assert(popped.entries() =~= old(self).entries().update(
                i as int,
                popped.entries()[i as int],
            ));
            popped.lemma_move_ok(old(self), i as int);
            popped.lemma_rest_eq(old(self));
            assert(popped.no_place_in(i as int)) by {
                assert forall|h: bool, c: int|
                    0 <= c < popped.cores() && #[trigger] popped.places(h)[c] != NONE implies popped.places(
                    h,
                )[c] as int / SUBTREE as int != i by {
                    assert(popped.place_ok(popped.places(h)[c]));
                }
            }
        }
        self.write_entry(i, Entry3 { free: 0, idx: GIANT, reserved: true, huge: true });
        let ghost written = *self;
        self.lower.persist(i * SUBTREE);
        proof {
            written.lemma_rest_eq(&popped);
            let base = (i * PT_LEN) as int;
            assert(crate::leaf_alloc::subtree_base((i * SUBTREE) as int) == base);
            assert(self.homes_but(old(self), i as int)) by {
                assert forall|j: int|
                    0 <= j < self.entries().len() && j != i implies #[trigger] self.home(j) == old(self).home(j) by {
                    assert(written.home(j) == popped.home(j));
                }
            }
            self.lemma_others_ok(old(self), i as int);
            self.lemma_span(i as int);
            assert(self.sub(i as int).len() == old(self).sub(i as int).len());
            assert(self.entry_ok(i as int)) by {
                assert(written.home(i as int) == popped.home(i as int));
            }
            assert forall|j: int| 0 <= j < self.entries().len() implies #[trigger] self.entry_ok(
                j,
            ) by {}
            assert(self.places_ok()) by {
                assert forall|h: bool, c: int| 0 <= c < self.cores() implies self.place_ok(
                    #[trigger] self.places(h)[c],
                ) by {
                    let p = self.places(h)[c];
                    assert(popped.place_ok(popped.places(h)[c]));
                    if p != NONE {
                        let j = p as int / SUBTREE as int;
                        assert(j != i);
                        assert(self.entries()[j] == popped.entries()[j]);
                    }
                }
            }
            lemma_sum_free_update(old(self).entries(), i as int, giant_mark());
            assert(self.entries() =~= old(self).entries().update(i as int, giant_mark()));
            old(self).lemma_subtree_free(i as int);
            assert forall|f: int| 0 <= f < old(self).frames() implies #[trigger] self.allocated(f)
                == (old(self).allocated(f) || i * SUBTREE <= f < i * SUBTREE + SUBTREE) by {
                assert(crate::leaf_alloc::subtree_base(f) == base <==> i * SUBTREE <= f < i
                    * SUBTREE + SUBTREE);
            }
        }
        Ok(i * SUBTREE)
    }

    /// In a subtree without allocations no frame is allocated.
    proof fn lemma_subtree_free(&self, i: int)
        requires
            self.wf(),
            0 <= i < self.entries().len(),
            !is_giant(self.entries()[i]),
            self.entries()[i].free == self.span(i),
        ensures
            forall|f: int|
                i * SUBTREE <= f < i * SUBTREE + self.span(i) ==> !#[trigger] self.allocated(f),
    {
        let low = self.lower();
        let sub = self.sub(i);
        let base = i * PT_LEN;
        assert(self.entry_ok(i));
        self.lemma_span(i);
        low.lemma_shape();
        lemma_sum_used_zero(sub);
        assert forall|f: int| i * SUBTREE <= f < i * SUBTREE + self.span(i) implies !#[trigger] self.allocated(
            f,
        ) by {
            let r = f / (PT_LEN as int);
            assert(base <= r < base + sub.len());
            assert(crate::leaf_alloc::subtree_base(f) == base);
            assert(used(sub[r - base]) == 0);
            assert(sub[r - base] == low.regions()[r]);
            assert(region_ok(low.regions()[r], low.leaves()[r]));
            assert(sub[0] == low.regions()[base]);
            crate::leaf_alloc::lemma_count_zero(low.leaves()[r]);
        }
    }

    /// The allocator manages the same frames for the same cores as `o`, and its header says the same.
    pub open spec fn same_setup(&self, o: &Self) -> bool {
        &&& self.lower().same_range(&o.lower())
        &&& self.active() == o.active()
        &&& self.set_up() == o.set_up()
    }

    /// The address of frame `page`.
    pub open spec fn addr_of(&self, page: int) -> int {
        self.lower().base() + page * PAGE_SIZE
    }

    /// No unit of the size can be handed out to `core`.
    ///
    /// For a giant unit, the list of free subtrees is empty. For a smaller
    /// one, the core's place is in no subtree that could serve, and neither
    /// the list for the size nor that of the free subtrees holds one.
    pub open spec fn out_of(&self, core: int, size: Size) -> bool {
        match size {
            Size::L0 => !self.place_usable(core, false) && self.exhausted(false),
            Size::L1 => !self.place_usable(core, true) && self.exhausted(true),
            Size::L2 => self.list(EMPTY as int).len() == 0,
        }
    }

    /// What a call of `get` leaves behind.
    ///
    /// The call fails, with `Memory`, exactly where no unit can be handed
    /// out; nothing changes below then, and no subtree counts differently.
    /// Where it succeeds, the result is the address of a unit of the size:
    /// its frames were free, they are allocated afterwards and no other
    /// frame changes, and the subtree of the unit counts as many frames
    /// less as free. A giant unit is the subtree that was on top of the list
    /// of free subtrees.
    pub open spec fn get_post(
        pre: &Self,
        post: &Self,
        core: int,
        size: Size,
        res: Result<u64, Error>,
    ) -> bool {
        &&& post.wf()
        &&& post.same_setup(pre)
        &&& res is Err <==> pre.out_of(core, size)
        &&& res is Err ==> {
            &&& res == Err::<u64, Error>(Error::Memory)
            &&& post.lower() == pre.lower()
            &&& post.free_changed(pre, -1, 0)
            &&& post.allocated_count() == pre.allocated_count()
            &&& post.places(true) == pre.places(true)
            &&& post.places(false) == pre.places(false)
            &&& post.entries_but_links(pre)
            &&& size == Size::L0 ==> post.lists_sifted(pre, false)
            &&& size == Size::L1 ==> post.lists_sifted(pre, true)
            &&& size == Size::L2 ==> post.lists_but(pre, -1) && post.entries() == pre.entries()
        }
        &&& res is Ok ==> {
            let page = (res.unwrap() - pre.lower().base()) / (PAGE_SIZE as int);
            &&& res.unwrap() == pre.addr_of(page)
            &&& 0 <= page
            &&& page % (size.span_spec() as int) == 0
            &&& page + size.span_spec() <= pre.frames()
            &&& forall|f: int| page <= f < page + size.span_spec() ==> !#[trigger] pre.allocated(f)
            &&& forall|f: int|
                0 <= f < pre.frames() ==> #[trigger] post.allocated(f) == (pre.allocated(f) || page
                    <= f < page + size.span_spec())
            &&& post.allocated_count() == pre.allocated_count() + size.span_spec()
            &&& post.free_changed(pre, page / (SUBTREE as int), -(size.span_spec() as int))
            &&& post.unit_at(page, size)
            &&& page == pre.next_unit(core, size)
            &&& size == Size::L0 ==> post.places(false) == pre.places(false).update(
                core,
                page as usize,
            ) && post.places(true) == pre.places(true) && Self::get_effect(
                pre,
                post,
                core,
                false,
                page,
            )
            &&& size == Size::L1 ==> post.places(true) == pre.places(true).update(
                core,
                page as usize,
            ) && post.places(false) == pre.places(false) && Self::get_effect(
                pre,
                post,
                core,
                true,
                page,
            )
            &&& size == Size::L2 ==> post.places(true) == pre.places(true) && post.places(false)
                == pre.places(false)
            &&& size == Size::L2 ==> {
                &&& pre.list(EMPTY as int).len() > 0
                &&& page / (SUBTREE as int) == pre.list(EMPTY as int).last()
                &&& post.list(EMPTY as int) == pre.list(EMPTY as int).drop_last()
                &&& post.lists_but(pre, EMPTY as int)
                &&& post.entries() == pre.entries().update(page / (SUBTREE as int), giant_mark())
            }
        }
    }

    /// Allocates one unit of the size for `core`, and gives its address.
    ///
    /// The frames of the unit were free and are allocated afterwards; no
    /// other frame changes. `Memory` says that no unit can be handed out;
    /// nothing is allocated then.
    pub fn get(&mut self, core: usize, size: Size) -> (res: Result<u64, Error>)
        requires
            old(self).wf(),
            core < old(self).cores(),
        ensures
            Self::get_post(old(self), final(self), core as int, size, res),
    {
        proof {
            crate::table::lemma_spans();
        }
        let found = match size {
            Size::L2 => self.get_giant(),
            Size::L1 => self.get_lower(core, true),
            Size::L0 => self.get_lower(core, false),
        };
        match found {
            Ok(page) => {
                assert(page * PAGE_SIZE <= self.frames() * PAGE_SIZE) by (nonlinear_arith)
                    requires
                        page <= self.frames(),
                        PAGE_SIZE == 4096,
                ;
                let addr = self.lower.begin() + (page as u64) * (PAGE_SIZE as u64);
                let ghost off = addr - self.lower().base();
                assert(off / (PAGE_SIZE as int) == page) by (nonlinear_arith)
                    requires
                        off == page * PAGE_SIZE,
                        PAGE_SIZE == 4096,
                ;
                Ok(addr)
            },
            Err(e) => Err(e),
        }
    }

    /// What a `put` of a single frame or of a region in subtree `i` makes of
    /// the directory: the descriptor of the subtree counts the frames, and
    /// the subtree goes on top of the list for the size if nobody holds it
    /// and it has just got more than `PTE3_FULL` free frames.
    pub open spec fn put_effect(pre: &Self, post: &Self, i: int, huge: bool) -> bool {
        let e = pre.entries()[i];
        let next = e.inc_spec(span_of(huge) as usize, pre.span(i) as usize).unwrap();
        let relist = !next.reserved && e.free <= PTE3_FULL && next.free > PTE3_FULL;
        &&& post.entries() == pre.entries().update(i, post.entries()[i])
        &&& post.entries()[i] == (Entry3 { idx: post.entries()[i].idx, ..next })
        &&& relist ==> post.list(partial(huge)) == pre.list(partial(huge)).push(i as usize)
            && post.lists_but(pre, partial(huge))
        &&& !relist ==> post.lists_but(pre, -1) && post.entries()[i] == next
    }

    /// The subtree stays in order when one of its regions gives an allocation
    /// back and its descriptor counts it.
    proof fn lemma_given_ok(&self, before: &Self, i: int, huge: bool, r: int, e2: Entry2)
        requires
            before.wf(),
            self.lower().wf(),
            self.lower().frames() == before.lower().frames(),
            0 <= i < before.entries().len(),
            !is_giant(before.entries()[i]),
            self.entries().len() == before.entries().len(),
            i * PT_LEN <= r < before.lower().subtree_end(i * PT_LEN),
            self.lower().regions() == before.lower().regions().update(r, e2),
            !e2.giant,
            !e2.page,
            huge ==> before.lower().regions()[r].page && e2.pages == 0,
            !huge ==> !before.lower().regions()[r].page && e2.pages + 1
                == before.lower().regions()[r].pages,
        ensures
            before.entries()[i].huge == huge,
            before.entries()[i].inc_spec(
                span_of(huge) as usize,
                before.span(i) as usize,
            ) is Some,
            before.span(i) <= SUBTREE,
            self.span(i) == before.span(i),
            !self.lower().regions()[i * PT_LEN].giant,
            forall|e: Entry3|
                (Entry3 { idx: 0, ..e }) == (Entry3 {
                    idx: 0,
                    ..before.entries()[i].inc_spec(
                        span_of(huge) as usize,
                        before.span(i) as usize,
                    ).unwrap()
                }) ==> subtree_ok(e, self.sub(i)),
    {
        let sub = before.sub(i);
        let base = i * PT_LEN;
        let e = before.entries()[i];
        assert(before.entry_ok(i));
        before.lemma_span(i);
        self.lemma_span(i);
        before.lemma_whole(i);
        let after = sub.update(r - base, e2);
        assert(self.sub(i) =~= after);
        lemma_sum_used_update(sub, r - base, e2);
        assert(sub[r - base] == before.lower().regions()[r]);
        lemma_any_huge(sub);
        lemma_any_small(sub);
        if huge {
            assert(any_huge(sub));
            if any_small(sub) {
            } else {
                lemma_any_small_update(sub, r - base, e2);
            }
        } else {
            assert(any_small(sub));
            if !any_huge(sub) {
                lemma_any_huge_update(sub, r - base, e2);
            }
        }
        if any_huge(after) {
            lemma_any_huge_used(after);
        }
        assert(self.lower().regions()[base].giant == before.lower().regions()[base].giant || r
            == base);
    }

    /// Frees the single frame or the region at frame `page`.
    #[verifier::rlimit(60)]
    fn put_lower(&mut self, page: usize, huge: bool) -> (res: Result<(), Error>)
        requires
            old(self).wf(),
            page < old(self).frames(),
            !is_giant(old(self).entries()[page as int / SUBTREE as int]),
        ensures
            final(self).wf(),
            final(self).same_setup(old(self)),
            final(self).places(true) == old(self).places(true),
            final(self).places(false) == old(self).places(false),
            res is Ok <==> old(self).unit_at(
                page as int,
                if huge {
                    Size::L1
                } else {
                    Size::L0
                },
            ),
            res is Err ==> res == Err::<(), Error>(Error::Address) && *final(self) == *old(self),
            res is Ok ==> {
                &&& forall|f: int| page <= f < page + span_of(huge) ==> #[trigger] old(self).allocated(f)
                &&& forall|f: int|
                    0 <= f < old(self).frames() ==> #[trigger] final(self).allocated(f) == (old(self).allocated(f) && !(page <= f < page + span_of(huge)))
                &&& sum_free(final(self).entries()) == sum_free(old(self).entries()) + span_of(
                    huge,
                )
                &&& final(self).free_changed(old(self), page as int / SUBTREE as int, span_of(huge))
                &&& Self::put_effect(old(self), final(self), page as int / SUBTREE as int, huge)
            },
    {
        proof {
            self.lower().lemma_shape();
            crate::table::lemma_spans();
        }
        let i = page / SUBTREE;
        let pte2 = self.lower.pt2(page);
        if huge {
            if !pte2.page || page % PT_LEN != 0 {
                return Err(Error::Address);
            }
        } else {
            if pte2.page || pte2.pages == 0 {
                return Err(Error::Address);
            }
            if pte2.pages != PT_LEN {
                let pte1 = self.lower.pt1(page);
                if pte1 != crate::entry::Entry1::Page {
                    return Err(Error::Address);
                }
            }
        }
        proof {
            self.lemma_span(i as int);
            assert(self.entry_ok(i as int));
            let r = page as int / PT_LEN as int;
            assert(!self.lower().regions()[r].giant) by {
                if self.lower().regions()[r].giant {
                    assert(r % (PT_LEN as int) == 0);
                    assert(r == i * PT_LEN);
                }
            }
        }
        match self.lower.put(page) {
            Ok(_) => {},
            Err(e) => {
                return Err(e);
            },
        }
        let ghost freed = *self;
        let e = self.load(i);
        let rest = self.lower.pages() - i * SUBTREE;
        let max = if rest >= SUBTREE {
            SUBTREE
        } else {
            rest
        };
        let span: usize = if huge {
            PT_LEN
        } else {
            1
        };
        proof {
            let r = page as int / PT_LEN as int;
            self.lemma_given_ok(old(self), i as int, huge, r, self.lower().regions()[r]);
        }
        let next = match e.inc(span, max) {
            Some(next) => next,
            None => {
                return Err(Error::Corruption);
            },
        };
        self.write_entry(i, next);
        let ghost written = *self;
        let relist = !next.reserved && e.free <= PTE3_FULL && next.free > PTE3_FULL;
        if relist {
            proof {
                assert(written.home(i as int) == old(self).home(i as int));
            }
            if huge {
                self.push(PARTIAL_L1, i);
            } else {
                self.push(PARTIAL_L0, i);
            }
        }
        proof {
            written.lemma_rest_eq(&freed);
            self.lemma_rest_eq(&written);
            assert(self.homes_but(old(self), i as int)) by {
                assert forall|j: int|
                    0 <= j < self.entries().len() && j != i implies #[trigger] self.home(j) == old(self).home(j) by {
                    assert(written.home(j) == old(self).home(j));
                }
            }
            assert(self.entries() =~= old(self).entries().update(
                i as int,
                self.entries()[i as int],
            ));
            let after = self.entries()[i as int];
            assert((Entry3 { idx: 0, ..after }) == (Entry3 { idx: 0, ..next }));
            assert(subtree_ok(after, self.sub(i as int)));
            assert(self.home(i as int) == old(self).home(i as int) || relist) by {
                assert(written.home(i as int) == old(self).home(i as int));
            }
            assert(self.entry_ok(i as int));
            self.lemma_others_ok(old(self), i as int);
            assert forall|j: int| 0 <= j < self.entries().len() implies #[trigger] self.entry_ok(
                j,
            ) by {}
            self.lemma_places_step(old(self), i as int);
            lemma_sum_free_update(old(self).entries(), i as int, after);
        }
        Ok(())
    }

    /// In a subtree that is a giant unit every frame is allocated.
    proof fn lemma_giant_allocated(&self, i: int)
        requires
            self.wf(),
            0 <= i < self.entries().len(),
            is_giant(self.entries()[i]),
        ensures
            self.span(i) == SUBTREE,
            i * SUBTREE + SUBTREE <= self.frames(),
            forall|f: int| i * SUBTREE <= f < i * SUBTREE + SUBTREE ==> #[trigger] self.allocated(f),
    {
        assert(self.entry_ok(i));
        self.lemma_span(i);
        assert forall|f: int| i * SUBTREE <= f < i * SUBTREE + SUBTREE implies #[trigger] self.allocated(
            f,
        ) by {
            assert(crate::leaf_alloc::subtree_base(f) == i * PT_LEN);
        }
    }

    /// Frees the giant unit at frame `page`: the subtree is wholly free
    /// again and goes to the list of free subtrees.
    #[verifier::rlimit(60)]
    fn put_giant(&mut self, page: usize) -> (res: Result<(), Error>)
        requires
            old(self).wf(),
            page < old(self).frames(),
            is_giant(old(self).entries()[page as int / SUBTREE as int]),
        ensures
            final(self).wf(),
            final(self).same_setup(old(self)),
            final(self).places(true) == old(self).places(true),
            final(self).places(false) == old(self).places(false),
            res is Ok <==> page % SUBTREE == 0,
            res is Err ==> res == Err::<(), Error>(Error::Address) && *final(self) == *old(self),
            res is Ok ==> {
                let i = page as int / SUBTREE as int;
                &&& forall|f: int| page <= f < page + SUBTREE ==> #[trigger] old(self).allocated(f)
                &&& forall|f: int|
                    0 <= f < old(self).frames() ==> #[trigger] final(self).allocated(f) == (old(self).allocated(f) && !(page <= f < page + SUBTREE))
                &&& sum_free(final(self).entries()) == sum_free(old(self).entries()) + SUBTREE
                &&& final(self).free_changed(old(self), i, SUBTREE as int)
                &&& final(self).list(EMPTY as int) == old(self).list(EMPTY as int).push(i as usize)
                &&& final(self).lists_but(old(self), EMPTY as int)
                &&& final(self).entries() == old(self).entries().update(
                    i,
                    final(self).entries()[i],
                )
                &&& final(self).entries()[i] == (Entry3 {
                    free: SUBTREE,
                    idx: final(self).entries()[i].idx,
                    reserved: false,
                    huge: false,
                })
            },
    {
        proof {
            self.lower().lemma_shape();
        }
        let i = page / SUBTREE;
        if page % SUBTREE != 0 {
            return Err(Error::Address);
        }
        proof {
            assert(self.entry_ok(i as int));
            self.lemma_giant_allocated(i as int);
            assert(self.no_place_in(i as int)) by {
                assert forall|h: bool, c: int|
                    0 <= c < self.cores() && #[trigger] self.places(h)[c] != NONE implies self.places(
                    h,
                )[c] as int / SUBTREE as int != i by {
                    assert(self.place_ok(self.places(h)[c]));
                }
            }
        }
        self.lower.clear_giant(page);
        let ghost cleared = *self;
        self.install(i, Entry3::empty(SUBTREE));
        proof {
            self.lemma_rest_eq(&cleared);
            let base = (i * PT_LEN) as int;
            assert(crate::leaf_alloc::subtree_base(page as int) == base);
            self.lemma_span(i as int);
            old(self).lemma_span(i as int);
            self.lemma_others_ok(old(self), i as int);
            let sub = self.sub(i as int);
            assert forall|j: int| 0 <= j < sub.len() implies used(#[trigger] sub[j]) == 0 by {
                assert(sub[j] == self.lower().regions()[base + j]);
            }
            lemma_sum_used_none(sub);
            lemma_any_huge(sub);
            assert(!any_huge(sub)) by {
                if any_huge(sub) {
                    let j = choose|j: int| 0 <= j < sub.len() && (#[trigger] sub[j]).page;
                    assert(sub[j] == self.lower().regions()[base + j]);
                }
            }
            assert(self.lower().regions()[base] == crate::leaf_alloc::fresh_entry());
            assert(self.entry_ok(i as int));
            assert forall|j: int| 0 <= j < self.entries().len() implies #[trigger] self.entry_ok(
                j,
            ) by {}
            self.lemma_places_step(old(self), i as int);
            lemma_sum_free_update(old(self).entries(), i as int, self.entries()[i as int]);
            assert forall|f: int| 0 <= f < old(self).frames() implies #[trigger] self.allocated(f)
                == (old(self).allocated(f) && !(page <= f < page + SUBTREE)) by {
                assert(crate::leaf_alloc::subtree_base(f) == base <==> page <= f < page + SUBTREE);
            }
        }
        Ok(())
    }

    /// What a call of `put` leaves behind.
    ///
    /// The call succeeds exactly where `addr` is the address of a managed
    /// frame at which a unit of the size is allocated. The frames of the
    /// unit were allocated then, they are free afterwards and no other
    /// frame changes, and the subtree of the unit counts as many frames
    /// more as free; a subtree that was a giant unit is wholly free, held by
    /// nobody, and on top of the list of free subtrees. Where the call
    /// fails, with `Address`, nothing changes.
    pub open spec fn put_post(
        pre: &Self,
        post: &Self,
        addr: u64,
        size: Size,
        res: Result<(), Error>,
    ) -> bool {
        &&& post.wf()
        &&& post.same_setup(pre)
        &&& post.places(true) == pre.places(true)
        &&& post.places(false) == pre.places(false)
        &&& res is Ok <==> pre.page_of(addr) is Some && pre.unit_at(pre.page_of(addr).unwrap(), size)
        &&& res is Err ==> res == Err::<(), Error>(Error::Address) && *post == *pre
        &&& res is Ok ==> {
            let page = pre.page_of(addr).unwrap();
            &&& forall|f: int| page <= f < page + size.span_spec() ==> #[trigger] pre.allocated(f)
            &&& forall|f: int|
                0 <= f < pre.frames() ==> #[trigger] post.allocated(f) == (pre.allocated(f) && !(
                page <= f < page + size.span_spec()))
            &&& post.allocated_count() == pre.allocated_count() - size.span_spec()
            &&& post.free_changed(pre, page / (SUBTREE as int), size.span_spec() as int)
            &&& size == Size::L0 ==> Self::put_effect(pre, post, page / (SUBTREE as int), false)
            &&& size == Size::L1 ==> Self::put_effect(pre, post, page / (SUBTREE as int), true)
            &&& size == Size::L2 ==> {
                &&& post.entries() == pre.entries().update(
                    page / (SUBTREE as int),
                    post.entries()[page / (SUBTREE as int)],
                )
                &&& post.list(EMPTY as int) == pre.list(EMPTY as int).push(
                    (page / (SUBTREE as int)) as usize,
                )
                &&& post.lists_but(pre, EMPTY as int)
                &&& post.entries()[page / (SUBTREE as int)] == (Entry3 {
                    free: SUBTREE,
                    idx: post.entries()[page / (SUBTREE as int)].idx,
                    reserved: false,
                    huge: false,
                })
            }
        }
    }

    /// Frees the unit of the size at address `addr`.
    ///
    /// The frames of the unit were allocated and are free afterwards; no
    /// other frame changes. `Address` says that `addr` is not the address
    /// of a managed frame, or that no unit of the size is allocated there;
    /// nothing changes then.
    pub fn put(&mut self, core: usize, addr: u64, size: Size) -> (res: Result<(), Error>)
        requires
            old(self).wf(),
            core < old(self).cores(),
        ensures
            Self::put_post(old(self), final(self), addr, size, res),
    {
        proof {
            crate::table::lemma_spans();
            self.lower().lemma_shape();
        }
        let begin = self.lower.begin();
        if addr < begin || (addr - begin) % (PAGE_SIZE as u64) != 0 {
            return Err(Error::Address);
        }
        let offset = (addr - begin) / (PAGE_SIZE as u64);
        if offset >= self.lower.pages() as u64 {
            return Err(Error::Address);
        }
        let page = offset as usize;
        let i = page / SUBTREE;
        let e = self.load(i);
        if e.idx == GIANT {
            match size {
                Size::L2 => self.put_giant(page),
                _ => Err(Error::Address),
            }
        } else {
            match size {
                Size::L2 => Err(Error::Address),
                Size::L1 => self.put_lower(page, true),
                Size::L0 => self.put_lower(page, false),
            }
        }
    }

    /// The free frames of the first `k` subtrees are at most their frames.
    proof fn lemma_sum_free_bound(&self, k: int)
        requires
            self.wf(),
            0 <= k <= self.entries().len(),
        ensures
            0 <= sum_free(self.entries().take(k)) <= k * SUBTREE,
            sum_free(self.entries().take(k)) <= self.frames(),
        decreases k,
    {
        if k > 0 {
            self.lemma_sum_free_bound(k - 1);
            let s = self.entries().take(k);
            assert(s.drop_last() =~= self.entries().take(k - 1));
            assert(s.last() == self.entries()[k - 1]);
            assert(self.entry_ok(k - 1));
            self.lemma_span(k - 1);
            if is_giant(self.entries()[k - 1]) {
            } else {
                assert(self.entries()[k - 1].free <= self.span(k - 1));
            }
            assert((k - 1) * SUBTREE + SUBTREE == k * SUBTREE) by (nonlinear_arith);
        } else {
            assert(self.entries().take(0) =~= Seq::<Entry3>::empty());
        }
    }

    /// Number of allocated frames: what the descriptors of the subtrees do not count as free.
    pub fn allocated_pages(&self) -> (n: usize)
        requires
            self.wf(),
        ensures
            n == self.allocated_count(),
            n <= self.frames(),
    {
        let mut pages = self.lower.pages();
        let ghost total = pages as int;
        let mut i: usize = 0;
        proof {
            self.lower().lemma_shape();
            assert(self.entries().take(0) =~= Seq::<Entry3>::empty());
            self.lemma_sum_free_bound(self.entries().len() as int);
            assert(self.entries().take(self.entries().len() as int) =~= self.entries());
        }
        while i < self.subtrees.len()
            invariant
                i <= self.subtrees.len(),
                self.subtrees.len() == self.entries().len(),
                self.wf(),
                total == self.frames(),
                pages == total - sum_free(self.entries().take(i as int)),
                sum_free(self.entries()) <= total,
            decreases self.subtrees.len() - i,
        {
            let e = self.load(i);
            proof {
                let s = self.entries().take(i + 1);
                assert(s.drop_last() =~= self.entries().take(i as int));
                assert(s.last() == self.entries()[i as int]);
                self.lemma_sum_free_mono(i + 1);
            }
            pages -= e.free;
            i += 1;
        }
        proof {
            assert(self.entries().take(self.entries().len() as int) =~= self.entries());
        }
        pages
    }

    /// The free frames of the first `k` subtrees are at most those of all.
    proof fn lemma_sum_free_mono(&self, k: int)
        requires
            0 <= k <= self.entries().len(),
        ensures
            sum_free(self.entries().take(k)) <= sum_free(self.entries()),
        decreases self.entries().len() - k,
    {
        if k < self.entries().len() {
            self.lemma_sum_free_mono(k + 1);
            let s = self.entries().take(k + 1);
            assert(s.drop_last() =~= self.entries().take(k));
        } else {
            assert(self.entries().take(k) =~= self.entries());
        }
    }

    /// The call leads from `pre` to `post`.
    pub open spec fn follows(pre: &Self, post: &Self, call: Call) -> bool {
        match call {
            Call::Get { core, size, got } => 0 <= core < pre.cores() && pre.wf() && Self::get_post(
                pre,
                post,
                core,
                size,
                got,
            ),
            Call::Put { addr, size, done } => pre.wf() && Self::put_post(
                pre,
                post,
                addr,
                size,
                done,
            ),
        }
    }

    /// Over any run of calls, the allocated frames change by what the
    /// calls that succeeded allocated and freed.
    pub proof fn lemma_conservation(states: Seq<Self>, calls: Seq<Call>)
        requires
            states.len() == calls.len() + 1,
            forall|k: int|
                0 <= k < calls.len() ==> Self::follows(
                    &states[k],
                    &states[k + 1],
                    #[trigger] calls[k],
                ),
        ensures
            states.last().allocated_count() == states[0].allocated_count() + net(calls),
        decreases calls.len(),
    {
        if calls.len() > 0 {
            let n = calls.len() as int;
            let before = states.drop_last();
            let done = calls.drop_last();
            assert forall|k: int| 0 <= k < done.len() implies Self::follows(
                &before[k],
                &before[k + 1],
                #[trigger] done[k],
            ) by {
                assert(Self::follows(&states[k], &states[k + 1], calls[k]));
            }
            Self::lemma_conservation(before, done);
            assert(Self::follows(&states[n - 1], &states[n], calls[n - 1]));
            assert(before.last() == states[n - 1]);
            assert(before[0] == states[0]);
        }
    }

    /// Two units that are handed out one after the other do not overlap.
    pub proof fn lemma_disjoint(
        pre: &Self,
        mid: &Self,
        post: &Self,
        core1: int,
        size1: Size,
        addr1: u64,
        core2: int,
        size2: Size,
        addr2: u64,
    )
        requires
            Self::get_post(pre, mid, core1, size1, Ok(addr1)),
            Self::get_post(mid, post, core2, size2, Ok(addr2)),
        ensures
            addr1 + size1.span_spec() * PAGE_SIZE <= addr2 || addr2 + size2.span_spec() * PAGE_SIZE
                <= addr1,
    {
        crate::table::lemma_spans();
        let base = pre.lower().base() as int;
        let first = (addr1 - base) / (PAGE_SIZE as int);
        let second = (addr2 - base) / (PAGE_SIZE as int);
        let len1 = size1.span_spec() as int;
        let len2 = size2.span_spec() as int;
        let f = if first >= second {
            first
        } else {
            second
        };
        if first < second + len2 && second < first + len1 {
            assert(mid.allocated(f));
            assert(!mid.allocated(f));
        }
        assert(addr1 == base + first * PAGE_SIZE);
        assert(addr2 == base + second * PAGE_SIZE);
        assert(first + len1 <= second ==> base + first * PAGE_SIZE + len1 * PAGE_SIZE <= base + second * PAGE_SIZE)
            by (nonlinear_arith)
            requires
                PAGE_SIZE == 4096,
        ;
        assert(second + len2 <= first ==> base + second * PAGE_SIZE + len2 * PAGE_SIZE <= base + first * PAGE_SIZE)
            by (nonlinear_arith)
            requires
                PAGE_SIZE == 4096,
        ;
    }

    /// The first frame of an allocated unit is allocated.
    pub proof fn lemma_unit_allocated(&self, page: int, size: Size)
        requires
            self.wf(),
            0 <= page < self.frames(),
            self.unit_at(page, size),
        ensures
            self.allocated(page),
    {
        let i = page / (SUBTREE as int);
        self.lower().lemma_shape();
        assert(self.entry_ok(i));
        if size == Size::L2 {
            self.lemma_giant_allocated(i);
        }
    }

    /// A `put` at a frame that is not allocated fails, and changes nothing.
    pub proof fn lemma_free_rejected(
        pre: &Self,
        post: &Self,
        addr: u64,
        size: Size,
        res: Result<(), Error>,
    )
        requires
            pre.wf(),
            Self::put_post(pre, post, addr, size, res),
            pre.page_of(addr) is Some ==> !pre.allocated(pre.page_of(addr).unwrap()),
        ensures
            res == Err::<(), Error>(Error::Address),
            *post == *pre,
    {
        if pre.page_of(addr) is Some && pre.unit_at(pre.page_of(addr).unwrap(), size) {
            pre.lemma_unit_allocated(pre.page_of(addr).unwrap(), size);
        }
    }

    /// A unit that was freed cannot be freed again.
    pub proof fn lemma_double_free(
        pre: &Self,
        mid: &Self,
        post: &Self,
        addr: u64,
        size: Size,
        size2: Size,
        res: Result<(), Error>,
    )
        requires
            pre.wf(),
            Self::put_post(pre, mid, addr, size, Ok(())),
            Self::put_post(mid, post, addr, size2, res),
        ensures
            res == Err::<(), Error>(Error::Address),
            *post == *mid,
    {
        crate::table::lemma_spans();
        let page = pre.page_of(addr).unwrap();
        assert(mid.page_of(addr) == pre.page_of(addr));
        assert(!mid.allocated(page));
        Self::lemma_free_rejected(mid, post, addr, size2, res);
    }

    /// A unit that is freed right after it was handed out leaves every frame
    /// as it was, and every subtree with as many free frames as before.
    pub proof fn lemma_round_trip(
        pre: &Self,
        mid: &Self,
        post: &Self,
        core: int,
        size: Size,
        addr: u64,
        res: Result<(), Error>,
    )
        requires
            pre.wf(),
            Self::get_post(pre, mid, core, size, Ok(addr)),
            Self::put_post(mid, post, addr, size, res),
        ensures
            res is Ok,
            forall|f: int| 0 <= f < pre.frames() ==> #[trigger] post.allocated(f) == pre.allocated(f),
            post.allocated_count() == pre.allocated_count(),
            post.free_changed(pre, -1, 0),
    {
        crate::table::lemma_spans();
        let page = (addr - pre.lower().base()) / (PAGE_SIZE as int);
        assert(mid.page_of(addr) == Some(page)) by {
            assert(page * PAGE_SIZE % (PAGE_SIZE as int) == 0) by (nonlinear_arith)
                requires
                    PAGE_SIZE == 4096,
            ;
        }
        assert forall|f: int| 0 <= f < pre.frames() implies #[trigger] post.allocated(f)
            == pre.allocated(f) by {
            assert(mid.allocated(f) == (pre.allocated(f) || page <= f < page + size.span_spec()));
        }
        assert forall|j: int| 0 <= j < post.entries().len() implies (
        #[trigger] post.entries()[j]).free == pre.entries()[j].free by {
            let m = mid.entries()[j];
            assert(m.free == pre.entries()[j].free + (if j == page / (SUBTREE as int) {
                -(size.span_spec() as int)
            } else {
                0
            }));
        }
    }

    /// A giant unit that is freed right after it was handed out leaves its
    /// subtree wholly free, held by nobody and serving no regions, and
    /// every list as it was: the subtree is in the list of free subtrees
    /// once, where it was.
    pub proof fn lemma_giant_round_trip(
        pre: &Self,
        mid: &Self,
        post: &Self,
        core: int,
        addr: u64,
        res: Result<(), Error>,
    )
        requires
            pre.wf(),
            Self::get_post(pre, mid, core, Size::L2, Ok(addr)),
            Self::put_post(mid, post, addr, Size::L2, res),
        ensures
            res is Ok,
            post.list(EMPTY as int) == pre.list(EMPTY as int),
            post.list(PARTIAL_L0 as int) == pre.list(PARTIAL_L0 as int),
            post.list(PARTIAL_L1 as int) == pre.list(PARTIAL_L1 as int),
            ({
                let i = (addr - pre.lower().base()) / (PAGE_SIZE as int) / (SUBTREE as int);
                let e = post.entries()[i];
                e.free == SUBTREE && !e.reserved && !e.huge
            }),
    {
        Self::lemma_round_trip(pre, mid, post, core, Size::L2, addr, res);
        let page = (addr - pre.lower().base()) / (PAGE_SIZE as int);
        assert(mid.page_of(addr) == Some(page)) by {
            assert(page * PAGE_SIZE % (PAGE_SIZE as int) == 0) by (nonlinear_arith)
                requires
                    PAGE_SIZE == 4096,
            ;
        }
        let l = pre.list(EMPTY as int);
        assert(l.drop_last().push(l.last()) =~= l);
    }

    /// The free frames of the first `k` subtrees of an allocator without allocations.
    proof fn lemma_sum_free_fresh(&self, k: int)
        requires
            self.wf(),
            self.all_free(),
            0 <= k <= self.entries().len(),
        ensures
            sum_free(self.entries().take(k)) == (if k * SUBTREE <= self.frames() {
                k * SUBTREE
            } else {
                self.frames() as int
            }),
        decreases k,
    {
        if k > 0 {
            self.lemma_sum_free_fresh(k - 1);
            let s = self.entries().take(k);
            assert(s.drop_last() =~= self.entries().take(k - 1));
            assert(s.last() == self.entries()[k - 1]);
            let e = self.entries()[k - 1];
            assert(e.free == self.span(k - 1));
            self.lemma_span(k - 1);
            assert((k - 1) * SUBTREE + SUBTREE == k * SUBTREE) by (nonlinear_arith);
        } else {
            assert(self.entries().take(0) =~= Seq::<Entry3>::empty());
        }
    }

    /// In an allocator that was set up anew nothing is allocated.
    pub proof fn lemma_fresh(&self)
        requires
            self.wf(),
            self.all_free(),
        ensures
            self.allocated_count() == 0,
            forall|f: int| 0 <= f < self.frames() ==> !#[trigger] self.allocated(f),
    {
        let n = self.entries().len() as int;
        self.lower().lemma_shape();
        self.lemma_sum_free_fresh(n);
        assert(self.entries().take(n) =~= self.entries());
        assert(n * SUBTREE >= self.frames()) by {
            if n > 0 {
                self.lemma_span(n - 1);
            }
        }
        assert forall|f: int| 0 <= f < self.frames() implies !#[trigger] self.allocated(f) by {
            let i = f / (SUBTREE as int);
            let e = self.entries()[i];
            assert(e.free == self.span(i));
            self.lemma_span(i);
            self.lemma_subtree_free(i);
        }
    }

    /// The descriptor of the region of frame `page`.
    pub fn pt2(&self, page: usize) -> (e: Entry2)
        requires
            self.image_ok(),
            page < self.frames(),
        ensures
            e == self.lower().regions()[(page / PT_LEN) as int],
    {
        self.lower.pt2(page)
    }

    /// The slot of frame `page` in the leaf table of its region.
    pub fn pt1(&self, page: usize) -> (e: crate::entry::Entry1)
        requires
            self.image_ok(),
            page < self.frames(),
        ensures
            e == self.lower().leaves()[(page / PT_LEN) as int][(page % PT_LEN) as int],
    {
        self.lower.pt1(page)
    }

    /// A unit of the size could lie at frame `page`, and none of its frames is allocated.
    pub open spec fn free_at(&self, page: int, size: Size) -> bool {
        &&& page % (size.span_spec() as int) == 0
        &&& page + size.span_spec() <= self.frames()
        &&& forall|f: int| page <= f < page + size.span_spec() ==> !#[trigger] self.allocated(f)
    }

    /// A region without an allocated frame is unused, and the other way round.
    proof fn lemma_region_free(&self, r: int)
        requires
            self.wf(),
            0 <= r < self.lower().regions().len(),
            !self.lower().regions()[crate::leaf_alloc::subtree_base(r * PT_LEN)].giant,
        ensures
            crate::leaf_alloc::is_unused(self.lower().regions()[r]) <==> forall|f: int|
                r * PT_LEN <= f < r * PT_LEN + PT_LEN ==> !#[trigger] self.allocated(f),
    {
        let low = self.lower();
        let e = low.regions()[r];
        let t = low.leaves()[r];
        low.lemma_shape();
        assert(region_ok(e, t));
        if crate::leaf_alloc::is_unused(e) {
            crate::leaf_alloc::lemma_count_zero(t);
            assert forall|f: int| r * PT_LEN <= f < r * PT_LEN + PT_LEN implies !#[trigger] self.allocated(
                f,
            ) by {
                assert(f / (PT_LEN as int) == r);
                assert(crate::leaf_alloc::subtree_base(f) == crate::leaf_alloc::subtree_base(
                    r * PT_LEN,
                ));
            }
        }
        if forall|f: int| r * PT_LEN <= f < r * PT_LEN + PT_LEN ==> !#[trigger] self.allocated(f) {
            assert(!self.allocated(r * PT_LEN));
            assert((r * PT_LEN) / (PT_LEN as int) == r);
            assert forall|j: int| 0 <= j < t.len() implies t[j] == crate::entry::Entry1::Empty by {
                let f = r * PT_LEN + j;
                assert(!self.allocated(f));
                assert(f / (PT_LEN as int) == r && f % (PT_LEN as int) == j);
            }
            crate::leaf_alloc::lemma_count_none(t);
            assert(e.giant ==> r % (PT_LEN as int) == 0);
        }
    }

    /// A subtree without an allocated frame counts all its frames as free, and the other way round.
    proof fn lemma_subtree_free_iff(&self, i: int)
        requires
            self.wf(),
            0 <= i < self.entries().len(),
            !is_giant(self.entries()[i]),
        ensures
            self.entries()[i].free == self.span(i) <==> forall|f: int|
                i * SUBTREE <= f < i * SUBTREE + self.span(i) ==> !#[trigger] self.allocated(f),
    {
        let low = self.lower();
        let sub = self.sub(i);
        let base = i * PT_LEN;
        assert(self.entry_ok(i));
        self.lemma_span(i);
        if self.entries()[i].free == self.span(i) {
            self.lemma_subtree_free(i);
        }
        if forall|f: int|
            i * SUBTREE <= f < i * SUBTREE + self.span(i) ==> !#[trigger] self.allocated(f) {
            assert forall|j: int| 0 <= j < sub.len() implies used(#[trigger] sub[j]) == 0 by {
                let r = base + j;
                assert(sub[j] == low.regions()[r]);
                assert(crate::leaf_alloc::subtree_base(r * PT_LEN) == base);
                assert(sub[0] == low.regions()[base]);
                self.lemma_region_free(r);
                assert forall|f: int| r * PT_LEN <= f < r * PT_LEN + PT_LEN implies !#[trigger] self.allocated(
                    f,
                ) by {}
            }
            lemma_sum_used_none(sub);
        }
    }

    /// Whether a unit of the size at address `addr` would consist of free frames only.
    ///
    /// An address that is not that of a managed frame, or at which no unit
    /// of the size can lie, gives `false`.
    #[verifier::rlimit(60)]
    pub fn is_free(&self, addr: u64, size: Size) -> (b: bool)
        requires
            self.wf(),
        ensures
            b == (self.page_of(addr) is Some && self.free_at(self.page_of(addr).unwrap(), size)),
    {
        proof {
            crate::table::lemma_spans();
            self.lower().lemma_shape();
        }
        let begin = self.lower.begin();
        if addr < begin || (addr - begin) % (PAGE_SIZE as u64) != 0 {
            return false;
        }
        let offset = (addr - begin) / (PAGE_SIZE as u64);
        if offset >= self.lower.pages() as u64 {
            return false;
        }
        let page = offset as usize;
        let i = page / SUBTREE;
        let e = self.load(i);
        proof {
            assert(self.entry_ok(i as int));
            self.lemma_span(i as int);
            assert(crate::leaf_alloc::subtree_base(page as int) == i * PT_LEN);
        }
        if e.idx == GIANT {
            proof {
                self.lemma_giant_allocated(i as int);
                assert(self.allocated(page as int));
            }
            return false;
        }
        match size {
            Size::L0 => {
                let e2 = self.lower.pt2(page);
                if e2.page || e2.pages == PT_LEN {
                    assert(self.allocated(page as int));
                    return false;
                }
                let free = self.lower.pt1(page) != crate::entry::Entry1::Page;
                assert(free == !self.allocated(page as int));
                free
            },
            Size::L1 => {
                if page % PT_LEN != 0 {
                    return false;
                }
                let e2 = self.lower.pt2(page);
                proof {
                    let r = page as int / PT_LEN as int;
                    assert(crate::leaf_alloc::subtree_base(r * PT_LEN) == i * PT_LEN);
                    self.lemma_region_free(r);
                }
                !e2.page && !e2.giant && e2.pages == 0
            },
            Size::L2 => {
                if page % SUBTREE != 0 || self.lower.pages() - page < SUBTREE {
                    return false;
                }
                proof {
                    self.lemma_subtree_free_iff(i as int);
                }
                e.free == SUBTREE
            },
        }
    }

    /// How many regions there are of each class of free frames.
    pub fn stats(&self) -> (out: Vec<usize>)
        requires
            self.image_ok(),
        ensures
            out.len() == crate::leaf_alloc::BUCKETS,
            forall|b: int|
                0 <= b < crate::leaf_alloc::BUCKETS ==> #[trigger] out[b]
                    == crate::leaf_alloc::count_bucket(self.lower().regions(), b),
    {
        self.lower.stats()
    }

    /// Among the frames of the first `j` regions of subtree `i`, as many are
    /// allocated as the descriptors of the regions count, or all of them in
    /// a giant unit.
    proof fn lemma_subtree_frames(&self, i: int, j: int)
        requires
            self.wf(),
            0 <= i < self.entries().len(),
            0 <= j <= self.sub(i).len(),
        ensures
            self.lower().frames_allocated((i * PT_LEN + j) * PT_LEN) - self.lower().frames_allocated(
                i * SUBTREE,
            ) == (if is_giant(self.entries()[i]) {
                j * PT_LEN
            } else {
                sum_used(self.sub(i).take(j)) as int
            }),
        decreases j,
    {
        let low = self.lower();
        let sub = self.sub(i);
        self.lemma_span(i);
        assert(self.entry_ok(i));
        assert(i * PT_LEN * PT_LEN == i * SUBTREE) by (nonlinear_arith)
            requires
                PT_LEN == 512,
                SUBTREE == 262144,
        ;
        if j > 0 {
            self.lemma_subtree_frames(i, j - 1);
            let r = i * PT_LEN + j - 1;
            low.lemma_region_used(r);
            assert(crate::leaf_alloc::subtree_base(r * PT_LEN) == i * PT_LEN);
            assert(sub.take(j).drop_last() =~= sub.take(j - 1));
            assert(sub.take(j).last() == sub[j - 1]);
            assert(sub[j - 1] == low.regions()[r]);
            assert((i * PT_LEN + j) * PT_LEN == r * PT_LEN + PT_LEN) by (nonlinear_arith)
                requires
                    r == i * PT_LEN + j - 1,
            ;
            assert((i * PT_LEN + (j - 1)) * PT_LEN == r * PT_LEN);
        } else {
            assert(sub.take(0) =~= Seq::<Entry2>::empty());
            assert((i * PT_LEN + 0) * PT_LEN == i * PT_LEN * PT_LEN);
        }
    }

    /// Among the frames of the first `k` subtrees, those are allocated that
    /// the descriptors of the subtrees do not count as free.
    proof fn lemma_directory_frames(&self, k: int)
        requires
            self.wf(),
            0 <= k <= self.entries().len(),
        ensures
            self.lower().frames_allocated(
                if k * SUBTREE <= self.frames() {
                    k * SUBTREE
                } else {
                    self.frames() as int
                },
            ) == (if k * SUBTREE <= self.frames() {
                k * SUBTREE
            } else {
                self.frames() as int
            }) - sum_free(self.entries().take(k)),
        decreases k,
    {
        if k > 0 {
            let i = k - 1;
            self.lemma_directory_frames(i);
            self.lemma_span(i);
            assert(self.entry_ok(i));
            let sub = self.sub(i);
            self.lemma_subtree_frames(i, sub.len() as int);
            assert(sub.take(sub.len() as int) =~= sub);
            let s = self.entries().take(k);
            assert(s.drop_last() =~= self.entries().take(i));
            assert(s.last() == self.entries()[i]);
            assert(i * SUBTREE + SUBTREE == k * SUBTREE) by (nonlinear_arith)
                requires
                    i == k - 1,
            ;
            assert((i * PT_LEN + sub.len()) * PT_LEN == i * SUBTREE + sub.len() * PT_LEN)
                by (nonlinear_arith)
                requires
                    PT_LEN == 512,
                    SUBTREE == 262144,
            ;
        } else {
            assert(self.entries().take(0) =~= Seq::<Entry3>::empty());
        }
    }

    /// The allocated frames are as many as the descriptors of the subtrees
    /// do not count as free.
    pub proof fn lemma_count_is_frames(&self)
        requires
            self.wf(),
        ensures
            self.allocated_count() == self.lower().frames_allocated(self.frames() as int),
    {
        let n = self.entries().len() as int;
        self.lower().lemma_shape();
        self.lemma_directory_frames(n);
        assert(self.entries().take(n) =~= self.entries());
        if n > 0 {
            self.lemma_span(n - 1);
        }
    }
}

} // verus!
