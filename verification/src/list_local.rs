//! A plain allocator of single frames with one free list per core.
//!
//! The frames are dealt out to the cores evenly when the allocator is made
//! ready. Each core allocates from its own list only, so a core whose list
//! is empty gets nothing, whatever the others have left. The lists are
//! threaded through the free frames themselves: each free frame names the
//! next one.
use vstd::prelude::*;
use crate::{Error, Size, MAX_PAGES, MIN_PAGES, PAGE_SIZE};

verus! {

/// The link of the last frame of a list, and the head of an empty list.
pub const END: usize = usize::MAX;

/// The link that a free frame holds.
pub struct Node {
    next: usize,
}

impl Node {
    /// The frame that the link names, or `END`.
    pub closed spec fn view(&self) -> usize {
        self.next
    }

    /// A link that names no frame.
    pub fn new() -> (n: Node)
        ensures
            n@ == END,
    {
        Node { next: END }
    }

    /// Lets the link name frame `v`.
    pub fn set(&mut self, v: usize)
        ensures
            final(self)@ == v,
    {
        self.next = v;
    }

    /// The frame that the link names, or `END`.
    pub fn get(&self) -> (v: usize)
        ensures
            v == self@,
    {
        self.next
    }
}

/// What one core keeps: the head of its list, and how many frames it has
/// taken from the list beyond those it has put there.
pub struct Local {
    next: Node,
    counter: i64,
}

impl Local {
    /// An empty list from which nothing was taken.
    pub fn new() -> (l: Local)
        ensures
            l.head() == END,
            l.count() == 0,
    {
        Local { next: Node::new(), counter: 0 }
    }

    /// An empty list for a core that has yet to get `n` frames.
    fn owing(n: usize) -> (l: Local)
        requires
            n <= MAX_PAGES,
        ensures
            l.head() == END,
            l.count() == n,
    {
        Local { next: Node::new(), counter: n as i64 }
    }

    /// Takes the first frame off the list; `next` is the one after it.
    fn pop_to(&mut self, next: usize)
        requires
            old(self).count() < MAX_PAGES,
        ensures
            final(self).head() == next,
            final(self).count() == old(self).count() + 1,
    {
        self.next.set(next);
        self.counter = self.counter + 1;
    }

    /// Puts frame `f` in front of the list.
    fn push_from(&mut self, f: usize)
        requires
            old(self).count() > -(MAX_PAGES as int),
        ensures
            final(self).head() == f,
            final(self).count() == old(self).count() - 1,
    {
        self.next.set(f);
        self.counter = self.counter - 1;
    }

    /// The first frame of the list, or `END`.
    fn first(&self) -> (f: usize)
        ensures
            f == self.head(),
    {
        self.next.get()
    }

    /// Frames taken from the list less frames put there.
    fn taken(&self) -> (n: i64)
        ensures
            n == self.count(),
    {
        self.counter
    }

    /// The first frame of the list, or `END`.
    pub closed spec fn head(&self) -> usize {
        self.next@
    }

    /// Frames taken from the list less frames put there.
    pub closed spec fn count(&self) -> int {
        self.counter as int
    }
}

/// The link that the frame at position `k` of a list holds.
#[verifier::opaque]
pub open spec fn link_of(items: Seq<usize>, k: int) -> usize {
    if k == 0 {
        END
    } else {
        items[k - 1]
    }
}

/// The list `items` is threaded through the links, from `head` down.
pub open spec fn linked(links: Seq<usize>, head: usize, items: Seq<usize>) -> bool {
    &&& items.len() == 0 ==> head == END
    &&& items.len() > 0 ==> head == items.last()
    &&& forall|k: int|
        0 <= k < items.len() ==> (#[trigger] items[k]) < links.len() && links[items[k] as int]
            == link_of(items, k)
}

/// Every frame of the list of core `c` has `c` as its home.
pub open spec fn homed(homes: Seq<int>, c: int, items: Seq<usize>) -> bool {
    forall|a: int|
        0 <= a < items.len() ==> (#[trigger] items[a]) < homes.len() && homes[items[a] as int] == c
}

/// A list is not touched by a write to the link of a frame of another home.
proof fn lemma_linked_write(
    links: Seq<usize>,
    head: usize,
    items: Seq<usize>,
    homes: Seq<int>,
    c: int,
    f: int,
    v: usize,
)
    requires
        linked(links, head, items),
        homed(homes, c, items),
        0 <= f < links.len(),
        homes[f] != c,
    ensures
        linked(links.update(f, v), head, items),
{
    reveal(link_of);
    let after = links.update(f, v);
    assert forall|a: int| 0 <= a < items.len() implies (#[trigger] items[a]) < after.len()
        && after[items[a] as int] == link_of(items, a) by {
        assert(items[a] < links.len());
    }
}

/// A list is not touched when a frame of another home changes its home.
proof fn lemma_homed_other(homes: Seq<int>, c: int, items: Seq<usize>, f: int, to: int)
    requires
        homed(homes, c, items),
        0 <= f < homes.len(),
        homes[f] != c,
    ensures
        homed(homes.update(f, to), c, items),
{
    assert forall|a: int| 0 <= a < items.len() implies (#[trigger] items[a]) < homes.update(
        f,
        to,
    ).len() && homes.update(f, to)[items[a] as int] == c by {
        assert(items[a] < homes.len());
    }
}

/// A frame without a home goes on top of a list.
proof fn lemma_linked_push(
    links: Seq<usize>,
    head: usize,
    items: Seq<usize>,
    homes: Seq<int>,
    c: int,
    f: usize,
)
    requires
        linked(links, head, items),
        homed(homes, c, items),
        items.no_duplicates(),
        homes.len() == links.len(),
        0 <= f < links.len(),
        homes[f as int] == -1,
        0 <= c,
    ensures
        linked(links.update(f as int, head), f, items.push(f)),
        homed(homes.update(f as int, c), c, items.push(f)),
        items.push(f).no_duplicates(),
{
    reveal(link_of);
    let after = links.update(f as int, head);
    let pushed = items.push(f);
    assert forall|a: int| 0 <= a < pushed.len() implies (#[trigger] pushed[a]) < after.len()
        && after[pushed[a] as int] == link_of(pushed, a) by {
        if a < items.len() {
            assert(items[a] < links.len());
            assert(items[a] != f);
        }
    }
    assert forall|a: int| 0 <= a < pushed.len() implies (#[trigger] pushed[a]) < homes.update(
        f as int,
        c,
    ).len() && homes.update(f as int, c)[pushed[a] as int] == c by {
        if a < items.len() {
            assert(items[a] < homes.len());
        }
    }
    assert forall|a: int, b: int|
        0 <= a < pushed.len() && 0 <= b < pushed.len() && a != b implies pushed[a] != pushed[b] by {
        if a < items.len() {
            assert(items[a] < homes.len());
        }
        if b < items.len() {
            assert(items[b] < homes.len());
        }
    }
}

/// The frame on top of a list comes off.
proof fn lemma_linked_pop(
    links: Seq<usize>,
    head: usize,
    items: Seq<usize>,
    homes: Seq<int>,
    c: int,
)
    requires
        linked(links, head, items),
        homed(homes, c, items),
        items.no_duplicates(),
        items.len() > 0,
    ensures
        head == items.last(),
        head < links.len(),
        linked(links, links[head as int], items.drop_last()),
        homed(homes.update(head as int, -1), c, items.drop_last()),
        items.drop_last().no_duplicates(),
{
    reveal(link_of);
    let rest = items.drop_last();
    assert(items[items.len() - 1] < links.len());
    assert forall|a: int| 0 <= a < rest.len() implies (#[trigger] rest[a]) < links.len()
        && links[rest[a] as int] == link_of(rest, a) by {
        assert(items[a] < links.len());
    }
    assert forall|a: int| 0 <= a < rest.len() implies (#[trigger] rest[a]) < homes.update(
        head as int,
        -1,
    ).len() && homes.update(head as int, -1)[rest[a] as int] == c by {
        assert(items[a] < homes.len());
        assert(items[a] != items[items.len() - 1]);
    }
}

/// Number of frames that are marked as allocated.
pub open spec fn count_true(s: Seq<bool>) -> int
    decreases s.len(),
{
    if s.len() == 0 {
        0
    } else {
        count_true(s.drop_last()) + if s.last() {
            1int
        } else {
            0int
        }
    }
}

/// Between none and all frames are marked.
proof fn lemma_count_true_bound(s: Seq<bool>)
    ensures
        0 <= count_true(s) <= s.len(),
    decreases s.len(),
{
    if s.len() > 0 {
        lemma_count_true_bound(s.drop_last());
    }
}

/// Marking or unmarking one frame changes the count by one, or not at all.
proof fn lemma_count_true_update(s: Seq<bool>, f: int, v: bool)
    requires
        0 <= f < s.len(),
    ensures
        count_true(s.update(f, v)) == count_true(s) - (if s[f] {
            1int
        } else {
            0int
        }) + (if v {
            1int
        } else {
            0int
        }),
    decreases s.len(),
{
    let u = s.update(f, v);
    if f == s.len() - 1 {
        assert(u.drop_last() =~= s.drop_last());
    } else {
        assert(u.drop_last() =~= s.drop_last().update(f, v));
        lemma_count_true_update(s.drop_last(), f, v);
    }
}

/// Where every frame is marked, the count is their number.
proof fn lemma_count_true_all(s: Seq<bool>)
    requires
        forall|f: int| 0 <= f < s.len() ==> s[f],
    ensures
        count_true(s) == s.len(),
    decreases s.len(),
{
    if s.len() > 0 {
        lemma_count_true_all(s.drop_last());
    }
}

/// Empty lists hold no frames.
proof fn lemma_sum_len_empty(chains: Seq<Seq<usize>>, k: int)
    requires
        0 <= k <= chains.len(),
        forall|c: int| 0 <= c < chains.len() ==> (#[trigger] chains[c]).len() == 0,
    ensures
        sum_len(chains, k) == 0,
    decreases k,
{
    if k > 0 {
        lemma_sum_len_empty(chains, k - 1);
    }
}

/// The frames that core `c` gets when each core gets `p`: its share of the
/// range, the lowest frame on top.
pub open spec fn dealt(c: int, p: int) -> Seq<usize> {
    Seq::new(p as nat, |j: int| (c * p + p - 1 - j) as usize)
}

/// Frames in the lists of the first `k` cores.
pub open spec fn sum_len(chains: Seq<Seq<usize>>, k: int) -> int
    decreases k,
{
    if k <= 0 {
        0
    } else {
        sum_len(chains, k - 1) + chains[k - 1].len()
    }
}

/// A change of one list's length changes the sum by as much.
proof fn lemma_sum_len_update(chains: Seq<Seq<usize>>, c: int, items: Seq<usize>, k: int)
    requires
        0 <= c < chains.len(),
        0 <= k <= chains.len(),
    ensures
        sum_len(chains.update(c, items), k) == sum_len(chains, k) + (if c < k {
            items.len() - chains[c].len()
        } else {
            0
        }),
    decreases k,
{
    if k > 0 {
        lemma_sum_len_update(chains, c, items, k - 1);
    }
}

/// The allocator with one list of free frames per core.
pub struct ListLocalAlloc {
    begin: u64,
    pages: usize,
    per_core: usize,
    nodes: Vec<Node>,
    taken: Vec<bool>,
    local: Vec<Local>,
    chains: Ghost<Seq<Seq<usize>>>,
    homes: Ghost<Seq<int>>,
}

impl ListLocalAlloc {
    /// Number of frames.
    pub closed spec fn frames(&self) -> nat {
        self.pages as nat
    }

    /// Number of cores.
    pub closed spec fn cores(&self) -> nat {
        self.local.len() as nat
    }

    /// Address of the first frame.
    pub closed spec fn base(&self) -> u64 {
        self.begin
    }

    /// The free frames of core `c`, the one that is handed out next at the end.
    pub closed spec fn chain(&self, c: int) -> Seq<usize> {
        self.chains@[c]
    }

    /// Frame `f` is allocated.
    pub closed spec fn allocated(&self, f: int) -> bool {
        self.taken[f]
    }

    /// Number of allocated frames.
    pub closed spec fn allocated_count(&self) -> int {
        count_true(self.taken@)
    }

    /// The links of the frames.
    pub closed spec fn links(&self) -> Seq<usize> {
        Seq::new(self.nodes.len() as nat, |f: int| self.nodes[f]@)
    }

    /// The list of core `c` is threaded through the frames, holds no frame
    /// twice and only frames whose home it is, and the core's count is right.
    pub closed spec fn chain_inv(&self, c: int) -> bool {
        &&& linked(self.links(), self.local[c].head(), self.chains@[c])
        &&& homed(self.homes@, c, self.chains@[c])
        &&& self.chains@[c].no_duplicates()
        &&& self.local[c].count() == self.per_core - self.chains@[c].len()
    }

    /// The allocator is consistent.
    pub closed spec fn wf(&self) -> bool {
        &&& self.pages <= MAX_PAGES
        &&& self.begin + self.pages * PAGE_SIZE <= u64::MAX
        &&& self.nodes.len() == self.pages
        &&& self.taken.len() == self.pages
        &&& self.homes@.len() == self.pages
        &&& self.chains@.len() == self.local.len()
        &&& self.per_core <= self.pages
        &&& self.per_core * self.local.len() == self.pages
        &&& forall|c: int| 0 <= c < self.local.len() ==> #[trigger] self.chain_inv(c)
        &&& forall|f: int|
            0 <= f < self.pages ==> -1 <= #[trigger] self.homes@[f] < self.local.len()
                && self.taken[f] == (self.homes@[f] == -1)
        &&& sum_len(self.chains@, self.chains@.len() as int) + count_true(self.taken@)
            == self.pages
    }

    /// The frame at address `addr`, if that is the address of a managed frame.
    pub open spec fn page_of(&self, addr: u64) -> Option<int> {
        if addr >= self.base() && (addr - self.base()) % (PAGE_SIZE as int) == 0 && (addr
            - self.base()) / (PAGE_SIZE as int) < self.frames() {
            Some((addr - self.base()) / (PAGE_SIZE as int))
        } else {
            None
        }
    }

    /// An allocator over nothing, for no core.
    pub fn new() -> (s: Self)
        ensures
            s.wf(),
            s.frames() == 0,
            s.cores() == 0,
            s.allocated_count() == 0,
    {
        let chains: Ghost<Seq<Seq<usize>>> = Ghost(Seq::empty());
        let homes: Ghost<Seq<int>> = Ghost(Seq::empty());
        ListLocalAlloc {
            begin: 0,
            pages: 0,
            per_core: 0,
            nodes: Vec::new(),
            taken: Vec::new(),
            local: Vec::new(),
            chains,
            homes,
        }
    }

    /// Number of frames that the allocator manages.
    pub fn pages(&self) -> (n: usize)
        ensures
            n == self.frames(),
    {
        self.pages
    }

    /// The frames, the cores and the address are those of `o`.
    pub open spec fn same_range(&self, o: &Self) -> bool {
        self.frames() == o.frames() && self.cores() == o.cores() && self.base() == o.base()
    }

    /// The lists are those of `o`, but for that of core `c`.
    pub open spec fn chains_but(&self, o: &Self, c: int) -> bool {
        forall|d: int| 0 <= d < self.cores() && d != c ==> #[trigger] self.chain(d) == o.chain(d)
    }

    /// The frames are allocated as in `o`, but for frame `f`.
    pub open spec fn allocated_but(&self, o: &Self, f: int) -> bool {
        forall|g: int|
            0 <= g < self.frames() && g != f ==> #[trigger] self.allocated(g) == o.allocated(g)
    }

    /// Puts frame `f`, which is allocated, on top of the list of core `c`.
    fn push(&mut self, c: usize, f: usize)
        requires
            old(self).wf(),
            c < old(self).cores(),
            f < old(self).frames(),
            old(self).allocated(f as int),
        ensures
            final(self).wf(),
            final(self).same_range(old(self)),
            final(self).chain(c as int) == old(self).chain(c as int).push(f),
            final(self).chains_but(old(self), c as int),
            !final(self).allocated(f as int),
            final(self).allocated_but(old(self), f as int),
            final(self).allocated_count() == old(self).allocated_count() - 1,
    {
        let head = self.local[c].first();
        proof {
            assert(self.chain_inv(c as int));
            assert(self.homes@[f as int] == -1);
            self.lemma_lens(c as int);
            lemma_count_true_bound(self.taken@);
        }
        self.nodes[f].set(head);
        self.local[c].push_from(f);
        self.taken.set(f, false);
        self.chains = Ghost(self.chains@.update(c as int, self.chains@[c as int].push(f)));
        self.homes = Ghost(self.homes@.update(f as int, c as int));
        proof {
            let ol = old(self).links();
            let oh = old(self).homes@;
            let oc = old(self).chains@;
            assert(self.links() =~= ol.update(f as int, head));
            lemma_linked_push(ol, head, oc[c as int], oh, c as int, f);
            lemma_count_true_update(old(self).taken@, f as int, false);
            lemma_count_true_bound(self.taken@);
            assert forall|d: int| 0 <= d < self.local.len() implies #[trigger] self.chain_inv(d) by {
                assert(old(self).chain_inv(d));
                if d != c {
                    lemma_linked_write(ol, old(self).local[d].head(), oc[d], oh, d, f as int, head);
                    lemma_homed_other(oh, d, oc[d], f as int, c as int);
                }
            }
            lemma_sum_len_update(oc, c as int, oc[c as int].push(f), oc.len() as int);
            assert(self.chains@ =~= oc.update(c as int, oc[c as int].push(f)));
            self.lemma_lens(c as int);
        }
    }

    /// Takes the frame on top of the list of core `c`, if there is one.
    fn pop(&mut self, c: usize) -> (res: Option<usize>)
        requires
            old(self).wf(),
            c < old(self).cores(),
        ensures
            final(self).wf(),
            final(self).same_range(old(self)),
            final(self).chains_but(old(self), c as int),
            old(self).chain(c as int).len() == 0 ==> res is None && *final(self) == *old(self),
            old(self).chain(c as int).len() > 0 ==> {
                let f = old(self).chain(c as int).last();
                &&& res == Some(f)
                &&& f < old(self).frames()
                &&& final(self).chain(c as int) == old(self).chain(c as int).drop_last()
                &&& !old(self).allocated(f as int)
                &&& final(self).allocated(f as int)
                &&& final(self).allocated_but(old(self), f as int)
                &&& final(self).allocated_count() == old(self).allocated_count() + 1
            },
    {
        let head = self.local[c].first();
        let ghost items = self.chains@[c as int];
        proof {
            assert(self.chain_inv(c as int));
            if items.len() > 0 {
                assert(items[items.len() - 1] < self.links().len());
            }
        }
        if head == END {
            return None;
        }
        proof {
            lemma_linked_pop(self.links(), head, items, self.homes@, c as int);
            self.lemma_lens(c as int);
            lemma_count_true_bound(self.taken@);
            assert(self.homes@[head as int] == c) by {
                assert(items[items.len() - 1] < self.homes@.len());
            }
        }
        let next = self.nodes[head].get();
        self.local[c].pop_to(next);
        self.taken.set(head, true);
        self.chains = Ghost(self.chains@.update(c as int, items.drop_last()));
        self.homes = Ghost(self.homes@.update(head as int, -1));
        proof {
            let oh = old(self).homes@;
            let oc = old(self).chains@;
            assert(self.links() =~= old(self).links());
            assert forall|d: int| 0 <= d < self.local.len() implies #[trigger] self.chain_inv(d) by {
                assert(old(self).chain_inv(d));
                if d != c {
                    lemma_homed_other(oh, d, oc[d], head as int, -1);
                }
            }
            lemma_sum_len_update(oc, c as int, items.drop_last(), oc.len() as int);
            assert(self.chains@ =~= oc.update(c as int, items.drop_last()));
            lemma_count_true_update(old(self).taken@, head as int, true);
        }
        Some(head)
    }

    /// No list is longer than the lists together.
    proof fn lemma_lens(&self, c: int)
        requires
            0 <= c < self.chains@.len(),
        ensures
            self.chains@[c].len() <= sum_len(self.chains@, self.chains@.len() as int),
    {
        self.lemma_lens_upto(c, self.chains@.len() as int);
    }

    /// No list among the first `k` is longer than those together.
    proof fn lemma_lens_upto(&self, c: int, k: int)
        requires
            0 <= c < k <= self.chains@.len(),
        ensures
            self.chains@[c].len() <= sum_len(self.chains@, k),
            0 <= sum_len(self.chains@, k),
        decreases k,
    {
        if c < k - 1 {
            self.lemma_lens_upto(c, k - 1);
        } else {
            self.lemma_nonneg(k - 1);
        }
    }

    /// The lists hold no negative number of frames.
    proof fn lemma_nonneg(&self, k: int)
        requires
            0 <= k <= self.chains@.len(),
        ensures
            0 <= sum_len(self.chains@, k),
        decreases k,
    {
        if k > 0 {
            self.lemma_nonneg(k - 1);
        }
    }

    /// A range of `len` frames from address `begin` on cannot serve `cores` cores.
    ///
    /// There is no core, or fewer than `MIN_PAGES` frames for each, or the
    /// range reaches beyond the end of the address space.
    pub open spec fn unusable(cores: usize, begin: u64, len: usize) -> bool {
        cores == 0 || len < MIN_PAGES * cores || begin + Self::share(cores, len) * cores * PAGE_SIZE
            > u64::MAX
    }

    /// The frames that each of `cores` cores gets of a range of `len`
    /// frames, of which at most `MAX_PAGES` are used.
    pub open spec fn share(cores: usize, len: usize) -> int {
        (if len <= MAX_PAGES {
            len as int
        } else {
            MAX_PAGES as int
        }) / (cores as int)
    }

    /// Makes the allocator ready over the `len` frames from address `begin` on, for `cores` cores.
    ///
    /// Each core gets the same number of frames; what is left over is not
    /// used. Nothing is allocated afterwards. Nothing is kept from before,
    /// whatever `overwrite` says.
    pub fn init(&mut self, cores: usize, begin: u64, len: usize, overwrite: bool) -> (res: Result<
        (),
        Error,
    >)
        ensures
            Self::unusable(cores, begin, len) ==> res == Err::<(), Error>(Error::Initialization)
                && *final(self) == *old(self),
            !Self::unusable(cores, begin, len) ==> {
                &&& res is Ok
                &&& final(self).wf()
                &&& final(self).cores() == cores
                &&& final(self).base() == begin
                &&& final(self).frames() == Self::share(cores, len) * cores
                &&& final(self).allocated_count() == 0
                &&& forall|f: int| 0 <= f < final(self).frames() ==> !#[trigger] final(self).allocated(f)
                &&& forall|c: int|
                    0 <= c < cores ==> #[trigger] final(self).chain(c) == dealt(
                        c,
                        Self::share(cores, len),
                    )
            },
    {
        if cores == 0 || cores > len / MIN_PAGES {
            assert(Self::unusable(cores, begin, len)) by {
                if cores > 0 {
                    assert(len < MIN_PAGES * cores) by (nonlinear_arith)
                        requires
                            cores > len / 1024,
                            MIN_PAGES == 1024,
                    ;
                }
            }
            return Err(Error::Initialization);
        }
        assert(len >= MIN_PAGES * cores) by (nonlinear_arith)
            requires
                cores <= len / 1024,
                MIN_PAGES == 1024,
        ;
        let most = if len <= MAX_PAGES {
            len
        } else {
            MAX_PAGES
        };
        let p = most / cores;
        assert(p * cores <= most && p <= most) by (nonlinear_arith)
            requires
                p == most / cores,
                cores > 0,
        ;
        let pages = p * cores;
        assert(pages * PAGE_SIZE <= 134217728 * 4096) by (nonlinear_arith)
            requires
                pages <= 134217728,
                PAGE_SIZE == 4096,
        ;
        if begin > u64::MAX - (pages as u64) * (PAGE_SIZE as u64) {
            return Err(Error::Initialization);
        }
        let mut nodes: Vec<Node> = Vec::new();
        let mut taken: Vec<bool> = Vec::new();
        let mut f: usize = 0;
        while f < pages
            invariant
                f <= pages,
                nodes.len() == f,
                taken.len() == f,
                forall|g: int| 0 <= g < f ==> taken[g],
            decreases pages - f,
        {
            nodes.push(Node::new());
            taken.push(true);
            f += 1;
        }
        let mut local: Vec<Local> = Vec::new();
        let mut c: usize = 0;
        while c < cores
            invariant
                c <= cores,
                p <= MAX_PAGES,
                local.len() == c,
                forall|d: int|
                    0 <= d < c ==> (#[trigger] local[d]).head() == END && local[d].count() == p,
            decreases cores - c,
        {
            local.push(Local::owing(p));
            c += 1;
        }
        let chains: Ghost<Seq<Seq<usize>>> = Ghost(
            Seq::new(cores as nat, |d: int| Seq::<usize>::empty()),
        );
        let homes: Ghost<Seq<int>> = Ghost(Seq::new(pages as nat, |g: int| -1));
        *self = ListLocalAlloc { begin, pages, per_core: p, nodes, taken, local, chains, homes };
        proof {
            reveal(link_of);
            lemma_sum_len_empty(self.chains@, cores as int);
            lemma_count_true_all(self.taken@);
            assert(p <= pages) by (nonlinear_arith)
                requires
                    pages == p * cores,
                    cores >= 1,
            ;
            assert forall|d: int| 0 <= d < self.local.len() implies #[trigger] self.chain_inv(d) by {
                assert(self.chains@[d] =~= Seq::<usize>::empty());
                assert(self.local[d].head() == END && self.local[d].count() == p);
            }
            assert forall|g: int| 0 <= g < pages implies #[trigger] self.allocated(g) by {}
        }
        let mut c: usize = 0;
        while c < cores
            invariant
                c <= cores,
                self.wf(),
                self.cores() == cores,
                self.base() == begin,
                self.frames() == pages,
                pages == p * cores,
                p == Self::share(cores, len),
                self.allocated_count() == pages - c * p,
                forall|g: int| 0 <= g < pages ==> #[trigger] self.allocated(g) == (g >= c * p),
                forall|d: int| 0 <= d < c ==> #[trigger] self.chain(d) == dealt(d, p as int),
                forall|d: int| c <= d < cores ==> (#[trigger] self.chain(d)).len() == 0,
            decreases cores - c,
        {
            let mut k: usize = 0;
            assert(c * p + p <= pages) by (nonlinear_arith)
                requires
                    c < cores,
                    pages == p * cores,
            ;
            while k < p
                invariant
                    k <= p,
                    c < cores,
                    c * p + p <= pages,
                    self.wf(),
                    self.cores() == cores,
                    self.base() == begin,
                    self.frames() == pages,
                    self.allocated_count() == pages - c * p - k,
                    forall|g: int|
                        0 <= g < pages ==> #[trigger] self.allocated(g) == (g >= c * p && !(c * p
                            + p - k <= g < c * p + p)),
                    forall|d: int| 0 <= d < c ==> #[trigger] self.chain(d) == dealt(d, p as int),
                    forall|d: int| c < d < cores ==> (#[trigger] self.chain(d)).len() == 0,
                    self.chain(c as int) == dealt(c as int, p as int).take(k as int),
                decreases p - k,
            {
                let f = c * p + (p - 1 - k);
                let ghost before = *self;
                self.push(c, f);
                proof {
                    assert(self.chain(c as int) =~= dealt(c as int, p as int).take(k + 1));
                    assert forall|g: int| 0 <= g < pages implies #[trigger] self.allocated(g) == (g
                        >= c * p && !(c * p + p - (k + 1) <= g < c * p + p)) by {
                        if g != f {
                            assert(self.allocated(g) == before.allocated(g));
                        }
                    }
                    assert forall|d: int| 0 <= d < c implies #[trigger] self.chain(d) == dealt(
                        d,
                        p as int,
                    ) by {
                        assert(self.chain(d) == before.chain(d));
                    }
                    assert forall|d: int| c < d < cores implies (#[trigger] self.chain(d)).len()
                        == 0 by {
                        assert(self.chain(d) == before.chain(d));
                    }
                }
                k += 1;
            }
            proof {
                assert(dealt(c as int, p as int).take(p as int) =~= dealt(c as int, p as int));
                assert((c + 1) * p == c * p + p) by (nonlinear_arith);
            }
            c += 1;
        }
        proof {
            assert(cores * p == p * cores) by (nonlinear_arith);
        }
        Ok(())
    }

    /// Allocates a single frame for `core`, and gives its address.
    ///
    /// The frame is the one on top of the core's list. `Memory` says that
    /// the list is empty, or that another size was asked for; nothing
    /// changes then.
    pub fn get(&mut self, core: usize, size: Size) -> (res: Result<u64, Error>)
        requires
            old(self).wf(),
            core < old(self).cores(),
        ensures
            final(self).wf(),
            final(self).same_range(old(self)),
            res is Err <==> size != Size::L0 || old(self).chain(core as int).len() == 0,
            res is Err ==> res == Err::<u64, Error>(Error::Memory) && *final(self) == *old(self),
            res is Ok ==> {
                let f = old(self).chain(core as int).last() as int;
                &&& res.unwrap() == old(self).base() + f * PAGE_SIZE
                &&& 0 <= f < old(self).frames()
                &&& !old(self).allocated(f)
                &&& final(self).allocated(f)
                &&& final(self).allocated_but(old(self), f)
                &&& final(self).allocated_count() == old(self).allocated_count() + 1
                &&& final(self).chain(core as int) == old(self).chain(core as int).drop_last()
                &&& final(self).chains_but(old(self), core as int)
            },
    {
        match size {
            Size::L0 => {},
            _ => {
                return Err(Error::Memory);
            },
        }
        match self.pop(core) {
            Some(f) => {
                assert(f * PAGE_SIZE <= self.pages * PAGE_SIZE) by (nonlinear_arith)
                    requires
                        f <= self.pages,
                        PAGE_SIZE == 4096,
                ;
                Ok(self.begin + (f as u64) * (PAGE_SIZE as u64))
            },
            None => Err(Error::Memory),
        }
    }

    /// Frees the frame at address `addr` and puts it on top of the list of `core`.
    ///
    /// `Address` says that `addr` is not the address of a managed frame, or
    /// that the frame is not allocated; nothing changes then.
    pub fn put(&mut self, core: usize, addr: u64) -> (res: Result<(), Error>)
        requires
            old(self).wf(),
            core < old(self).cores(),
        ensures
            final(self).wf(),
            final(self).same_range(old(self)),
            res is Ok <==> old(self).page_of(addr) is Some && old(self).allocated(
                old(self).page_of(addr).unwrap(),
            ),
            res is Err ==> res == Err::<(), Error>(Error::Address) && *final(self) == *old(self),
            res is Ok ==> {
                let f = old(self).page_of(addr).unwrap();
                &&& !final(self).allocated(f)
                &&& final(self).allocated_but(old(self), f)
                &&& final(self).allocated_count() == old(self).allocated_count() - 1
                &&& final(self).chain(core as int) == old(self).chain(core as int).push(f as usize)
                &&& final(self).chains_but(old(self), core as int)
            },
    {
        if addr < self.begin || (addr - self.begin) % (PAGE_SIZE as u64) != 0 {
            return Err(Error::Address);
        }
        let offset = (addr - self.begin) / (PAGE_SIZE as u64);
        if offset >= self.pages as u64 {
            return Err(Error::Address);
        }
        let f = offset as usize;
        if !self.taken[f] {
            return Err(Error::Address);
        }
        self.push(core, f);
        Ok(())
    }

    /// Number of allocated frames: what the cores have taken from their
    /// lists beyond what they have put there.
    pub fn allocated_pages(&self) -> (n: usize)
        requires
            self.wf(),
        ensures
            n == self.allocated_count(),
    {
        let mut sum: i64 = 0;
        let mut c: usize = 0;
        proof {
            lemma_count_true_bound(self.taken@);
            self.lemma_nonneg(0);
        }
        while c < self.local.len()
            invariant
                c <= self.local.len(),
                self.wf(),
                sum == c * self.per_core - sum_len(self.chains@, c as int),
                0 <= sum_len(self.chains@, c as int) <= self.pages,
                c * self.per_core <= self.pages,
            decreases self.local.len() - c,
        {
            proof {
                assert(self.chain_inv(c as int));
                lemma_count_true_bound(self.taken@);
                self.lemma_nonneg(c + 1);
                self.lemma_upto(c + 1);
                self.lemma_upto(c as int);
                assert((c + 1) * self.per_core == c * self.per_core + self.per_core)
                    by (nonlinear_arith);
                assert((c + 1) * self.per_core <= self.local.len() * self.per_core)
                    by (nonlinear_arith)
                    requires
                        c + 1 <= self.local.len(),
                ;
                assert(self.local.len() * self.per_core == self.per_core * self.local.len())
                    by (nonlinear_arith);
            }
            sum = sum + self.local[c].taken();
            c += 1;
        }
        proof {
            lemma_count_true_bound(self.taken@);
            assert(self.local.len() * self.per_core == self.per_core * self.local.len())
                by (nonlinear_arith);
        }
        sum as usize
    }

    /// The first `k` lists hold no more frames than all of them.
    proof fn lemma_upto(&self, k: int)
        requires
            0 <= k <= self.chains@.len(),
        ensures
            sum_len(self.chains@, k) <= sum_len(self.chains@, self.chains@.len() as int),
        decreases self.chains@.len() - k,
    {
        if k < self.chains@.len() {
            self.lemma_upto(k + 1);
        }
    }
}

} // verus!
