//! Small building blocks: alignment, a word that holds a packed value, and a bounded stack.
use vstd::prelude::*;
use crate::atomic::AtomicValue;

verus! {

/// One frame of memory.
pub struct Page {
    data: [u8; 4096],
}

impl Page {
    /// Bits of an offset into a frame.
    pub const SIZE_BITS: usize = 12;

    /// Bytes of a frame.
    pub const SIZE: usize = 4096;

    /// The bytes of the frame.
    pub closed spec fn view(&self) -> Seq<u8> {
        self.data@
    }

    /// A frame of zeroes.
    pub fn new() -> (p: Page)
        ensures
            p@.len() == Self::SIZE,
            forall|i: int| 0 <= i < Self::SIZE ==> p@[i] == 0,
    {
        Page { data: [0u8; 4096] }
    }
}

/// `align` is a power of two.
pub open spec fn is_pow2(align: usize) -> bool {
    align > 0 && align & ((align - 1) as usize) == 0
}

proof fn lemma_align(v: usize, align: usize)
    by (bit_vector)
    requires
        align > 0,
        align & ((align - 1) as usize) == 0,
    ensures
        v & !((align - 1) as usize) <= v,
        v - (v & !((align - 1) as usize)) < align,
        (v & !((align - 1) as usize)) & ((align - 1) as usize) == 0,
{
}

/// Rounds `v` down to a multiple of `align`, which is a power of two.
///
/// The result is `v` with the bits below `align` cleared: at most `v`, less
/// than `align` below it, and itself without bits below `align`.
pub fn align_down(v: usize, align: usize) -> (r: usize)
    requires
        align > 0,
    ensures
        r == v & !((align - 1) as usize),
        is_pow2(align) ==> r <= v && v - r < align && r & ((align - 1) as usize) == 0,
{
    proof {
        if is_pow2(align) {
            lemma_align(v, align);
        }
    }
    v & !(align - 1)
}

/// Rounds `v` up to a multiple of `align`, which is a power of two.
///
/// The result is `v + align - 1` with the bits below `align` cleared: at
/// least `v`, less than `align` above it, and itself without bits below
/// `align`.
pub fn align_up(v: usize, align: usize) -> (r: usize)
    requires
        align > 0,
        v + align - 1 <= usize::MAX,
    ensures
        r == ((v + align - 1) as usize) & !((align - 1) as usize),
        is_pow2(align) ==> r >= v && r - v < align && r & ((align - 1) as usize) == 0,
{
    let t = v + (align - 1);
    proof {
        if is_pow2(align) {
            lemma_align(t, align);
        }
    }
    t & !(align - 1)
}

/// A word that holds one packed value.
///
/// The holder of the word is the only one who changes it: a comparison that
/// fails therefore tells that the expected value was wrong, not that
/// somebody else was faster.
pub struct Atomic<T: AtomicValue> {
    word: u64,
    marker: core::marker::PhantomData<T>,
}

impl<T: AtomicValue> Atomic<T> {
    /// The value that the word holds.
    pub closed spec fn view(&self) -> T {
        T::of_bits(self.word)
    }

    /// A word that holds `v`.
    pub fn new(v: T) -> (a: Self)
        requires
            v.valid(),
        ensures
            a@ == v,
    {
        proof {
            v.lemma_bits(0);
        }
        Atomic { word: v.into_bits(), marker: core::marker::PhantomData }
    }

    /// Reads the value.
    pub fn load(&self) -> (v: T)
        ensures
            v == self@,
            v.valid(),
    {
        T::from_bits(self.word)
    }

    /// Writes the value.
    pub fn store(&mut self, v: T)
        requires
            v.valid(),
        ensures
            final(self)@ == v,
    {
        proof {
            v.lemma_bits(0);
        }
        self.word = v.into_bits();
    }

    /// Writes the value and gives the one that was there.
    pub fn swap(&mut self, v: T) -> (prev: T)
        requires
            v.valid(),
        ensures
            prev == old(self)@,
            prev.valid(),
            final(self)@ == v,
    {
        let prev = self.load();
        self.store(v);
        prev
    }

    /// Writes `new` if the word holds `current`.
    ///
    /// Gives the value that was there: as `Ok` if it was `current` and the
    /// word was written, as `Err` if not.
    pub fn compare_exchange(&mut self, current: T, new: T) -> (r: Result<T, T>)
        requires
            current.valid(),
            new.valid(),
        ensures
            old(self)@ == current ==> r == Ok::<T, T>(current) && final(self)@ == new,
            old(self)@ != current ==> r == Err::<T, T>(old(self)@) && final(self)@ == old(self)@,
    {
        let prev = self.load();
        proof {
            prev.lemma_bits(0);
            current.lemma_bits(0);
        }
        if prev.into_bits() == current.into_bits() {
            self.store(new);
            Ok(prev)
        } else {
            Err(prev)
        }
    }

    /// Writes what `f` makes of the value, unless `f` rejects it.
    ///
    /// Gives the value that was there: as `Ok` if `f` gave a new one, as
    /// `Err` if `f` rejected.
    pub fn fetch_update<F: Fn(T) -> Option<T>>(&mut self, f: F) -> (r: Result<T, T>)
        requires
            forall|v: T| v.valid() ==> f.requires((v,)),
            forall|v: T, n: T| v.valid() && f.ensures((v,), Some(n)) ==> n.valid(),
        ensures
            match r {
                Ok(prev) => prev == old(self)@ && f.ensures((prev,), Some(final(self)@)),
                Err(prev) => prev == old(self)@ && f.ensures((prev,), None) && final(self)@
                    == old(self)@,
            },
    {
        let prev = self.load();
        match f(prev) {
            Some(next) => {
                self.store(next);
                Ok(prev)
            },
            None => Err(prev),
        }
    }
}

/// A stack of words with a fixed capacity.
pub struct AtomicStack {
    data: Vec<u64>,
    i: usize,
}

impl AtomicStack {
    /// The top lies within the capacity.
    pub closed spec fn wf(&self) -> bool {
        self.i <= self.data.len()
    }

    /// The words on the stack, the oldest first.
    pub closed spec fn view(&self) -> Seq<u64> {
        self.data@.subrange(0, self.i as int)
    }

    /// How many words the stack can hold.
    pub closed spec fn capacity(&self) -> nat {
        self.data.len() as nat
    }

    /// An empty stack that can hold `capacity` words.
    pub fn new(capacity: usize) -> (s: Self)
        ensures
            s.wf(),
            s@ == Seq::<u64>::empty(),
            s.capacity() == capacity,
    {
        let mut data: Vec<u64> = Vec::new();
        let mut n: usize = 0;
        while n < capacity
            invariant
                n <= capacity,
                data.len() == n,
            decreases capacity - n,
        {
            data.push(0);
            n += 1;
        }
        let s = AtomicStack { data, i: 0 };
        assert(s@ =~= Seq::<u64>::empty());
        s
    }

    /// Puts `v` on top, unless the stack is full.
    pub fn push(&mut self, v: u64) -> (r: Result<(), ()>)
        requires
            old(self).wf(),
        ensures
            final(self).wf(),
            final(self).capacity() == old(self).capacity(),
            old(self)@.len() <= old(self).capacity(),
            old(self)@.len() < old(self).capacity() ==> r is Ok && final(self)@ == old(self)@.push(v),
            old(self)@.len() == old(self).capacity() ==> r is Err && final(self)@ == old(self)@,
    {
        if self.i < self.data.len() {
            self.data.set(self.i, v);
            self.i = self.i + 1;
            assert(self@ =~= old(self)@.push(v));
            Ok(())
        } else {
            Err(())
        }
    }

    /// Takes the top word, unless the stack is empty.
    pub fn pop(&mut self) -> (r: Result<u64, ()>)
        requires
            old(self).wf(),
        ensures
            final(self).wf(),
            final(self).capacity() == old(self).capacity(),
            old(self)@.len() > 0 ==> r == Ok::<u64, ()>(old(self)@.last()) && final(self)@
                == old(self)@.drop_last(),
            old(self)@.len() == 0 ==> r is Err && final(self)@ == old(self)@,
    {
        if self.i == 0 {
            return Err(());
        }
        let val = self.data[self.i - 1];
        self.i = self.i - 1;
        assert(self@ =~= old(self)@.drop_last());
        Ok(val)
    }
}

} // verus!
