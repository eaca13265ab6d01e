//! Index arithmetic of the three table levels.
//!
//! A table of level `l` has [`PT_LEN`] entries, each of which covers
//! `span(l - 1)` frames. Nothing is stored here: every position follows from
//! a frame number alone.
use vstd::prelude::*;
use crate::atomic::AtomicValue;

verus! {

/// Bits of an index into one table.
pub const PT_LEN_BITS: usize = 9;

/// Entries of one table.
pub const PT_LEN: usize = 512;

/// Number of table levels.
pub const LAYERS: usize = 3;

/// Frames covered by one table of the given level.
pub open spec fn span_spec(level: nat) -> nat
    decreases level,
{
    if level == 0 {
        1
    } else {
        512 * span_spec((level - 1) as nat)
    }
}

/// The spans of the levels in use.
pub proof fn lemma_spans()
    ensures
        span_spec(0) == 1,
        span_spec(1) == 512,
        span_spec(2) == 262144,
        span_spec(3) == 134217728,
{
    reveal_with_fuel(span_spec, 4);
}

/// Frames covered by one table of the given level.
pub fn span(level: usize) -> (n: usize)
    requires
        level <= LAYERS,
    ensures
        n == span_spec(level as nat),
        n > 0,
{
    proof {
        lemma_spans();
    }
    if level == 0 {
        1
    } else if level == 1 {
        512
    } else if level == 2 {
        262144
    } else {
        134217728
    }
}

/// First frame of the table of the given level that holds `page`.
pub open spec fn round_spec(level: nat, page: nat) -> nat {
    (page - page % span_spec(level)) as nat
}

/// First frame of the table of the given level that holds `page`.
pub fn round(level: usize, page: usize) -> (r: usize)
    requires
        level <= LAYERS,
    ensures
        r == round_spec(level as nat, page as nat),
        r <= page,
        (r as nat) % span_spec(level as nat) == 0,
        page - r < span_spec(level as nat),
{
    let s = span(level);
    proof {
        vstd::arithmetic::div_mod::lemma_fundamental_div_mod(page as int, s as int);
        vstd::arithmetic::div_mod::lemma_mod_multiples_basic((page / s) as int, s as int);
        assert(page - page % s == s * (page / s));
        vstd::arithmetic::mul::lemma_mul_is_commutative(s as int, (page / s) as int);
    }
    page - page % s
}

/// Index of `page` within its table of the given level.
pub open spec fn idx_spec(level: nat, page: nat) -> nat
    recommends
        level >= 1,
{
    (page / span_spec((level - 1) as nat)) % 512
}

/// Index of `page` within its table of the given level.
pub fn idx(level: usize, page: usize) -> (i: usize)
    requires
        1 <= level <= LAYERS,
    ensures
        i == idx_spec(level as nat, page as nat),
        i < PT_LEN,
{
    (page / span(level - 1)) % PT_LEN
}

/// First frame below entry `i` of the table of the given level that holds `start`.
pub open spec fn page_spec(level: nat, start: nat, i: nat) -> nat
    recommends
        level >= 1,
{
    round_spec(level, start) + i * span_spec((level - 1) as nat)
}

/// First frame below entry `i` of the table of the given level that holds `start`.
pub fn page(level: usize, start: usize, i: usize) -> (p: usize)
    requires
        1 <= level <= 2,
        i < PT_LEN,
        start <= crate::MAX_PAGES,
    ensures
        p == page_spec(level as nat, start as nat, i as nat),
{
    proof {
        lemma_spans();
        assert(i * span_spec((level - 1) as nat) <= 512 * 512) by (nonlinear_arith)
            requires
                i < 512,
                span_spec((level - 1) as nat) <= 512,
        ;
    }
    round(level, start) + i * span(level - 1)
}

/// Number of tables of the given level that `pages` frames need.
pub open spec fn num_pts_spec(level: nat, pages: nat) -> nat {
    (pages + span_spec(level) - 1) as nat / span_spec(level)
}

/// Number of tables of the given level that `pages` frames need.
pub fn num_pts(level: usize, pages: usize) -> (n: usize)
    requires
        level <= LAYERS,
        pages <= crate::MAX_PAGES,
    ensures
        n == num_pts_spec(level as nat, pages as nat),
        n * span_spec(level as nat) >= pages,
        pages > 0 ==> (n - 1) * span_spec(level as nat) < pages,
        pages == 0 ==> n == 0,
{
    proof {
        lemma_spans();
    }
    let s = span(level);
    let n = (pages + s - 1) / s;
    proof {
        let t = (pages + s - 1) as int;
        vstd::arithmetic::div_mod::lemma_fundamental_div_mod(t, s as int);
        assert(s * (t / s as int) == t - t % (s as int));
        assert(n * s == s * (t / s as int)) by (nonlinear_arith)
            requires
                n == t / s as int,
        ;
        assert((n - 1) * s == n * s - s) by (nonlinear_arith);
        if pages == 0 {
            vstd::arithmetic::div_mod::lemma_basic_div(t, s as int);
        }
    }
    n
}


/// One table: `PT_LEN` words, each holding a packed value.
pub struct Table<T: AtomicValue> {
    entries: Vec<u64>,
    marker: core::marker::PhantomData<T>,
}

impl<T: AtomicValue> Table<T> {
    /// The table has its full length.
    pub open spec fn wf(&self) -> bool {
        self@.len() == PT_LEN
    }

    /// The values that the table holds.
    pub closed spec fn view(&self) -> Seq<T> {
        Seq::new(self.entries.len() as nat, |i: int| T::of_bits(self.entries[i]))
    }

    /// A table whose words are all zero.
    pub fn empty() -> (t: Self)
        ensures
            t.wf(),
            t@.len() == PT_LEN,
            forall|i: int| 0 <= i < PT_LEN ==> t@[i] == T::of_bits(0),
    {
        let mut entries: Vec<u64> = Vec::new();
        let mut n: usize = 0;
        while n < PT_LEN
            invariant
                n <= PT_LEN,
                entries.len() == n,
                forall|i: int| 0 <= i < n ==> entries[i] == 0,
            decreases PT_LEN - n,
        {
            entries.push(0);
            n += 1;
        }
        Table { entries, marker: core::marker::PhantomData }
    }

    /// Sets every word to zero.
    pub fn clear(&mut self)
        requires
            old(self).wf(),
        ensures
            final(self).wf(),
            final(self)@.len() == PT_LEN,
            forall|i: int| 0 <= i < PT_LEN ==> final(self)@[i] == T::of_bits(0),
    {
        let mut n: usize = 0;
        while n < PT_LEN
            invariant
                n <= PT_LEN,
                self.entries.len() == PT_LEN,
                forall|i: int| 0 <= i < n ==> self.entries[i] == 0,
            decreases PT_LEN - n,
        {
            self.entries.set(n, 0);
            n += 1;
        }
    }

    /// Reads entry `i`.
    pub fn get(&self, i: usize) -> (v: T)
        requires
            self.wf(),
            i < PT_LEN,
        ensures
            v == self@[i as int],
            v.valid(),
    {
        T::from_bits(self.entries[i])
    }

    /// Writes entry `i`.
    pub fn set(&mut self, i: usize, v: T)
        requires
            old(self).wf(),
            i < PT_LEN,
            v.valid(),
        ensures
            final(self).wf(),
            final(self)@ == old(self)@.update(i as int, v),
    {
        proof {
            v.lemma_bits(0);
        }
        self.entries.set(i, v.into_bits());
        assert(self@ =~= old(self)@.update(i as int, v));
    }

    /// Writes `new` to entry `i` if it holds `expected`.
    ///
    /// Gives the value that was there: as `Ok` if it was `expected` and the
    /// entry was written, as `Err` if not.
    pub fn cas(&mut self, i: usize, expected: T, new: T) -> (r: Result<T, T>)
        requires
            old(self).wf(),
            i < PT_LEN,
            expected.valid(),
            new.valid(),
        ensures
            final(self).wf(),
            old(self)@[i as int] == expected ==> r == Ok::<T, T>(expected) && final(self)@ == old(self)@.update(i as int, new),
            old(self)@[i as int] != expected ==> r == Err::<T, T>(old(self)@[i as int]) && final(self)@ == old(self)@,
    {
        let prev = self.get(i);
        proof {
            prev.lemma_bits(0);
            expected.lemma_bits(0);
        }
        if prev.into_bits() == expected.into_bits() {
            self.set(i, new);
            Ok(prev)
        } else {
            Err(prev)
        }
    }

    /// Writes to entry `i` what `f` makes of it, unless `f` rejects it.
    ///
    /// Gives the value that was there: as `Ok` if `f` gave a new one, as
    /// `Err` if `f` rejected.
    pub fn update<F: Fn(T) -> Option<T>>(&mut self, i: usize, f: F) -> (r: Result<T, T>)
        requires
            old(self).wf(),
            i < PT_LEN,
            forall|v: T| v.valid() ==> f.requires((v,)),
            forall|v: T, n: T| v.valid() && f.ensures((v,), Some(n)) ==> n.valid(),
        ensures
            final(self).wf(),
            match r {
                Ok(prev) => prev == old(self)@[i as int] && f.ensures(
                    (prev,),
                    Some(final(self)@[i as int]),
                ) && final(self)@ == old(self)@.update(i as int, final(self)@[i as int]),
                Err(prev) => prev == old(self)@[i as int] && f.ensures((prev,), None) && final(self)@ == old(self)@,
            },
    {
        let prev = self.get(i);
        match f(prev) {
            Some(next) => {
                self.set(i, next);
                Ok(prev)
            },
            None => Err(prev),
        }
    }
}

} // verus!
