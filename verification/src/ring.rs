//! Bounded FIFO log.
//!
//! A fixed-capacity first-in-first-out buffer of entries, used by the buddy
//! index in three roles: the auxiliary change buffer, the 64-bit word log and
//! the drop-on-failure log.  A push onto a full ring fails and leaves the
//! ring unchanged.  Entries are replayed in push order; the drop-on-failure
//! replay removes one entry at a time from the front so that partial progress
//! is idempotent.

use vstd::prelude::*;

verus! {

/// A bounded FIFO buffer with a fixed capacity chosen at construction.
pub struct Ring<T> {
    items: Vec<T>,
    cap: usize,
}

impl<T> Ring<T> {
    /// The entries currently held, oldest first.
    pub closed spec fn view(&self) -> Seq<T> {
        self.items@
    }

    /// The fixed capacity this ring was made with.
    pub closed spec fn capacity(&self) -> usize {
        self.cap
    }

    /// A ring never holds more entries than its capacity.
    pub open spec fn wf(&self) -> bool {
        self@.len() <= self.capacity()
    }

    /// An empty ring of capacity `cap`.
    pub fn new(cap: usize) -> (r: Self)
        ensures
            r@ == Seq::<T>::empty(),
            r.capacity() == cap,
            r.wf(),
    {
        Ring { items: Vec::new(), cap }
    }

    /// Appends `x` at the tail; fails (and changes nothing) when full.
    pub fn push(&mut self, x: T) -> (ok: bool)
        requires
            old(self).wf(),
        ensures
            final(self).wf(),
            final(self).capacity() == old(self).capacity(),
            ok == (old(self)@.len() < old(self).capacity()),
            ok ==> final(self)@ == old(self)@.push(x),
            !ok ==> final(self)@ == old(self)@,
    {
        if self.items.len() < self.cap {
            self.items.push(x);
            true
        } else {
            false
        }
    }

    /// Discards every entry.
    pub fn clear(&mut self)
        ensures
            final(self)@ == Seq::<T>::empty(),
            final(self).capacity() == old(self).capacity(),
            final(self).wf(),
    {
        self.items.clear();
    }

    /// The number of entries held.
    pub fn len(&self) -> (n: usize)
        ensures
            n == self@.len(),
    {
        self.items.len()
    }

    /// Whether no entry is held.
    pub fn empty(&self) -> (e: bool)
        ensures
            e == (self@.len() == 0),
    {
        self.items.len() == 0
    }

    /// The entry at position `i` from the front.
    pub fn get(&self, i: usize) -> (x: &T)
        requires
            i < self@.len(),
        ensures
            *x == self@[i as int],
    {
        &self.items[i]
    }

    /// A ring of capacity `cap` holding `items`, oldest first; fails when
    /// they do not fit.
    pub fn from_vec(cap: usize, items: Vec<T>) -> (r: Option<Ring<T>>)
        ensures
            (r is Some) <==> items@.len() <= cap,
            (r matches Some(g) ==> g@ == items@ && g.capacity() == cap && g.wf()),
    {
        if items.len() <= cap {
            Some(Ring { items, cap })
        } else {
            None
        }
    }

    /// The entries held, oldest first, as a fresh vector.
    pub fn to_vec(&self) -> (r: Vec<T>) where T: Copy
        requires
            self.wf(),
        ensures
            r@ == self@,
    {
        let mut out: Vec<T> = Vec::new();
        let n = self.items.len();
        let mut i: usize = 0;
        while i < n
            invariant
                n == self@.len(),
                i <= n,
                out@ == self@.take(i as int),
            decreases n - i,
        {
            let x = *self.get(i);
            proof {
                assert(self@.take(i + 1) =~= self@.take(i as int).push(self@[i as int]));
            }
            out.push(x);
            i = i + 1;
        }
        proof {
            assert(self@.take(n as int) =~= self@);
        }
        out
    }

    /// Removes and returns the oldest entry, if any.
    pub fn pop_front(&mut self) -> (x: Option<T>)
        requires
            old(self).wf(),
        ensures
            final(self).wf(),
            final(self).capacity() == old(self).capacity(),
            old(self)@.len() == 0 ==> x is None && final(self)@ == old(self)@,
            old(self)@.len() > 0 ==> x == Some(old(self)@[0]) && final(self)@ == old(self)@.drop_first(),
    {
        if self.items.len() == 0 {
            None
        } else {
            let x = self.items.remove(0);
            proof {
                assert(self@ =~= old(self)@.drop_first());
            }
            Some(x)
        }
    }
}

} // verus!
