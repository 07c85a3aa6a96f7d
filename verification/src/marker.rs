//! Marker traits for persistence and transaction safety.
//!
//! These traits classify types for the layers above the allocator: what may
//! live in the persistent region, what may cross a transaction boundary in
//! either direction, and what belongs in volatile cells.  The original
//! design derives them automatically for composite types; here each type of
//! interest opts in explicitly.

use vstd::prelude::*;

verus! {

/// Marks a type free of pointers to the volatile heap and safe to persist.
pub trait PSafe {}

/// Marks a type safe to leave a transaction: no cross-pool referencing.
pub trait TxOutSafe {}

/// Marks a type safe to move into a transaction.
pub trait TxInSafe {}

/// A type that may be asserted transaction-safe by [`AssertTxInSafe`] even
/// though it is not [`TxInSafe`] on its own.
pub trait LooseTxInUnsafe {}

/// Marks a type safe to store in volatile memory cells.
pub trait VSafe {}

impl PSafe for bool {}

impl PSafe for u8 {}

impl PSafe for u32 {}

impl PSafe for u64 {}

impl PSafe for usize {}

impl TxOutSafe for bool {}

impl TxOutSafe for u8 {}

impl TxOutSafe for u32 {}

impl TxOutSafe for u64 {}

impl TxOutSafe for usize {}

impl TxOutSafe for String {}

impl TxInSafe for bool {}

impl TxInSafe for u8 {}

impl TxInSafe for u32 {}

impl TxInSafe for u64 {}

impl TxInSafe for usize {}

impl LooseTxInUnsafe for bool {}

impl LooseTxInUnsafe for u8 {}

impl LooseTxInUnsafe for u32 {}

impl LooseTxInUnsafe for u64 {}

impl LooseTxInUnsafe for usize {}

impl VSafe for bool {}

impl VSafe for u8 {}

impl VSafe for u32 {}

impl VSafe for u64 {}

impl VSafe for usize {}

/// A lightweight wrapper asserting, on the programmer's responsibility,
/// that the wrapped value is safe to move into a transaction.
pub struct AssertTxInSafe<T: LooseTxInUnsafe>(pub T);

impl<T: LooseTxInUnsafe> TxInSafe for AssertTxInSafe<T> {}

impl<T: LooseTxInUnsafe> AssertTxInSafe<T> {
    /// Borrows the wrapped value.
    pub fn deref(&self) -> (r: &T)
        ensures
            *r == self.0,
    {
        &self.0
    }

    /// Mutably borrows the wrapped value.
    pub fn deref_mut(&mut self) -> (r: &mut T)
        ensures
            *r == old(self).0,
            final(self).0 == *final(r),
    {
        &mut self.0
    }
}

} // verus!
