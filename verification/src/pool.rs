//! Pool lifecycle: the region header, formatting, opening and closing.
//!
//! A pool region starts with a header that binds the file to this index
//! layout through a magic number, carries a generation counter bumped on
//! every open, and records the optional root object.  Opening validates the
//! magic number and runs recovery; the free-list index is then exactly the
//! pre-crash committed state.  File mapping itself is outside this library:
//! callers hand in the decoded header words and take them back.

use vstd::prelude::*;

use crate::buddy::{AllocView, BuddyAlg, EOL, init_view};
use crate::drain::{drops_ok, drop_sum, recover_spec};

verus! {

/// The magic number a formatted pool carries: a stable schema identifier in
/// place of the original's hash of the header type's name.
pub const POOL_MAGIC: u64 = 0xb0dd_a110_c001_0001;

/// The header flag bit recording that a root object exists.
pub const FLAG_HAS_ROOT: u64 = 1;

/// The error kinds the pool lifecycle surfaces.  All of them predate the
/// commit point, so the region is never touched when one is returned.
#[derive(Clone, Copy, PartialEq, Eq, Structural, Debug)]
pub enum PoolError {
    /// The magic number does not match or the file is too small.
    InvalidPool,
    /// The pool is already open.
    DoubleOpen,
    /// The pool was already closed.
    AlreadyClosed,
    /// No free block can serve the request.
    NoSpace,
}

/// The durable pool header at the start of the region.
#[derive(Clone, Copy, PartialEq, Eq, Structural)]
pub struct PoolHeader {
    /// Layout identifier, written last when formatting.
    pub magic_number: u64,
    /// Header flags; bit 0 records a root object.
    pub flags: u64,
    /// Generation counter, incremented on each open.
    pub gen: u32,
    /// Offset of the root object; the sentinel when absent.
    pub root_obj: u64,
    /// Identifier of the declared root type.
    pub root_type_id: u64,
    /// Head of the user-journal list; the sentinel when empty.
    pub logs: u64,
    /// The region size fixed at format time.
    pub size: usize,
}

impl PoolHeader {
    /// The header a fresh format writes.
    pub open spec fn formatted(size: usize) -> PoolHeader {
        PoolHeader {
            magic_number: POOL_MAGIC,
            flags: 0,
            gen: 1,
            root_obj: EOL,
            root_type_id: 0,
            logs: EOL,
            size,
        }
    }

    /// Whether a root object was recorded.
    pub fn has_root(&self) -> (r: bool)
        ensures
            r == (self.flags & FLAG_HAS_ROOT == FLAG_HAS_ROOT),
    {
        self.flags & FLAG_HAS_ROOT == FLAG_HAS_ROOT
    }
}

/// A pool: the durable header and buddy index, plus the volatile open flag
/// and the largest generation this process has seen.
pub struct Pool {
    /// The durable header.
    pub hdr: PoolHeader,
    /// The buddy index managing the arena.
    pub alg: BuddyAlg,
    /// Whether the pool is open in this process.
    pub is_open: bool,
    /// The largest generation seen, so reopened generations keep growing.
    pub max_gen: u32,
}

impl Pool {
    /// A pool is sound when its index is.
    pub open spec fn wf(&self) -> bool {
        self.alg.wf()
    }

    /// Formats a region of (at most) `size` bytes: writes the fresh header
    /// and hands the whole arena to the index as one free block.  The pool
    /// comes back closed; opening it runs recovery.
    pub fn format(size: usize) -> (r: Pool)
        requires
            8 <= size,
            (size as nat) < 0x8000_0000_0000_0000,
        ensures
            r.wf(),
            r.hdr == PoolHeader::formatted(size),
            r.alg@ == init_view(size as nat),
            !r.is_open,
            r.max_gen == 0,
    {
        Pool { hdr: PoolHeader::formatted_now(size), alg: BuddyAlg::new(size), is_open: false, max_gen: 0 }
    }

    /// Opens the pool: validates the magic number, bumps the generation
    /// past everything seen, and runs recovery, which finishes a committed
    /// drain and discards an uncommitted one.  Fails without touching
    /// anything when the pool is already open or the header is foreign.
    pub fn open(&mut self) -> (r: Result<u32, PoolError>)
        requires
            old(self).wf(),
            old(self).hdr.gen < u32::MAX,
            old(self).max_gen < u32::MAX,
            drops_ok(
                if old(self).alg@.aux_valid {
                    old(self).alg@.available_log
                } else {
                    old(self).alg@.available
                },
                old(self).alg@.size,
                old(self).alg@.drop_log,
            ),
        ensures
            final(self).wf(),
            old(self).is_open ==> r == Err::<u32, PoolError>(PoolError::DoubleOpen) && *final(self)
                == *old(self),
            !old(self).is_open && old(self).hdr.magic_number != POOL_MAGIC ==> r == Err::<
                u32,
                PoolError,
            >(PoolError::InvalidPool) && *final(self) == *old(self),
            !old(self).is_open && old(self).hdr.magic_number == POOL_MAGIC ==> {
                &&& r == Ok::<u32, PoolError>(final(self).hdr.gen)
                &&& final(self).is_open
                &&& final(self).hdr.gen == (if old(self).max_gen > old(self).hdr.gen {
                    old(self).max_gen
                } else {
                    old(self).hdr.gen
                }) + 1
                &&& final(self).max_gen == final(self).hdr.gen
                &&& final(self).hdr == (PoolHeader { gen: final(self).hdr.gen, ..old(self).hdr })
                &&& old(self).alg@.drop_log.len() == 0 ==> final(self).alg@ == recover_spec(
                    old(self).alg@,
                )
                &&& final(self).alg@.aux.len() == 0
                &&& final(self).alg@.log64.len() == 0
                &&& final(self).alg@.drop_log.len() == 0
                &&& !final(self).alg@.aux_valid
                &&& final(self).alg@.size == old(self).alg@.size
                &&& final(self).alg@.last_idx == old(self).alg@.last_idx
                &&& final(self).alg@.available == (if old(self).alg@.aux_valid {
                    old(self).alg@.available_log
                } else {
                    old(self).alg@.available
                }) + drop_sum(old(self).alg@.drop_log)
            },
    {
        if self.is_open {
            return Err(PoolError::DoubleOpen);
        }
        if self.hdr.magic_number != POOL_MAGIC {
            return Err(PoolError::InvalidPool);
        }
        let g = if self.max_gen > self.hdr.gen {
            self.max_gen
        } else {
            self.hdr.gen
        };
        self.hdr.gen = g + 1;
        self.max_gen = g + 1;
        self.alg.recover();
        self.is_open = true;
        Ok(self.hdr.gen)
    }

    /// Closes the pool, releasing the open flag.  The durable header and
    /// index are left exactly as they are.
    pub fn close(&mut self) -> (r: Result<(), PoolError>)
        requires
            old(self).wf(),
        ensures
            final(self).wf(),
            !old(self).is_open ==> r == Err::<(), PoolError>(PoolError::AlreadyClosed)
                && *final(self) == *old(self),
            old(self).is_open ==> r == Ok::<(), PoolError>(()) && !final(self).is_open
                && final(self).hdr == old(self).hdr && final(self).alg == old(self).alg
                && final(self).max_gen == old(self).max_gen,
    {
        if !self.is_open {
            return Err(PoolError::AlreadyClosed);
        }
        self.is_open = false;
        Ok(())
    }
}

impl PoolHeader {
    /// The header a fresh format writes, as a value.
    fn formatted_now(size: usize) -> (r: PoolHeader)
        ensures
            r == PoolHeader::formatted(size),
    {
        PoolHeader {
            magic_number: POOL_MAGIC,
            flags: 0,
            gen: 1,
            root_obj: EOL,
            root_type_id: 0,
            logs: EOL,
            size,
        }
    }
}

/// Recovery is the identity on an index with nothing staged and nothing to
/// drop — in particular on a freshly formatted one.  With the open contract
/// this gives the round trip: format, open, close and open again leave the
/// index exactly as formatted, and only the generation counter moves.
pub proof fn lemma_recover_identity_when_clean(v: AllocView)
    requires
        !v.aux_valid,
        v.aux.len() == 0,
        v.log64.len() == 0,
    ensures
        recover_spec(v) == v,
{
    assert(v.aux =~= Seq::<(u64, u64)>::empty());
    assert(v.log64 =~= Seq::<(u64, u64)>::empty());
}

/// The format-open-close-open round trip on the index: each open runs
/// recovery, and recovery twice over a fresh index returns it unchanged.
pub proof fn lemma_format_open_close_open(size: usize)
    requires
        8 <= size,
        (size as nat) < 0x8000_0000_0000_0000,
    ensures
        recover_spec(recover_spec(init_view(size as nat))) == init_view(size as nat),
{
    lemma_recover_identity_when_clean(init_view(size as nat));
    lemma_recover_identity_when_clean(recover_spec(init_view(size as nat)));
}

} // verus!
