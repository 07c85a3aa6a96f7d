//! The buddy index: free-list forest, staging logs and accounting.
//!
//! The durable words of the managed region are modelled by `mem`: the first
//! `size / 8` words are the arena (word `i` stands for the 8 bytes at offset
//! `8 * i`), and the 64 words after the arena are the free-list heads, so the
//! head of the order-`k` list lives at byte offset `size + 8 * k`.  A free
//! block of order `k` keeps the offset of the next free block of that order
//! in its first 8 bytes; the sentinel `u64::MAX` marks the end of a list.
//!
//! Mutating operations never write the index in place: they stage absolute
//! word writes `(offset, value)` in the auxiliary ring and commit them through
//! the drain protocol (see the crate's `drain` module).

use vstd::prelude::*;
use vstd::arithmetic::power2::{
    pow2, lemma_pow2_strictly_increases, lemma_pow2_adds, lemma2_to64, lemma2_to64_rest,
};
use vstd::bits::{lemma_u64_shl_is_mul, lemma_u64_pow2_no_overflow};

use crate::drain::drain_spec;
use crate::ring::Ring;

verus! {

/// End-of-list sentinel: no block can sit at the last byte of a `u64` space.
pub const EOL: u64 = u64::MAX;

/// The abstract state of the buddy index: every durable word plus the staged
/// bookkeeping that the drain protocol commits.
pub ghost struct AllocView {
    /// Durable words: `size / 8` arena words, then the 64 list heads.
    pub mem: Seq<u64>,
    /// The order of the whole arena: the largest order any list can use.
    pub last_idx: nat,
    /// Total arena bytes; always `pow2(last_idx)`.
    pub size: nat,
    /// Free bytes, as of the last committed drain.
    pub available: nat,
    /// Staged value that `available` takes when the current change set drains.
    pub available_log: nat,
    /// High-water mark of bytes in use.
    pub foot_print: nat,
    /// Staged `(offset, value)` word writes of the in-flight change set.
    pub aux: Seq<(u64, u64)>,
    /// Staged user word writes committed together with the change set.
    pub log64: Seq<(u64, u64)>,
    /// Blocks to reclaim on recovery if the surrounding operation never
    /// confirms success.
    pub drop_log: Seq<(u64, usize)>,
    /// The commit flag of the drain protocol.
    pub aux_valid: bool,
}

impl AllocView {
    /// Structural well-formedness: field ranges and the arena geometry.
    pub open spec fn wf(self) -> bool {
        &&& 3 <= self.last_idx <= 62
        &&& self.size == pow2(self.last_idx)
        &&& self.mem.len() == self.size / 8 + 64
        &&& self.available <= self.size
        &&& self.available_log <= self.size
        &&& self.aux.len() <= 128
        &&& self.log64.len() <= 8
        &&& self.drop_log.len() <= 8
    }
}

/// The head offset of the order-`k` free list within `mem`.
pub open spec fn head_of(v: AllocView, k: nat) -> u64 {
    head_at(v.mem, v.size, k)
}

/// The head of the order-`k` list read from the durable words alone.
pub open spec fn head_at(mem: Seq<u64>, size: nat, k: nat) -> u64 {
    mem[size / 8 + k as int]
}

/// The byte offset of the order-`k` list head slot.
pub open spec fn head_slot(size: nat, k: nat) -> u64 {
    (size + 8 * k) as u64
}

/// Whether some order in `[idx, last]` has a non-empty free list.
pub open spec fn has_free_at(mem: Seq<u64>, size: nat, last: nat, idx: nat) -> bool {
    exists|j: nat| idx <= j <= last && head_at(mem, size, j) != EOL
}

/// Whether some order in `[idx, last_idx]` has a non-empty free list.
pub open spec fn has_free(v: AllocView, idx: nat) -> bool {
    has_free_at(v.mem, v.size, v.last_idx, idx)
}

/// The first order at or above `idx` whose free list is non-empty.
pub open spec fn first_free_at(mem: Seq<u64>, size: nat, last: nat, idx: nat) -> nat
    decreases last + 1 - idx,
{
    if idx > last {
        idx
    } else if head_at(mem, size, idx) != EOL {
        idx
    } else {
        first_free_at(mem, size, last, idx + 1)
    }
}

/// The first order at or above `idx` whose free list is non-empty.
pub open spec fn first_free(v: AllocView, idx: nat) -> nat {
    first_free_at(v.mem, v.size, v.last_idx, idx)
}

/// The word a popped head hands to its list head: the popped block's `next`,
/// or the sentinel when the head link is corrupt.
pub open spec fn pop_next(mem: Seq<u64>, size: nat, head: u64) -> u64 {
    if head < size && head % 8 == 0 {
        mem[(head / 8) as int]
    } else {
        EOL
    }
}

/// The sorted position scan of the order lists: the last entry at or below
/// `target`, walking from `curr` with `prev` behind it; a stray link or the
/// exhausted bound end the walk where it stands.
pub open spec fn insert_pos(
    mem: Seq<u64>,
    size: nat,
    curr: u64,
    target: u64,
    prev: Option<u64>,
    fuel: nat,
) -> Option<u64>
    decreases fuel,
{
    if curr == EOL || fuel == 0 || curr >= size || curr % 8 != 0 {
        prev
    } else if curr > target {
        prev
    } else {
        insert_pos(mem, size, mem[(curr / 8) as int], target, Some(curr), (fuel - 1) as nat)
    }
}

/// The two pointer swings that insert block `b` into the order-`k` list at
/// its sorted position: `b` takes its successor, and its predecessor (or the
/// list head) takes `b`.
pub open spec fn insert_stage(mem: Seq<u64>, size: nat, k: nat, b: u64) -> Seq<(u64, u64)> {
    match insert_pos(mem, size, head_at(mem, size, k), b, None, size / 8 + 1) {
        Some(p) => seq![(b, mem[(p / 8) as int]), (p, b)],
        None => seq![(b, head_at(mem, size, k)), (head_slot(size, k), b)],
    }
}

/// The split staging at order `idx`: the upper half of the order-`idx` block
/// at `res` is an order-`idx - 1` block at `res + 2^(idx-1)` and joins that
/// list sorted; a head value outside the arena stages nothing.
pub open spec fn split_stage(mem: Seq<u64>, size: nat, idx: nat, res: u64) -> Seq<(u64, u64)> {
    if res < size {
        insert_stage(mem, size, (idx - 1) as nat, (res + pow2((idx - 1) as nat)) as u64)
    } else {
        Seq::empty()
    }
}

/// The exact change set a find of order `idx` stages: one pop swing at the
/// first occupied order, and two insertion swings for the upper half of
/// every order split on the way back down.
pub open spec fn find_stage(mem: Seq<u64>, size: nat, last: nat, idx: nat, split: bool) -> Seq<
    (u64, u64),
>
    decreases last + 1 - idx,
{
    if idx > last || !has_free_at(mem, size, last, idx) {
        Seq::empty()
    } else {
        let base = if head_at(mem, size, idx) != EOL {
            seq![(head_slot(size, idx), pop_next(mem, size, head_at(mem, size, idx)))]
        } else {
            find_stage(mem, size, last, idx + 1, true)
        };
        if split {
            base + split_stage(mem, size, idx, head_at(mem, size, first_free_at(mem, size, last, idx)))
        } else {
            base
        }
    }
}

/// The free-list scan decision for freeing the order-`idx` block at `off`,
/// walking from `curr`: an adjacent buddy to merge with (offered only when
/// the merged pair stays inside the arena and the staged counter can pay),
/// or the predecessor to insert after.
pub open spec fn free_scan_at(
    mem: Seq<u64>,
    size: nat,
    idx: nat,
    off: u64,
    avail: nat,
    curr: u64,
    prev: Option<u64>,
    fuel: nat,
) -> FreeScan
    decreases fuel,
{
    if curr == EOL || fuel == 0 || curr >= size || curr % 8 != 0 {
        FreeScan::Insert { prev }
    } else {
        let b = curr;
        let e_next = mem[(b / 8) as int];
        let on_left = (off & (pow2(idx) as u64)) == 0;
        let end = (off + pow2(idx)) as u64;
        let mergeable = (b == end && on_left && end + pow2(idx) <= size) || (b + pow2(idx) == off
            && !on_left);
        if mergeable && avail >= pow2(idx) {
            FreeScan::Merge { buddy: b, buddy_next: e_next, prev }
        } else if b > off {
            FreeScan::Insert { prev }
        } else {
            free_scan_at(mem, size, idx, off, avail, e_next, Some(b), (fuel - 1) as nat)
        }
    }
}

/// The exact change set freeing the order-`idx_of(len)` block at `off`
/// stages, with `avail` the staged counter at entry: one unlink swing per
/// merged level, then the two insertion swings of the merged block.
pub open spec fn free_stage(mem: Seq<u64>, size: nat, last: nat, idx: nat, off: u64, avail: nat) -> Seq<
    (u64, u64),
>
    decreases last - idx,
{
    let scan = if idx < last {
        free_scan_at(mem, size, idx, off, avail, head_at(mem, size, idx), None, size / 8 + 1)
    } else {
        FreeScan::Insert { prev: None }
    };
    match scan {
        FreeScan::Merge { buddy, buddy_next, prev } => {
            let unlink = match prev {
                Some(p) => (p, buddy_next),
                None => (head_slot(size, idx), buddy_next),
            };
            let merged = if off < buddy {
                off
            } else {
                buddy
            };
            seq![unlink] + free_stage(mem, size, last, idx + 1, merged, (avail - pow2(idx)) as nat)
        }
        FreeScan::Insert { prev } => {
            match prev {
                Some(p) => seq![(off, mem[(p / 8) as int]), (p, off)],
                None => seq![(off, head_at(mem, size, idx)), (head_slot(size, idx), off)],
            }
        }
    }
}

/// The order computed by scanning up from `k`: the first order at or above
/// `k` (and at least 3) whose block size covers `x` bytes, capped at 64.
pub open spec fn idx_from(k: nat, x: nat) -> nat
    decreases 64 - k,
{
    if k >= 64 {
        64
    } else if pow2(k) >= x {
        k
    } else {
        idx_from(k + 1, x)
    }
}

/// The order of a request of `x` bytes: the smallest `k` with
/// `pow2(k) >= max(x, 8)`, capped at 64.
pub open spec fn idx_of(x: nat) -> nat {
    idx_from(3, x)
}

proof fn lemma_idx_from_facts(k: nat, x: nat)
    requires
        k <= 64,
    ensures
        k <= idx_from(k, x) <= 64,
        idx_from(k, x) < 64 ==> pow2(idx_from(k, x)) >= x,
        forall|j: nat| k <= j < idx_from(k, x) ==> pow2(j) < x,
    decreases 64 - k,
{
    if k < 64 && pow2(k) < x {
        lemma_idx_from_facts(k + 1, x);
    }
}

proof fn lemma_idx_from_min(k: nat, x: nat, j: nat)
    requires
        k <= j < 64,
        pow2(j) >= x,
    ensures
        idx_from(k, x) <= j,
    decreases 64 - k,
{
    if k < j && pow2(k) < x {
        lemma_idx_from_min(k + 1, x, j);
    }
}

/// The order of a request: at least 3, minimal, and large enough.
pub proof fn lemma_idx_of_facts(x: nat)
    requires
        x <= pow2(63),
    ensures
        3 <= idx_of(x) <= 63,
        pow2(idx_of(x)) >= x,
        forall|j: nat| 3 <= j < idx_of(x) ==> pow2(j) < x,
{
    lemma_idx_from_facts(3, x);
    lemma_idx_from_min(3, x, 63);
}

/// A power of two is its own order.
pub proof fn lemma_idx_of_pow2(k: nat)
    requires
        3 <= k <= 63,
    ensures
        idx_of(pow2(k)) == k,
{
    if k < 63 {
        lemma_pow2_strictly_increases(k, 63);
    }
    lemma_idx_of_facts(pow2(k));
    lemma_idx_from_min(3, pow2(k), k);
    if idx_of(pow2(k)) < k {
        assert(pow2(idx_of(pow2(k))) < pow2(k)) by {
            lemma_pow2_strictly_increases(idx_of(pow2(k)), k);
        }
    }
}

/// The order is monotone in the request size.
pub proof fn lemma_idx_of_mono(x: nat, y: nat)
    requires
        x <= y <= pow2(63),
    ensures
        idx_of(x) <= idx_of(y),
{
    lemma_idx_of_facts(x);
    lemma_idx_of_facts(y);
    if idx_of(y) < idx_of(x) {
        assert(pow2(idx_of(y)) < x);
    }
}

/// `1u64 << k` computed with its value pinned to `pow2(k)`.
pub fn pow2_u64(k: usize) -> (r: u64)
    requires
        k < 64,
    ensures
        r == pow2(k as nat),
        r >= 1,
{
    proof {
        lemma_u64_pow2_no_overflow(k as nat);
        lemma_u64_shl_is_mul(1u64, k as u64);
    }
    1u64 << (k as u64)
}

/// The smallest order whose block size covers a request of `x` bytes;
/// `usize::MAX` for a request of 0 bytes, meaning "no allocation".
pub fn get_idx(x: usize) -> (r: usize)
    ensures
        x == 0 ==> r == usize::MAX,
        x >= 1 ==> r == idx_of(x as nat),
{
    if x == 0 {
        usize::MAX
    } else {
        let mut k: usize = 3;
        while k < 64 && pow2_u64(k) < x as u64
            invariant
                3 <= k <= 64,
                x >= 1,
                idx_of(x as nat) == idx_from(k as nat, x as nat),
                forall|j: nat| 3 <= j < k ==> pow2(j) < x as nat,
            decreases 64 - k,
        {
            k = k + 1;
            proof {
                lemma_idx_from_facts(k as nat, x as nat);
            }
        }
        k
    }
}

/// The buddy allocation algorithm over a modelled persistent region.
pub struct BuddyAlg {
    /// Durable words: arena, then the 64 free-list heads.
    mem: Vec<u64>,
    /// The index of the last buddy list.
    last_idx: usize,
    /// Total available space in bytes.
    available: usize,
    /// The region size in bytes.
    size: usize,
    /// The auxiliary ring of staged word writes.
    aux: Ring<(u64, u64)>,
    /// Low-level 64-bit user logs drained with the change set.
    log64: Ring<(u64, u64)>,
    /// Low-level drop-on-failure logs replayed by recovery.
    drop_log: Ring<(u64, usize)>,
    /// Indicates that the staged change set is committed and being drained.
    aux_valid: bool,
    /// Staged value of `available`.
    available_log: usize,
    /// The high-water mark of memory usage in bytes.
    foot_print: usize,
}

impl View for BuddyAlg {
    type V = AllocView;

    closed spec fn view(&self) -> AllocView {
        AllocView {
            mem: self.mem@,
            last_idx: self.last_idx as nat,
            size: self.size as nat,
            available: self.available as nat,
            available_log: self.available_log as nat,
            foot_print: self.foot_print as nat,
            aux: self.aux@,
            log64: self.log64@,
            drop_log: self.drop_log@,
            aux_valid: self.aux_valid,
        }
    }
}

impl BuddyAlg {
    /// Ring capacities as formatted: 128 staged writes, 8 user logs,
    /// 8 drop-on-failure entries.
    pub closed spec fn caps_ok(&self) -> bool {
        &&& self.aux.capacity() == 128
        &&& self.log64.capacity() == 8
        &&& self.drop_log.capacity() == 8
    }

    /// Well-formedness: the abstract state is sound and the rings have the
    /// formatted capacities.
    pub open spec fn wf(&self) -> bool {
        &&& self@.wf()
        &&& self.caps_ok()
    }

    /// A fresh, initialized pool region of (at most) `size` bytes.
    pub fn new(size: usize) -> (r: Self)
        requires
            8 <= size,
            (size as nat) < 0x8000_0000_0000_0000,
        ensures
            r.wf(),
            r@ == init_view(size as nat),
    {
        let mut alg = BuddyAlg {
            mem: Vec::new(),
            last_idx: 0,
            available: 0,
            size: 0,
            aux: Ring::new(128),
            log64: Ring::new(8),
            drop_log: Ring::new(8),
            aux_valid: false,
            available_log: 0,
            foot_print: 0,
        };
        alg.init(size);
        alg
    }

    /// Pool initialization with a given region size: the whole arena becomes
    /// a single free block of the largest power of two that fits, at offset
    /// 0, and every log is cleared.  The arena is zeroed but for the
    /// end-of-list sentinel written over the first word, as formatting does.
    pub fn init(&mut self, size: usize)
        requires
            8 <= size,
            (size as nat) < 0x8000_0000_0000_0000,
        ensures
            final(self).wf(),
            final(self)@ == init_view(size as nat),
    {
        let mut idx = get_idx(size);
        proof {
            lemma2_to64();
            lemma2_to64_rest();
            lemma_idx_of_facts(size as nat);
        }
        if pow2_u64(idx) > size as u64 {
            // pow2(3) == 8 <= size, so the order cannot drop below 3
            idx = idx - 1;
        } else {
            proof {
                lemma_pow2_strictly_increases(idx as nat, idx as nat + 1);
            }
        }
        proof {
            assert(3 <= idx && pow2(idx as nat) <= (size as nat) < pow2(idx as nat + 1));
            assert(idx <= 62);
        }
        let sz = pow2_u64(idx) as usize;
        proof {
            if idx > 3 {
                lemma_pow2_strictly_increases(3, idx as nat);
            }
            assert(sz >= 8);
        }
        let w = sz / 8;
        let total = w + 64;
        let mut mem: Vec<u64> = Vec::new();
        while mem.len() < total
            invariant
                forall|i: int| 0 <= i < mem@.len() ==> mem@[i] == 0u64,
                mem@.len() <= total,
            decreases total - mem@.len(),
        {
            mem.push(0u64);
        }
        // format sentinel: the single initial block ends the order-`idx` list
        mem[0] = EOL;
        let mut k: usize = 0;
        while k < 64
            invariant
                mem@.len() == w + 64,
                w + 64 <= usize::MAX,
                mem@[0] == EOL,
                k <= 64,
                forall|i: int| 1 <= i < w ==> mem@[i] == 0,
                forall|i: int| w <= i < w + k ==> mem@[i] == EOL,
                forall|i: int| w + k <= i < w + 64 ==> mem@[i] == 0,
            decreases 64 - k,
        {
            mem[w + k] = EOL;
            k = k + 1;
        }
        mem[w + idx] = 0;
        self.mem = mem;
        self.size = sz;
        self.last_idx = idx;
        self.available = sz;
        self.available_log = 0;
        self.foot_print = 0;
        self.aux = Ring::new(128);
        self.log64 = Ring::new(8);
        self.drop_log = Ring::new(8);
        self.aux_valid = false;
        proof {
            lemma2_to64_rest();
            let s = size as nat;
            let r = idx_from(3, s + 1);
            lemma_idx_of_facts(s + 1);
            let last = (r - 1) as nat;
            if last < idx as nat {
                if last + 1 < idx as nat {
                    lemma_pow2_strictly_increases(last + 1, idx as nat);
                }
                assert(pow2(r) <= pow2(idx as nat) <= s);
                assert(false);
            }
            if last > idx as nat {
                if last > idx as nat + 1 {
                    lemma_pow2_strictly_increases(idx as nat + 1, last);
                }
                assert(pow2(idx as nat + 1) <= pow2(last) < s + 1);
                assert(false);
            }
            assert(self@.mem =~= init_view(size as nat).mem);
            assert(self@ == init_view(size as nat));
        }
    }

    /// Returns the pool size.
    pub fn size(&self) -> (r: usize)
        ensures
            r == self@.size,
    {
        self.size
    }

    /// Returns the total available space in the pool.
    pub fn available(&self) -> (r: usize)
        ensures
            r == self@.available,
    {
        self.available
    }

    /// Returns the total number of bytes used from the pool, so that
    /// `used + available == size` always holds.
    pub fn used(&self) -> (r: usize)
        requires
            self.wf(),
        ensures
            r == self@.size - self@.available,
            r + self@.available == self@.size,
    {
        self.size - self.available
    }

    /// Returns the high-water mark of bytes handed out, staged included.
    pub fn footprint(&self) -> (r: usize)
        ensures
            r == self@.foot_print,
    {
        self.foot_print
    }

    /// Returns the index of the last buddy list.
    pub fn last_idx(&self) -> (r: usize)
        ensures
            r == self@.last_idx,
    {
        self.last_idx
    }

    /// Adds a new low-level 64-bit log entry; fails silently when the ring
    /// is full, as the bounded log does.
    pub fn log(&mut self, off: u64, data: u64)
        requires
            old(self).wf(),
        ensures
            final(self).wf(),
            old(self)@.log64.len() < 8 ==> final(self)@ == (AllocView {
                log64: old(self)@.log64.push((off, data)),
                ..old(self)@
            }),
            old(self)@.log64.len() >= 8 ==> final(self)@ == old(self)@,
    {
        let _ = self.log64.push((off, data));
    }

    /// Adds a new low-level drop-on-failure log entry; fails silently when
    /// the ring is full.  An entry should describe a block a committed
    /// allocation returned — length in `[1, size]`, offset aligned and in
    /// bounds — since recovery replays each entry as a deallocation and its
    /// precondition admits exactly such entries (see `drops_ok`).
    pub fn drop_on_failure(&mut self, off: u64, len: usize)
        requires
            old(self).wf(),
        ensures
            final(self).wf(),
            old(self)@.drop_log.len() < 8 ==> final(self)@ == (AllocView {
                drop_log: old(self)@.drop_log.push((off, len)),
                ..old(self)@
            }),
            old(self)@.drop_log.len() >= 8 ==> final(self)@ == old(self)@,
    {
        let _ = self.drop_log.push((off, len));
    }

    /// Adds a new entry to the auxiliary list of staged word writes; fails
    /// silently when the ring is full.
    pub fn aux_push(&mut self, off: u64, data: u64)
        requires
            old(self).wf(),
        ensures
            final(self).wf(),
            old(self)@.aux.len() < 128 ==> final(self)@ == (AllocView {
                aux: old(self)@.aux.push((off, data)),
                ..old(self)@
            }),
            old(self)@.aux.len() >= 128 ==> final(self)@ == old(self)@,
    {
        let _ = self.aux.push((off, data));
    }

    /// Discards the staged changes without touching the index.  Safe before
    /// the commit point because nothing in the index was modified.
    pub fn discard(&mut self)
        requires
            old(self).wf(),
        ensures
            final(self).wf(),
            final(self)@ == (AllocView {
                aux: Seq::<(u64, u64)>::empty(),
                log64: Seq::<(u64, u64)>::empty(),
                ..old(self)@
            }),
    {
        self.aux.clear();
        self.log64.clear();
    }

    /// The byte offset of the order-`k` list head inside the modelled region.
    pub fn head_off(&self, k: usize) -> (r: u64)
        requires
            self.wf(),
            k < 64,
        ensures
            r == head_off_spec(self@, k as nat),
            r % 8 == 0,
            r / 8 == self@.size / 8 + k,
    {
        proof {
            assert(self@.size % 8 == 0) by {
                lemma_pow2_adds((self@.last_idx - 3) as nat, 3);
                lemma2_to64();
            }
            if self@.last_idx < 62 {
                lemma_pow2_strictly_increases(self@.last_idx, 62);
            }
            lemma2_to64_rest();
        }
        self.size as u64 + 8 * (k as u64)
    }

    /// Reads the head of the order-`k` free list.
    pub fn head_get(&self, k: usize) -> (r: u64)
        requires
            self.wf(),
            k < 64,
        ensures
            r == head_of(self@, k as nat),
    {
        self.mem[self.size / 8 + k]
    }

    /// Reads the `next` word stored in the first 8 bytes of the block at
    /// offset `off`.
    pub fn word_get(&self, off: u64) -> (r: u64)
        requires
            self.wf(),
            off < self@.size,
        ensures
            r == self@.mem[(off / 8) as int],
    {
        self.mem[(off / 8) as usize]
    }

    pub(crate) fn mem_len(&self) -> (n: usize)
        ensures
            n == self@.mem.len(),
    {
        self.mem.len()
    }

    pub(crate) fn mem_set(&mut self, i: usize, val: u64)
        requires
            old(self).wf(),
            i < old(self)@.mem.len(),
        ensures
            final(self).wf(),
            final(self)@ == (AllocView { mem: old(self)@.mem.update(i as int, val), ..old(self)@ }),
    {
        self.mem[i] = val;
    }

    pub(crate) fn aux_len(&self) -> (n: usize)
        ensures
            n == self@.aux.len(),
    {
        self.aux.len()
    }

    pub(crate) fn aux_get(&self, i: usize) -> (e: (u64, u64))
        requires
            i < self@.aux.len(),
        ensures
            e == self@.aux[i as int],
    {
        *self.aux.get(i)
    }

    pub(crate) fn aux_clear(&mut self)
        requires
            old(self).wf(),
        ensures
            final(self).wf(),
            final(self)@ == (AllocView { aux: Seq::<(u64, u64)>::empty(), ..old(self)@ }),
    {
        self.aux.clear();
    }

    pub(crate) fn log64_len(&self) -> (n: usize)
        ensures
            n == self@.log64.len(),
    {
        self.log64.len()
    }

    pub(crate) fn log64_get(&self, i: usize) -> (e: (u64, u64))
        requires
            i < self@.log64.len(),
        ensures
            e == self@.log64[i as int],
    {
        *self.log64.get(i)
    }

    pub(crate) fn log64_clear(&mut self)
        requires
            old(self).wf(),
        ensures
            final(self).wf(),
            final(self)@ == (AllocView { log64: Seq::<(u64, u64)>::empty(), ..old(self)@ }),
    {
        self.log64.clear();
    }

    pub(crate) fn drop_log_clear(&mut self)
        requires
            old(self).wf(),
        ensures
            final(self).wf(),
            final(self)@ == (AllocView { drop_log: Seq::<(u64, usize)>::empty(), ..old(self)@ }),
    {
        self.drop_log.clear();
    }

    pub(crate) fn drop_log_len(&self) -> (n: usize)
        ensures
            n == self@.drop_log.len(),
    {
        self.drop_log.len()
    }

    pub(crate) fn drop_log_get(&self, i: usize) -> (e: (u64, usize))
        requires
            i < self@.drop_log.len(),
        ensures
            e == self@.drop_log[i as int],
    {
        *self.drop_log.get(i)
    }

    pub(crate) fn drop_log_pop(&mut self)
        requires
            old(self).wf(),
            old(self)@.drop_log.len() > 0,
        ensures
            final(self).wf(),
            final(self)@ == (AllocView {
                drop_log: old(self)@.drop_log.drop_first(),
                ..old(self)@
            }),
    {
        let _ = self.drop_log.pop_front();
    }

    pub(crate) fn set_aux_valid(&mut self, b: bool)
        requires
            old(self).wf(),
        ensures
            final(self).wf(),
            final(self)@ == (AllocView { aux_valid: b, ..old(self)@ }),
    {
        self.aux_valid = b;
    }

    pub(crate) fn get_aux_valid(&self) -> (b: bool)
        ensures
            b == self@.aux_valid,
    {
        self.aux_valid
    }

    pub(crate) fn set_available_from_log(&mut self)
        requires
            old(self).wf(),
        ensures
            final(self).wf(),
            final(self)@ == (AllocView { available: old(self)@.available_log, ..old(self)@ }),
    {
        self.available = self.available_log;
    }

    /// Returns whether a committed change set is still being drained.
    pub fn aux_valid_flag(&self) -> (b: bool)
        ensures
            b == self@.aux_valid,
    {
        self.aux_valid
    }

    /// Returns the staged value the next drain writes into `available`.
    pub fn available_log_value(&self) -> (r: usize)
        ensures
            r == self@.available_log,
    {
        self.available_log
    }

    /// The drop-on-failure entries, oldest first.
    pub fn drop_entries(&self) -> (r: Vec<(u64, usize)>)
        requires
            self.wf(),
        ensures
            r@ == self@.drop_log,
    {
        self.drop_log.to_vec()
    }

    /// Reads the whole durable state out as plain values, so a caller can
    /// persist it.
    pub fn to_parts(&self) -> (r: IndexParts)
        requires
            self.wf(),
        ensures
            parts_ok(r),
            parts_view(r) == self@,
    {
        let mut mem: Vec<u64> = Vec::new();
        let n = self.mem.len();
        let mut i: usize = 0;
        while i < n
            invariant
                n == self@.mem.len(),
                i <= n,
                mem@ == self@.mem.take(i as int),
                self.wf(),
            decreases n - i,
        {
            proof {
                assert(self@.mem.take(i + 1) =~= self@.mem.take(i as int).push(
                    self@.mem[i as int],
                ));
            }
            let w = self.mem[i];
            mem.push(w);
            i = i + 1;
        }
        proof {
            assert(self@.mem.take(n as int) =~= self@.mem);
        }
        IndexParts {
            mem,
            last_idx: self.last_idx,
            available: self.available,
            available_log: self.available_log,
            foot_print: self.foot_print,
            aux: self.aux.to_vec(),
            log64: self.log64.to_vec(),
            drop_log: self.drop_log.to_vec(),
            aux_valid: self.aux_valid,
        }
    }

    /// Rebuilds an index from persisted parts, validating the geometry:
    /// fails exactly when the parts cannot describe a sound index.  The
    /// caller runs recovery afterwards, as reopening a pool does.
    pub fn from_parts(p: IndexParts) -> (r: Option<BuddyAlg>)
        ensures
            (r is Some) <==> parts_ok(p),
            (r matches Some(a) ==> a.wf() && a@ == parts_view(p)),
    {
        if !(3 <= p.last_idx && p.last_idx <= 62) {
            return None;
        }
        let sz64 = pow2_u64(p.last_idx);
        proof {
            if p.last_idx < 62 {
                lemma_pow2_strictly_increases(p.last_idx as nat, 62);
            }
            lemma2_to64_rest();
        }
        if sz64 > usize::MAX as u64 {
            return None;
        }
        let size = sz64 as usize;
        if p.mem.len() != size / 8 + 64 || p.available > size || p.available_log > size {
            return None;
        }
        let aux = match Ring::from_vec(128, p.aux) {
            Some(g) => g,
            None => {
                return None;
            }
        };
        let log64 = match Ring::from_vec(8, p.log64) {
            Some(g) => g,
            None => {
                return None;
            }
        };
        let drop_log = match Ring::from_vec(8, p.drop_log) {
            Some(g) => g,
            None => {
                return None;
            }
        };
        Some(
            BuddyAlg {
                mem: p.mem,
                last_idx: p.last_idx,
                available: p.available,
                size,
                aux,
                log64,
                drop_log,
                aux_valid: p.aux_valid,
                available_log: p.available_log,
                foot_print: p.foot_print,
            },
        )
    }
}

/// The byte offset of the order-`k` list head.
pub open spec fn head_off_spec(v: AllocView, k: nat) -> u64 {
    head_slot(v.size, k)
}

/// How many whole words cover the bytes a reallocation preserves.
pub open spec fn copy_words(len: nat, new_len: nat) -> nat {
    let m = if len < new_len {
        len
    } else {
        new_len
    };
    m / 8 + (if m % 8 == 0 {
        0nat
    } else {
        1nat
    })
}

/// What one free-list scan decides for a block being freed: a buddy to
/// merge with, or the predecessor to insert after.
pub enum FreeScan {
    /// An adjacent free buddy was found: unlink it and free the pair one
    /// order up.
    Merge {
        /// The buddy block's offset.
        buddy: u64,
        /// The `next` pointer stored in the buddy block.
        buddy_next: u64,
        /// The list entry before the buddy, if any.
        prev: Option<u64>,
    },
    /// No buddy: insert the block after `prev` (after the head if `None`).
    Insert {
        /// The last list entry with an offset not above the freed block.
        prev: Option<u64>,
    },
}

/// Sequences with a common prefix stay prefixed when both grow by the same
/// push.
proof fn lemma_prefix_push(a: Seq<(u64, u64)>, x: (u64, u64))
    ensures
        a.is_prefix_of(a.push(x)),
{
    assert(a =~= a.push(x).subrange(0, a.len() as int));
}

proof fn lemma_prefix_refl(a: Seq<(u64, u64)>)
    ensures
        a.is_prefix_of(a),
{
    assert(a =~= a.subrange(0, a.len() as int));
}

proof fn lemma_prefix_trans(a: Seq<(u64, u64)>, b: Seq<(u64, u64)>, c: Seq<(u64, u64)>)
    requires
        a.is_prefix_of(b),
        b.is_prefix_of(c),
    ensures
        a.is_prefix_of(c),
{
    assert(a =~= c.subrange(0, a.len() as int));
}

/// Free-list emptiness and the first occupied order depend only on the
/// durable words, not on the staged logs.
pub proof fn lemma_free_lists_congr(v1: AllocView, v2: AllocView, idx: nat)
    requires
        v1.mem == v2.mem,
        v1.size == v2.size,
        v1.last_idx == v2.last_idx,
    ensures
        first_free(v1, idx) == first_free(v2, idx),
        has_free(v1, idx) == has_free(v2, idx),
{
}

impl BuddyAlg {
    /// Stages one word write, with room guaranteed by the caller.
    fn aux_stage(&mut self, off: u64, val: u64)
        requires
            old(self).wf(),
            old(self)@.aux.len() < 128,
        ensures
            final(self).wf(),
            final(self)@ == (AllocView { aux: old(self)@.aux.push((off, val)), ..old(self)@ }),
    {
        let _ = self.aux.push((off, val));
    }

    /// Walks the order-`k` list for the sorted position of `target`:
    /// the last entry whose offset is not above it.  A link that leaves the
    /// arena or is unaligned ends the walk, as a bounded defence against a
    /// corrupted list.
    fn scan_insert_pos(&self, k: usize, target: u64) -> (r: Option<u64>)
        requires
            self.wf(),
            k < 64,
        ensures
            r == insert_pos(
                self@.mem,
                self@.size,
                head_at(self@.mem, self@.size, k as nat),
                target,
                None,
                self@.size / 8 + 1,
            ),
            (r matches Some(p) ==> p < self@.size && p % 8 == 0),
    {
        let ghost v = self@;
        let head = self.head_get(k);
        let mut curr = head;
        let mut prev: Option<u64> = None;
        let mut fuel: usize = self.size / 8 + 1;
        let size64 = self.size as u64;
        while curr != EOL && fuel > 0
            invariant
                self.wf(),
                v == self@,
                size64 == v.size,
                head == head_at(v.mem, v.size, k as nat),
                insert_pos(v.mem, v.size, head, target, None, v.size / 8 + 1) == insert_pos(
                    v.mem,
                    v.size,
                    curr,
                    target,
                    prev,
                    fuel as nat,
                ),
                (prev matches Some(p) ==> p < self@.size && p % 8 == 0),
            decreases fuel,
        {
            let b = curr;
            if b >= size64 || b % 8 != 0 {
                return prev;
            }
            if b > target {
                return prev;
            }
            prev = Some(b);
            curr = self.word_get(b);
            fuel = fuel - 1;
        }
        prev
    }

    /// Finds a free block of order `idx`, popping the first non-empty list
    /// at or above it and staging the pointer swings that split every level
    /// walked down.  Returns the block's offset, or `None` when every list
    /// in reach is empty.  Nothing in the index is written: all edits go to
    /// the auxiliary ring.
    #[verifier::rlimit(80)]
    pub fn find_free_memory(&mut self, idx: usize, split: bool) -> (r: Option<u64>)
        requires
            old(self).wf(),
            3 <= idx <= old(self)@.last_idx + 1,
            old(self)@.aux.len() + 1 + 2 * (old(self)@.last_idx + 1 - idx as nat) <= 128,
        ensures
            final(self).wf(),
            final(self)@ == (AllocView { aux: final(self)@.aux, ..old(self)@ }),
            old(self)@.aux.is_prefix_of(final(self)@.aux),
            final(self)@.aux.len() <= old(self)@.aux.len() + 1 + 2 * (old(self)@.last_idx + 1
                - idx as nat),
            (r is None) <==> !has_free(old(self)@, idx as nat),
            (r is None) ==> final(self)@.aux == old(self)@.aux,
            final(self)@.aux == old(self)@.aux + find_stage(
                old(self)@.mem,
                old(self)@.size,
                old(self)@.last_idx,
                idx as nat,
                split,
            ),
            (r matches Some(off) ==> off == head_of(old(self)@, first_free(old(self)@, idx as nat))
                && off != EOL && first_free(old(self)@, idx as nat) <= old(self)@.last_idx),
        decreases old(self)@.last_idx + 1 - idx,
    {
        let ghost m = old(self)@.mem;
        let ghost sz = old(self)@.size;
        let ghost la = old(self)@.last_idx;
        let ghost staged = find_stage(m, sz, la, idx as nat, split);
        proof {
            lemma_prefix_refl(old(self)@.aux);
        }
        if idx > self.last_idx {
            proof {
                assert(self@.aux =~= old(self)@.aux + staged);
            }
            return None;
        }
        let head = self.head_get(idx);
        let res: u64;
        if head != EOL {
            proof {
                assert(idx as nat <= idx as nat <= old(self)@.last_idx && head_of(
                    old(self)@,
                    idx as nat,
                ) != EOL);
                assert(has_free(old(self)@, idx as nat));
            }
            // pop the head: the list head takes the popped block's next
            let next = if head < self.size as u64 && head % 8 == 0 {
                self.word_get(head)
            } else {
                // corrupt head link: treat its chain as ended
                EOL
            };
            let hoff = self.head_off(idx);
            self.aux_stage(hoff, next);
            proof {
                lemma_prefix_push(old(self)@.aux, (hoff, next));
                assert(next == pop_next(m, sz, head));
                assert(first_free_at(m, sz, la, idx as nat) == idx as nat);
                assert(self@.aux =~= old(self)@.aux + seq![(head_slot(sz, idx as nat), next)]);
            }
            res = head;
        } else {
            let deeper = self.find_free_memory(idx + 1, true);
            proof {
                let v = old(self)@;
                if has_free(v, idx as nat) {
                    let j = choose|j: nat|
                        idx as nat <= j <= v.last_idx && head_at(v.mem, v.size, j) != EOL;
                    assert(j >= idx as nat + 1);
                    assert(has_free(v, idx as nat + 1));
                }
                if has_free(v, idx as nat + 1) {
                    let j = choose|j: nat|
                        idx as nat + 1 <= j <= v.last_idx && head_at(v.mem, v.size, j) != EOL;
                    assert(idx as nat <= j <= v.last_idx && head_at(v.mem, v.size, j) != EOL);
                    assert(has_free(v, idx as nat));
                }
            }
            match deeper {
                None => {
                    proof {
                        assert(self@.aux =~= old(self)@.aux + staged);
                    }
                    return None;
                }
                Some(b) => {
                    proof {
                        assert(first_free_at(m, sz, la, idx as nat) == first_free_at(
                            m,
                            sz,
                            la,
                            idx as nat + 1,
                        ));
                        assert(b == head_at(m, sz, first_free_at(m, sz, la, idx as nat)));
                    }
                    res = b;
                }
            }
        }
        let ghost base_aux = self@.aux;
        proof {
            assert(head_at(m, sz, first_free_at(m, sz, la, idx as nat)) == res);
        }
        if idx > 0 && split {
            // the caller keeps the lower half; the upper half of this
            // order-`idx` block is an order-`idx - 1` block at `res +
            // 2^(idx-1)` and joins that list at its sorted position
            if res < self.size as u64 {
                let half = pow2_u64(idx - 1);
                proof {
                    if ((idx - 1) as nat) < self@.last_idx {
                        lemma_pow2_strictly_increases((idx - 1) as nat, self@.last_idx);
                    }
                    if self@.last_idx < 62 {
                        lemma_pow2_strictly_increases(self@.last_idx, 62);
                    }
                    lemma2_to64_rest();
                    assert(half <= self@.size <= 0x4000_0000_0000_0000u64);
                }
                let next_b = res + half;
                proof {
                    assert(next_b == (res + pow2((idx - 1) as nat)) as u64);
                }
                let ghost pre = self@;
                let pos = self.scan_insert_pos(idx - 1, next_b);
                match pos {
                    Some(p) => {
                        let pn = self.word_get(p);
                        self.aux_stage(next_b, pn);
                        proof {
                            lemma_prefix_push(pre.aux, (next_b, pn));
                            lemma_prefix_trans(old(self)@.aux, pre.aux, self@.aux);
                        }
                        let ghost mid = self@;
                        self.aux_stage(p, next_b);
                        proof {
                            lemma_prefix_push(mid.aux, (p, next_b));
                            lemma_prefix_trans(old(self)@.aux, mid.aux, self@.aux);
                            assert(insert_stage(m, sz, (idx - 1) as nat, next_b) == seq![
                                (next_b, pn),
                                (p, next_b),
                            ]);
                            assert(self@.aux =~= old(self)@.aux + staged);
                        }
                    }
                    None => {
                        let h = self.head_get(idx - 1);
                        self.aux_stage(next_b, h);
                        proof {
                            lemma_prefix_push(pre.aux, (next_b, h));
                            lemma_prefix_trans(old(self)@.aux, pre.aux, self@.aux);
                        }
                        let ghost mid = self@;
                        let ho = self.head_off(idx - 1);
                        self.aux_stage(ho, next_b);
                        proof {
                            lemma_prefix_push(mid.aux, (ho, next_b));
                            lemma_prefix_trans(old(self)@.aux, mid.aux, self@.aux);
                            assert(insert_stage(m, sz, (idx - 1) as nat, next_b) == seq![
                                (next_b, h),
                                (ho, next_b),
                            ]);
                            assert(self@.aux =~= old(self)@.aux + staged);
                        }
                    }
                }
            } else {
                proof {
                    assert(split_stage(m, sz, idx as nat, res) =~= Seq::<(u64, u64)>::empty());
                    assert(self@.aux =~= old(self)@.aux + staged);
                }
            }
        } else {
            proof {
                assert(self@.aux =~= old(self)@.aux + staged);
            }
        }
        Some(res)
    }

    /// Walks the order-`idx` list deciding how to free the block at `off`:
    /// merge with an adjacent buddy, or insert sorted.  Merging is offered
    /// only when the staged counter can pay for it and the merged pair stays
    /// inside the arena, which holds whenever the list is sound.
    fn scan_free_list(&self, idx: usize, off: u64) -> (r: FreeScan)
        requires
            self.wf(),
            3 <= idx < self@.last_idx,
            off % 8 == 0,
            off + pow2(idx as nat) <= self@.size,
        ensures
            r == free_scan_at(
                self@.mem,
                self@.size,
                idx as nat,
                off,
                self@.available_log,
                head_at(self@.mem, self@.size, idx as nat),
                None,
                self@.size / 8 + 1,
            ),
            (r matches FreeScan::Insert { prev } ==> (prev matches Some(p) ==> p < self@.size
                && p % 8 == 0)),
            (r matches FreeScan::Merge { buddy, buddy_next, prev } ==> {
                &&& buddy < self@.size
                &&& buddy % 8 == 0
                &&& (prev matches Some(p) ==> p < self@.size && p % 8 == 0)
                &&& (if off <= buddy { off } else { buddy }) + 2 * pow2(idx as nat)
                    <= self@.size
                &&& self@.available_log >= pow2(idx as nat)
                &&& (buddy == off + pow2(idx as nat) || buddy + pow2(idx as nat) == off)
            }),
    {
        let ghost v = self@;
        let len64 = pow2_u64(idx);
        proof {
            lemma_pow2_strictly_increases(idx as nat, self@.last_idx);
            if self@.last_idx < 62 {
                lemma_pow2_strictly_increases(self@.last_idx, 62);
            }
            lemma2_to64_rest();
        }
        let end = off + len64;
        let size64 = self.size as u64;
        let head = self.head_get(idx);
        let mut curr = head;
        let mut prev: Option<u64> = None;
        let mut fuel: usize = self.size / 8 + 1;
        while curr != EOL && fuel > 0
            invariant
                self.wf(),
                v == self@,
                size64 == v.size,
                size64 <= 0x4000_0000_0000_0000u64,
                len64 == pow2(idx as nat),
                end == off + len64,
                off % 8 == 0,
                off + len64 <= size64,
                3 <= idx < v.last_idx,
                head == head_at(v.mem, v.size, idx as nat),
                free_scan_at(v.mem, v.size, idx as nat, off, v.available_log, head, None, v.size
                    / 8 + 1) == free_scan_at(
                    v.mem,
                    v.size,
                    idx as nat,
                    off,
                    v.available_log,
                    curr,
                    prev,
                    fuel as nat,
                ),
                (prev matches Some(p) ==> p < self@.size && p % 8 == 0),
            decreases fuel,
        {
            let b = curr;
            if b >= size64 || b % 8 != 0 {
                proof {
                    assert(free_scan_at(v.mem, v.size, idx as nat, off, v.available_log, curr,
                        prev, fuel as nat) == FreeScan::Insert { prev });
                }
                return FreeScan::Insert { prev };
            }
            let e_next = self.word_get(b);
            let on_left = (off & len64) == 0;
            let mergeable = (b == end && on_left && end + len64 <= size64) || (b + len64 == off
                && !on_left);
            proof {
                assert((pow2(idx as nat) as u64) == len64);
                assert((off + pow2(idx as nat)) as u64 == end);
            }
            if mergeable && self.available_log as u64 >= len64 {
                proof {
                    assert(free_scan_at(v.mem, v.size, idx as nat, off, v.available_log, curr,
                        prev, fuel as nat) == (FreeScan::Merge {
                        buddy: b,
                        buddy_next: e_next,
                        prev,
                    }));
                }
                return FreeScan::Merge { buddy: b, buddy_next: e_next, prev };
            }
            if b > off {
                proof {
                    assert(free_scan_at(v.mem, v.size, idx as nat, off, v.available_log, curr,
                        prev, fuel as nat) == FreeScan::Insert { prev });
                }
                return FreeScan::Insert { prev };
            }
            prev = Some(b);
            curr = e_next;
            fuel = fuel - 1;
        }
        FreeScan::Insert { prev }
    }

    /// Stages the reclamation of the order-`idx_of(len)` block at `off`:
    /// coalesces eagerly with free buddies level by level, then stages the
    /// sorted insertion of the merged block, and accounts the freed bytes
    /// into the staged counter.  The staged change set is exactly
    /// `free_stage` of the durable words.
    fn free_impl(&mut self, off: u64, len: usize)
        requires
            old(self).wf(),
            1 <= len <= old(self)@.size,
            off % 8 == 0,
            off + pow2(idx_of(len as nat)) <= old(self)@.size,
            old(self)@.available_log + pow2(idx_of(len as nat)) <= old(self)@.size,
            old(self)@.aux.len() + (old(self)@.last_idx - idx_of(len as nat)) + 2 <= 128,
        ensures
            final(self).wf(),
            final(self)@ == (AllocView {
                aux: final(self)@.aux,
                available_log: final(self)@.available_log,
                ..old(self)@
            }),
            final(self)@.available_log == old(self)@.available_log + pow2(idx_of(len as nat)),
            final(self)@.aux == old(self)@.aux + free_stage(
                old(self)@.mem,
                old(self)@.size,
                old(self)@.last_idx,
                idx_of(len as nat),
                off,
                old(self)@.available_log,
            ),
            old(self)@.aux.is_prefix_of(final(self)@.aux),
            final(self)@.aux.len() <= old(self)@.aux.len() + (old(self)@.last_idx - idx_of(
                len as nat,
            )) + 2,
        decreases old(self)@.last_idx - idx_of(len as nat),
    {
        let ghost m = old(self)@.mem;
        let ghost sz = old(self)@.size;
        let ghost la = old(self)@.last_idx;
        let ghost av = old(self)@.available_log;
        let idx = get_idx(len);
        proof {
            lemma_pow2_strictly_increases(old(self)@.last_idx, 63);
            lemma_idx_of_facts(len as nat);
            lemma_idx_of_pow2(old(self)@.last_idx);
            lemma_idx_of_mono(len as nat, old(self)@.size);
            if (idx as nat) < old(self)@.last_idx {
                lemma_pow2_strictly_increases(idx as nat, old(self)@.last_idx);
            }
        }
        let len_usize = pow2_u64(idx) as usize;
        let ghost staged = free_stage(m, sz, la, idx as nat, off, av);
        let mut prev: Option<u64> = None;
        if idx < self.last_idx {
            match self.scan_free_list(idx, off) {
                FreeScan::Merge { buddy, buddy_next, prev: mp } => {
                    // unlink the buddy, pay its bytes back to the counter,
                    // and free the merged block one order up
                    let unlink: (u64, u64);
                    match mp {
                        Some(p) => {
                            unlink = (p, buddy_next);
                            self.aux_stage(p, buddy_next);
                        }
                        None => {
                            let ho = self.head_off(idx);
                            unlink = (ho, buddy_next);
                            self.aux_stage(ho, buddy_next);
                        }
                    }
                    proof {
                        lemma_prefix_push(old(self)@.aux, unlink);
                    }
                    self.available_log = self.available_log - len_usize;
                    let merged = if off < buddy {
                        off
                    } else {
                        buddy
                    };
                    let len2 = (pow2_u64(idx) * 2) as usize;
                    proof {
                        lemma_pow2_adds(idx as nat, 1);
                        lemma2_to64();
                        lemma_idx_of_pow2(idx as nat + 1);
                        if idx as nat + 1 < old(self)@.last_idx {
                            lemma_pow2_strictly_increases(idx as nat + 1, old(self)@.last_idx);
                        }
                    }
                    let ghost mid = self@;
                    self.free_impl(merged, len2);
                    proof {
                        lemma_prefix_trans(old(self)@.aux, mid.aux, self@.aux);
                        assert(staged == seq![unlink] + free_stage(
                            m,
                            sz,
                            la,
                            idx as nat + 1,
                            merged,
                            (av - pow2(idx as nat)) as nat,
                        ));
                        assert(self@.aux =~= old(self)@.aux + staged);
                    }
                    return;
                }
                FreeScan::Insert { prev: p } => {
                    prev = p;
                }
            }
        }
        // no buddy: stage the sorted insertion of the block itself
        let ghost pre = self@;
        let e1: (u64, u64);
        let e2: (u64, u64);
        match prev {
            Some(p) => {
                let pn = self.word_get(p);
                e1 = (off, pn);
                e2 = (p, off);
                self.aux_stage(off, pn);
                proof {
                    lemma_prefix_push(pre.aux, e1);
                }
                let ghost mid = self@;
                self.aux_stage(p, off);
                proof {
                    lemma_prefix_push(mid.aux, e2);
                    lemma_prefix_trans(old(self)@.aux, mid.aux, self@.aux);
                }
            }
            None => {
                let h = self.head_get(idx);
                let ho = self.head_off(idx);
                e1 = (off, h);
                e2 = (ho, off);
                self.aux_stage(off, h);
                proof {
                    lemma_prefix_push(pre.aux, e1);
                }
                let ghost mid = self@;
                self.aux_stage(ho, off);
                proof {
                    lemma_prefix_push(mid.aux, e2);
                    lemma_prefix_trans(old(self)@.aux, mid.aux, self@.aux);
                }
            }
        }
        self.available_log = self.available_log + len_usize;
        proof {
            assert(staged == seq![e1, e2]);
            assert(self@.aux =~= old(self)@.aux + staged);
        }
    }

    /// Stages the changes that allocate a block of `len` bytes and, when
    /// `perform` holds, materializes them through the drain protocol and
    /// clears the drop-on-failure log.  Returns the chosen block's offset on
    /// success and the sentinel `u64::MAX` when the request outgrows the
    /// free space or no list can serve it.
    pub fn alloc_impl(&mut self, len: usize, perform: bool) -> (r: u64)
        requires
            old(self).wf(),
            1 <= len,
            len as nat <= 0x8000_0000_0000_0000,
            old(self)@.aux.len() + 1 + 2 * (old(self)@.last_idx - 2) <= 128,
        ensures
            final(self).wf(),
            (r == EOL) <==> (pow2(idx_of(len as nat)) > old(self)@.available || !has_free(
                old(self)@,
                idx_of(len as nat),
            )),
            r == EOL ==> final(self)@ == old(self)@,
            r != EOL ==> {
                &&& r == head_of(old(self)@, first_free(old(self)@, idx_of(len as nat)))
                &&& first_free(old(self)@, idx_of(len as nat)) <= old(self)@.last_idx
                &&& final(self)@.available_log == old(self)@.available - pow2(idx_of(len as nat))
                &&& final(self)@.size == old(self)@.size
                &&& final(self)@.last_idx == old(self)@.last_idx
                &&& final(self)@.drop_log == (if perform {
                    Seq::<(u64, usize)>::empty()
                } else {
                    old(self)@.drop_log
                })
                &&& final(self)@.foot_print == (if old(self)@.size - (old(self)@.available - pow2(
                    idx_of(len as nat),
                )) > old(self)@.foot_print {
                    old(self)@.size - (old(self)@.available - pow2(idx_of(len as nat)))
                } else {
                    old(self)@.foot_print as int
                })
                &&& (!perform ==> final(self)@ == (AllocView {
                    aux: old(self)@.aux + find_stage(
                        old(self)@.mem,
                        old(self)@.size,
                        old(self)@.last_idx,
                        idx_of(len as nat),
                        false,
                    ),
                    available_log: (old(self)@.available - pow2(idx_of(len as nat))) as nat,
                    foot_print: final(self)@.foot_print,
                    ..old(self)@
                }) && old(self)@.aux.is_prefix_of(final(self)@.aux))
                &&& (perform ==> final(self)@ == (AllocView {
                    drop_log: Seq::<(u64, usize)>::empty(),
                    foot_print: final(self)@.foot_print,
                    ..drain_spec(
                        AllocView {
                            aux: old(self)@.aux + find_stage(
                                old(self)@.mem,
                                old(self)@.size,
                                old(self)@.last_idx,
                                idx_of(len as nat),
                                false,
                            ),
                            available_log: (old(self)@.available - pow2(
                                idx_of(len as nat),
                            )) as nat,
                            ..old(self)@
                        },
                    )
                }))
                &&& (perform ==> final(self)@.available == old(self)@.available - pow2(idx_of(
                    len as nat,
                )) && final(self)@.aux.len() == 0 && final(self)@.log64.len() == 0
                    && !final(self)@.aux_valid)
            },
    {
        let idx = get_idx(len);
        proof {
            lemma2_to64_rest();
            lemma_idx_of_facts(len as nat);
        }
        let len64 = pow2_u64(idx);
        if len64 > self.available as u64 {
            // no space left for a block of this order
            return EOL;
        }
        proof {
            if (idx as nat) > self@.last_idx {
                lemma_pow2_strictly_increases(self@.last_idx, idx as nat);
            }
        }
        let found = self.find_free_memory(idx, false);
        match found {
            Some(off) => {
                self.available_log = self.available - (len64 as usize);
                if perform {
                    self.drain_aux();
                    self.drop_log_clear();
                }
                let usage = self.size - self.available_log;
                if usage > self.foot_print {
                    self.foot_print = usage;
                }
                off
            }
            None => EOL,
        }
    }

    /// Stages the changes that reclaim the block of `len` bytes at `off`
    /// and, when `perform` holds, materializes them through the drain
    /// protocol.  Coalescing is eager; the staged change set is exactly
    /// `free_stage` of the durable words, so with `perform` the resulting
    /// index is the drain of that set, and without it the set waits intact
    /// for a later commit.
    pub fn dealloc_impl(&mut self, off: u64, len: usize, perform: bool)
        requires
            old(self).wf(),
            1 <= len <= old(self)@.size,
            off % 8 == 0,
            off + pow2(idx_of(len as nat)) <= old(self)@.size,
            old(self)@.available + pow2(idx_of(len as nat)) <= old(self)@.size,
            old(self)@.aux.len() + (old(self)@.last_idx - 3) + 2 <= 128,
        ensures
            final(self).wf(),
            final(self)@.available_log == old(self)@.available + pow2(idx_of(len as nat)),
            final(self)@.size == old(self)@.size,
            final(self)@.last_idx == old(self)@.last_idx,
            final(self)@.foot_print == old(self)@.foot_print,
            final(self)@.drop_log == old(self)@.drop_log,
            !perform ==> final(self)@ == (AllocView {
                aux: old(self)@.aux + free_stage(
                    old(self)@.mem,
                    old(self)@.size,
                    old(self)@.last_idx,
                    idx_of(len as nat),
                    off,
                    old(self)@.available as nat,
                ),
                available_log: (old(self)@.available + pow2(idx_of(len as nat))) as nat,
                ..old(self)@
            }),
            !perform ==> old(self)@.aux.is_prefix_of(final(self)@.aux)
                && final(self)@.aux.len() <= old(self)@.aux.len() + (old(self)@.last_idx - 3)
                    + 2,
            perform ==> final(self)@ == drain_spec(
                AllocView {
                    aux: old(self)@.aux + free_stage(
                        old(self)@.mem,
                        old(self)@.size,
                        old(self)@.last_idx,
                        idx_of(len as nat),
                        off,
                        old(self)@.available as nat,
                    ),
                    available_log: (old(self)@.available + pow2(idx_of(len as nat))) as nat,
                    ..old(self)@
                },
            ),
            perform ==> final(self)@.available == old(self)@.available + pow2(idx_of(len as nat))
                && final(self)@.aux.len() == 0 && final(self)@.log64.len() == 0
                && !final(self)@.aux_valid,
    {
        proof {
            lemma_pow2_strictly_increases(old(self)@.last_idx, 63);
            lemma_idx_of_facts(len as nat);
            lemma_idx_of_pow2(old(self)@.last_idx);
            lemma_idx_of_mono(len as nat, old(self)@.size);
        }
        self.available_log = self.available;
        self.free_impl(off, len);
        if perform {
            self.drain_aux();
        }
        // without `perform`, the staged set stays for a later commit
    }

    /// Reallocation: a request that stays within its block's order is a
    /// no-op; otherwise the old block's reclamation and a fresh allocation
    /// are staged together, the live words are copied over, and the caller
    /// commits.  On allocation failure the staged set is discarded and the
    /// sentinel returned; the old block stays valid.  The copy is not
    /// crash-atomic: a crash between the commit and the copy loses data, a
    /// limitation the design accepts.  Because a reallocation stages two
    /// operations into the one 128-entry ring before the commit, its room
    /// precondition is satisfiable only for arenas up to order 44; larger
    /// pools must deallocate and allocate with a drain in between.
    #[verifier::rlimit(100)]
    #[verifier::spinoff_prover]
    pub fn realloc_impl(&mut self, off: u64, len: usize, new_len: usize) -> (r: u64)
        requires
            old(self).wf(),
            1 <= len <= old(self)@.size,
            1 <= new_len,
            new_len as nat <= 0x8000_0000_0000_0000,
            off % 8 == 0,
            off + pow2(idx_of(len as nat)) <= old(self)@.size,
            old(self)@.available + pow2(idx_of(len as nat)) <= old(self)@.size,
            old(self)@.aux.len() + (old(self)@.last_idx - 3) + 3 + 2 * (old(self)@.last_idx - 2)
                <= 128,
        ensures
            final(self).wf(),
            idx_of(len as nat) == idx_of(new_len as nat) ==> r == off && final(self)@ == old(
                self,
            )@,
            idx_of(len as nat) != idx_of(new_len as nat) ==> ((r == EOL) <==> (pow2(idx_of(
                new_len as nat,
            )) > old(self)@.available || !has_free(old(self)@, idx_of(new_len as nat)))),
            r == EOL ==> final(self)@ == (AllocView {
                aux: Seq::<(u64, u64)>::empty(),
                log64: Seq::<(u64, u64)>::empty(),
                available_log: (old(self)@.available + pow2(idx_of(len as nat))) as nat,
                ..old(self)@
            }),
            idx_of(len as nat) != idx_of(new_len as nat) && r != EOL ==> {
                &&& r == head_of(old(self)@, first_free(old(self)@, idx_of(new_len as nat)))
                &&& final(self)@.available == old(self)@.available
                &&& final(self)@.available_log == old(self)@.available + pow2(idx_of(len as nat))
                    - pow2(idx_of(new_len as nat))
                &&& final(self)@.size == old(self)@.size
                &&& final(self)@.last_idx == old(self)@.last_idx
                &&& old(self)@.aux.is_prefix_of(final(self)@.aux)
                &&& final(self)@.aux == old(self)@.aux + free_stage(
                    old(self)@.mem,
                    old(self)@.size,
                    old(self)@.last_idx,
                    idx_of(len as nat),
                    off,
                    old(self)@.available as nat,
                ) + find_stage(
                    old(self)@.mem,
                    old(self)@.size,
                    old(self)@.last_idx,
                    idx_of(new_len as nat),
                    false,
                )
                &&& forall|i: int|
                    0 <= i < final(self)@.mem.len() && !(r / 8 <= i < r / 8 + copy_words(
                        len as nat,
                        new_len as nat,
                    )) ==> final(self)@.mem[i] == old(self)@.mem[i]
                &&& (r % 8 == 0 && r / 8 + copy_words(len as nat, new_len as nat) <= old(
                    self,
                )@.size / 8 && (r + 8 * copy_words(len as nat, new_len as nat) <= off || off + 8
                    * copy_words(len as nat, new_len as nat) <= r)) ==> forall|j: int|
                    0 <= j < copy_words(len as nat, new_len as nat)
                        ==> #[trigger] final(self)@.mem[r / 8 + j] == old(self)@.mem[off / 8 + j]
            },
    {
        let idx_old = get_idx(len);
        let idx_new = get_idx(new_len);
        proof {
            lemma2_to64_rest();
            lemma_pow2_strictly_increases(old(self)@.last_idx, 63);
            lemma_idx_of_facts(len as nat);
            lemma_idx_of_facts(new_len as nat);
        }
        if idx_old == idx_new {
            // the block already spans the new request
            return off;
        }
        self.dealloc_impl(off, len, false);
        let ghost staged = self@;
        let new_off = self.alloc_impl(new_len, false);
        if new_off == EOL {
            // no space: abandon the staged set; nothing was committed
            self.discard();
            return EOL;
        }
        proof {
            lemma_free_lists_congr(staged, old(self)@, idx_of(new_len as nat));
            assert(self@.aux =~= old(self)@.aux + free_stage(
                old(self)@.mem,
                old(self)@.size,
                old(self)@.last_idx,
                idx_of(len as nat),
                off,
                old(self)@.available as nat,
            ) + find_stage(
                old(self)@.mem,
                old(self)@.size,
                old(self)@.last_idx,
                idx_of(new_len as nat),
                false,
            ));
        }
        // keep the reclaimed bytes in the staged counter, which the fresh
        // allocation reset from the still-unchanged `available`
        let len64_old = pow2_u64(idx_old);
        self.available_log = self.available_log + (len64_old as usize);
        let ghost staged_alloc = self@;
        // move the live words; the fresh block is disjoint from the old one
        // whenever the free lists are sound
        let min_len = if len < new_len {
            len
        } else {
            new_len
        };
        let words: usize = min_len / 8 + (if min_len % 8 == 0 {
            0
        } else {
            1
        });
        proof {
            assert(words == copy_words(len as nat, new_len as nat));
            assert(self@.size % 8 == 0) by {
                lemma_pow2_adds((self@.last_idx - 3) as nat, 3);
                lemma2_to64();
            }
            assert(8 * (words as int) <= pow2(idx_of(len as nat))) by {
                assert(min_len as nat <= pow2(idx_of(len as nat)));
                assert(pow2(idx_of(len as nat)) % 8 == 0) by {
                    lemma_pow2_adds((idx_of(len as nat) - 3) as nat, 3);
                    lemma2_to64();
                }
            }
        }
        let size64 = self.size as u64;
        if new_off % 8 == 0 && new_off / 8 + (words as u64) <= size64 / 8 && off / 8
            + (words as u64) <= size64 / 8 {
            let ghost disjoint = new_off + 8 * (words as u64) <= off || off + 8 * (words as u64)
                <= new_off;
            let mut j: usize = 0;
            while j < words
                invariant
                    self.wf(),
                    j <= words,
                    off % 8 == 0,
                    new_off % 8 == 0,
                    new_off / 8 + words as int <= self@.size / 8 <= self@.mem.len(),
                    off / 8 + words as int <= self@.size / 8,
                    disjoint == (new_off + 8 * (words as u64) <= off || off + 8 * (words as u64)
                        <= new_off),
                    forall|i: int|
                        0 <= i < self@.mem.len() && !(new_off / 8 <= i < new_off / 8 + j)
                            ==> self@.mem[i] == staged_alloc.mem[i],
                    disjoint ==> forall|jj: int|
                        0 <= jj < j ==> #[trigger] self@.mem[new_off / 8 + jj]
                            == staged_alloc.mem[off / 8 + jj],
                    self@ == (AllocView { mem: self@.mem, ..staged_alloc }),
                decreases words - j,
            {
                let w = self.word_get(off + 8 * (j as u64));
                self.mem_set((new_off / 8) as usize + j, w);
                j = j + 1;
            }
        }
        new_off
    }
}

/// The durable parts of an index, as plain values: what a caller persists
/// to reopen the same index later.  Byte encoding is the caller's business;
/// `BuddyAlg::from_parts` validates the geometry back into a sound index.
pub struct IndexParts {
    /// Durable words: arena, then the 64 list heads.
    pub mem: Vec<u64>,
    /// The index of the last buddy list.
    pub last_idx: usize,
    /// Total available space in bytes.
    pub available: usize,
    /// Staged value of `available`.
    pub available_log: usize,
    /// The high-water mark of memory usage in bytes.
    pub foot_print: usize,
    /// The auxiliary ring's entries, oldest first.
    pub aux: Vec<(u64, u64)>,
    /// The user word log's entries, oldest first.
    pub log64: Vec<(u64, u64)>,
    /// The drop-on-failure log's entries, oldest first.
    pub drop_log: Vec<(u64, usize)>,
    /// The commit flag of the drain protocol.
    pub aux_valid: bool,
}

/// Whether persisted parts describe a sound index.
pub open spec fn parts_ok(p: IndexParts) -> bool {
    &&& 3 <= p.last_idx <= 62
    &&& pow2(p.last_idx as nat) <= usize::MAX
    &&& p.mem@.len() == pow2(p.last_idx as nat) / 8 + 64
    &&& p.available <= pow2(p.last_idx as nat)
    &&& p.available_log <= pow2(p.last_idx as nat)
    &&& p.aux@.len() <= 128
    &&& p.log64@.len() <= 8
    &&& p.drop_log@.len() <= 8
}

/// The view that sound parts describe.
pub open spec fn parts_view(p: IndexParts) -> AllocView {
    AllocView {
        mem: p.mem@,
        last_idx: p.last_idx as nat,
        size: pow2(p.last_idx as nat),
        available: p.available as nat,
        available_log: p.available_log as nat,
        foot_print: p.foot_print as nat,
        aux: p.aux@,
        log64: p.log64@,
        drop_log: p.drop_log@,
        aux_valid: p.aux_valid,
    }
}

/// The state of a freshly formatted region of (at most) `size` bytes.
pub open spec fn init_view(size: nat) -> AllocView {
    let last = (idx_from(3, size + 1) - 1) as nat;
    let w = pow2(last) / 8;
    AllocView {
        mem: Seq::new(
            w + 64,
            |i: int|
                if i == 0 {
                    EOL
                } else if i < w {
                    0u64
                } else if i == w + last {
                    0u64
                } else {
                    EOL
                },
        ),
        last_idx: last,
        size: pow2(last),
        available: pow2(last),
        available_log: 0,
        foot_print: 0,
        aux: Seq::empty(),
        log64: Seq::empty(),
        drop_log: Seq::empty(),
        aux_valid: false,
    }
}

} // verus!
