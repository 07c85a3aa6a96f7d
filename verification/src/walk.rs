//! Bounded walks over the free-list forest: the structural audit and the
//! allocation check.
//!
//! A free list is read by following `next` words from its head.  Every walk
//! here is bounded by one more than the number of arena words, so it ends
//! even on a corrupted region: a link that leaves the arena, is unaligned,
//! or cycles shows up as a walk that stops on something other than the
//! end-of-list sentinel.

use vstd::prelude::*;
use vstd::arithmetic::power2::{pow2, lemma_pow2_strictly_increases, lemma2_to64_rest};

use crate::buddy::{AllocView, BuddyAlg, EOL, head_of, idx_of, lemma_idx_of_facts, pow2_u64,
    get_idx};

verus! {

/// The walk bound: one more step than the arena has words.
pub open spec fn walk_fuel(v: AllocView) -> nat {
    v.size / 8 + 1
}

/// The block offsets reached from pointer `p` in at most `fuel` steps; the
/// walk ends at the sentinel, at a link outside the arena, at an unaligned
/// link, or when the fuel runs out.
pub open spec fn chain(v: AllocView, p: u64, fuel: nat) -> Seq<u64>
    decreases fuel,
{
    if p == EOL || fuel == 0 || p >= v.size || p % 8 != 0 {
        Seq::empty()
    } else {
        seq![p] + chain(v, v.mem[(p / 8) as int], (fuel - 1) as nat)
    }
}

/// The pointer on which the walk from `p` stops: the sentinel for a clean
/// end, anything else for a stray link or an exhausted bound.
pub open spec fn chain_tail(v: AllocView, p: u64, fuel: nat) -> u64
    decreases fuel,
{
    if p == EOL || fuel == 0 || p >= v.size || p % 8 != 0 {
        p
    } else {
        chain_tail(v, v.mem[(p / 8) as int], (fuel - 1) as nat)
    }
}

/// The order-`k` free list, as far as the bounded walk reads it.
pub open spec fn list_of(v: AllocView, k: nat) -> Seq<u64> {
    chain(v, head_of(v, k), walk_fuel(v))
}

/// Structural soundness of the order-`k` free list: the walk ends cleanly
/// (so the list is finite and uncorrupted), every entry is order-aligned and
/// within the arena, entries ascend strictly, and no two consecutive entries
/// are buddies of each other.
pub open spec fn list_wf(v: AllocView, k: nat) -> bool {
    let c = list_of(v, k);
    &&& chain_tail(v, head_of(v, k), walk_fuel(v)) == EOL
    &&& forall|i: int| 0 <= i < c.len() ==> (#[trigger] c[i]) % (pow2(k) as u64) == 0
    &&& forall|i: int| 0 <= i < c.len() ==> (#[trigger] c[i]) + pow2(k) <= v.size
    &&& forall|i: int| 0 <= i < c.len() - 1 ==> (#[trigger] c[i]) < c[i + 1]
    &&& forall|i: int|
        0 <= i < c.len() - 1 ==> (c[i + 1] - (#[trigger] c[i]) > pow2(k) || c[i] % (pow2(
            k + 1,
        ) as u64) != 0)
}

/// Soundness of the whole forest.
pub open spec fn lists_wf(v: AllocView) -> bool {
    forall|k: nat| 3 <= k <= v.last_idx ==> #[trigger] list_wf(v, k)
}

/// The bytes held by the free lists of orders 3 through `k`.
pub open spec fn free_bytes_upto(v: AllocView, k: nat) -> nat
    decreases k,
{
    if k < 3 {
        0
    } else {
        free_bytes_upto(v, (k - 1) as nat) + list_of(v, k).len() * pow2(k)
    }
}

/// What the audit holds the index to: a sound forest whose entries add up
/// exactly to the published free-byte count.
pub open spec fn audit_ok(v: AllocView) -> bool {
    lists_wf(v) && v.available == free_bytes_upto(v, v.last_idx)
}

/// Whether the block at `b` of `blk` bytes intersects the byte range
/// `[off, end]`.
pub open spec fn range_overlaps(b: u64, blk: nat, off: u64, end: u64) -> bool {
    let r = b + blk;
    (off >= b && off < r) || (end >= b && end < r) || (off <= b && end >= r)
}

/// Whether any free block of order `idx` or above intersects `[off, end]`.
pub open spec fn free_overlap(v: AllocView, idx: nat, off: u64, end: u64) -> bool {
    exists|k: nat, i: int|
        idx <= k <= v.last_idx && 0 <= i < list_of(v, k).len() && range_overlaps(
            #[trigger] list_of(v, k)[i],
            pow2(k),
            off,
            end,
        )
}

impl BuddyAlg {
    /// Walks the order-`k` free list and audits it: returns whether it is
    /// structurally sound, and how many blocks it holds.
    fn check_list(&self, k: usize) -> (r: (bool, u64))
        requires
            self.wf(),
            3 <= k <= 62,
        ensures
            r.0 == list_wf(self@, k as nat),
            r.0 ==> r.1 == list_of(self@, k as nat).len(),
    {
        let ghost v = self@;
        let ghost fuel0 = walk_fuel(v);
        let len64 = pow2_u64(k);
        let len2_64 = pow2_u64(k + 1);
        let size64 = self.size() as u64;
        let head = self.head_get(k);
        let mut curr = head;
        let mut fuel: usize = self.size() / 8 + 1;
        let mut prev: Option<u64> = None;
        let mut count: u64 = 0;
        let ghost mut walked: Seq<u64> = Seq::empty();
        proof {
            assert(walked + chain(v, curr, fuel as nat) =~= chain(v, head, fuel0));
            if v.last_idx < 62 {
                lemma_pow2_strictly_increases(v.last_idx, 62);
            }
            lemma2_to64_rest();
            assert(size64 <= 0x4000_0000_0000_0000u64);
            if (k as nat) < 62 {
                lemma_pow2_strictly_increases(k as nat, 62);
            }
            assert(1 <= len64 <= 0x4000_0000_0000_0000u64);
        }
        while curr != EOL && fuel > 0
            invariant
                self.wf(),
                v == self@,
                fuel0 == walk_fuel(v),
                size64 == v.size,
                size64 <= 0x4000_0000_0000_0000u64,
                1 <= len64 <= 0x4000_0000_0000_0000u64,
                len64 == pow2(k as nat),
                len2_64 == pow2(k as nat + 1),
                len2_64 >= 1,
                3 <= k <= 62,
                list_of(v, k as nat) == walked + chain(v, curr, fuel as nat),
                chain_tail(v, head_of(v, k as nat), fuel0) == chain_tail(v, curr, fuel as nat),
                count == walked.len(),
                fuel as nat + walked.len() == fuel0,
                (prev matches Some(p) ==> walked.len() > 0 && p == walked.last()),
                (prev is None ==> walked.len() == 0),
                forall|i: int|
                    0 <= i < walked.len() ==> (#[trigger] walked[i]) % (pow2(k as nat) as u64)
                        == 0,
                forall|i: int|
                    0 <= i < walked.len() ==> (#[trigger] walked[i]) + pow2(k as nat) <= v.size,
                forall|i: int|
                    0 <= i < walked.len() - 1 ==> (#[trigger] walked[i]) < walked[i + 1],
                forall|i: int|
                    0 <= i < walked.len() - 1 ==> (walked[i + 1] - (#[trigger] walked[i]) > pow2(
                        k as nat,
                    ) || walked[i] % (pow2(k as nat + 1) as u64) != 0),
            decreases fuel,
        {
            let b = curr;
            if b >= size64 || b % 8 != 0 {
                // the walk stops on a stray link: the list is corrupt
                return (false, 0);
            }
            proof {
                assert(chain(v, curr, fuel as nat) =~= seq![b] + chain(
                    v,
                    v.mem[(b / 8) as int],
                    (fuel - 1) as nat,
                ));
                assert(list_of(v, k as nat)[walked.len() as int] == b);
            }
            if b % len64 != 0 {
                return (false, 0);
            }
            if b + len64 > size64 {
                return (false, 0);
            }
            match prev {
                Some(p) => {
                    proof {
                        assert(list_of(v, k as nat)[walked.len() - 1] == walked.last());
                    }
                    if p >= b {
                        return (false, 0);
                    }
                    if b - p <= len64 && p % len2_64 == 0 {
                        return (false, 0);
                    }
                }
                None => {}
            }
            let e_next = self.word_get(b);
            proof {
                assert((walked + chain(v, curr, fuel as nat)) =~= (walked.push(b) + chain(
                    v,
                    e_next,
                    (fuel - 1) as nat,
                )));
                walked = walked.push(b);
            }
            prev = Some(b);
            count = count + 1;
            curr = e_next;
            fuel = fuel - 1;
        }
        if curr != EOL {
            // fuel ran out before the sentinel: the list cycles
            return (false, 0);
        }
        proof {
            assert(chain(v, curr, fuel as nat) =~= Seq::<u64>::empty());
            assert(list_of(v, k as nat) =~= walked);
        }
        (true, count)
    }

    /// Audits the whole index by bounded walks: every free list of an order
    /// up to `last_idx` is structurally sound — order-aligned offsets inside
    /// the arena, strictly ascending, acyclic, with no two consecutive
    /// buddies — and the free bytes they hold add up exactly to `available`.
    pub fn check(&self) -> (r: bool)
        requires
            self.wf(),
        ensures
            r == audit_ok(self@),
    {
        let ghost v = self@;
        let mut k: usize = 3;
        let last = self.last_idx();
        let size64 = self.size() as u64;
        let mut sum: u64 = 0;
        while k <= last
            invariant
                self.wf(),
                v == self@,
                3 <= k <= last + 1,
                last == v.last_idx,
                size64 == v.size,
                forall|j: nat| 3 <= j < k ==> #[trigger] list_wf(v, j),
                sum == free_bytes_upto(v, (k - 1) as nat),
                sum <= size64,
            decreases last + 1 - k,
        {
            let (ok, count) = self.check_list(k);
            if !ok {
                proof {
                    assert(!list_wf(v, k as nat));
                }
                return false;
            }
            let blk = pow2_u64(k);
            proof {
                if (k as nat) < v.last_idx {
                    lemma_pow2_strictly_increases(k as nat, v.last_idx);
                }
            }
            // more free bytes than the arena holds: the accounting cannot
            // come out right, whatever the remaining lists say
            if count > size64 / blk {
                proof {
                    assert(count * blk > size64) by (nonlinear_arith)
                        requires
                            count > size64 / blk,
                            blk > 0,
                    ;
                    lemma_free_bytes_mono(v, k as nat, v.last_idx);
                    assert(free_bytes_upto(v, k as nat) > v.size);
                }
                return false;
            }
            proof {
                assert(count * blk <= size64) by (nonlinear_arith)
                    requires
                        count <= size64 / blk,
                        blk > 0,
                ;
            }
            let bytes = count * blk;
            if sum > size64 - bytes {
                proof {
                    lemma_free_bytes_mono(v, k as nat, v.last_idx);
                    assert(free_bytes_upto(v, k as nat) > v.size);
                }
                return false;
            }
            sum = sum + bytes;
            k = k + 1;
        }
        proof {
            assert(free_bytes_upto(v, v.last_idx) == sum);
        }
        let avail = self.available();
        (avail as u64) == sum
    }

    /// The free blocks of order `k`, oldest offset first, as the bounded
    /// walk reads them.
    pub fn free_list(&self, k: usize) -> (r: Vec<u64>)
        requires
            self.wf(),
            k < 64,
        ensures
            r@ == list_of(self@, k as nat),
    {
        let ghost v = self@;
        let head = self.head_get(k);
        let mut curr = head;
        let mut fuel: usize = self.size() / 8 + 1;
        let size64 = self.size() as u64;
        let mut out: Vec<u64> = Vec::new();
        proof {
            assert(out@ + chain(v, curr, fuel as nat) =~= list_of(v, k as nat));
        }
        while curr != EOL && fuel > 0
            invariant
                self.wf(),
                v == self@,
                size64 == v.size,
                list_of(v, k as nat) == out@ + chain(v, curr, fuel as nat),
            decreases fuel,
        {
            let b = curr;
            if b >= size64 || b % 8 != 0 {
                // stray link: the walk (and the abstract chain) end here
                proof {
                    assert(chain(v, curr, fuel as nat) =~= Seq::<u64>::empty());
                    assert(chain(v, EOL, (fuel - 1) as nat) =~= Seq::<u64>::empty());
                }
                curr = EOL;
                fuel = fuel - 1;
            } else {
                let e_next = self.word_get(b);
                proof {
                    assert((out@ + chain(v, curr, fuel as nat)) =~= (out@.push(b) + chain(
                        v,
                        e_next,
                        (fuel - 1) as nat,
                    )));
                }
                out.push(b);
                curr = e_next;
                fuel = fuel - 1;
            }
        }
        proof {
            assert(chain(v, curr, fuel as nat) =~= Seq::<u64>::empty());
            assert(list_of(v, k as nat) =~= out@);
        }
        out
    }

    /// Determines if the byte range `[off, off + len)` is allocated: `true`
    /// conservatively while an operation is in flight, otherwise exactly
    /// when no free block of a covering order intersects the range.
    pub fn is_allocated(&self, off: u64, len: usize) -> (r: bool)
        requires
            self.wf(),
            1 <= len,
            len as nat <= 0x8000_0000_0000_0000,
            off + len <= u64::MAX,
        ensures
            r == (self@.aux.len() > 0 || !free_overlap(
                self@,
                idx_of(len as nat),
                off,
                (off + len - 1) as u64,
            )),
    {
        let ghost v = self@;
        if self.aux_len() > 0 {
            // an operation is in flight: report conservatively
            return true;
        }
        proof {
            lemma2_to64_rest();
            lemma_idx_of_facts(len as nat);
        }
        let end = off + (len as u64) - 1;
        let idx = get_idx(len);
        let last = self.last_idx();
        let ghost idx0 = idx_of(len as nat);
        if idx > last {
            proof {
                lemma_no_overlap_empty_range(v, idx0, off, end);
            }
            return true;
        }
        let size64 = self.size() as u64;
        proof {
            if v.last_idx < 62 {
                lemma_pow2_strictly_increases(v.last_idx, 62);
            }
            lemma2_to64_rest();
            assert(size64 <= 0x4000_0000_0000_0000u64);
        }
        let mut k = idx;
        while k <= last
            invariant
                self.wf(),
                v == self@,
                idx0 == idx_of(len as nat),
                3 <= idx0,
                v.aux.len() == 0,
                idx0 <= k <= last + 1,
                last == v.last_idx,
                size64 == v.size,
                size64 <= 0x4000_0000_0000_0000u64,
                end == off + len - 1,
                forall|kk: nat, i: int|
                    idx0 <= kk < k && 0 <= i < list_of(v, kk).len() ==> !range_overlaps(
                        #[trigger] list_of(v, kk)[i],
                        pow2(kk),
                        off,
                        end,
                    ),
            decreases last + 1 - k,
        {
            let blk = pow2_u64(k);
            proof {
                if (k as nat) < v.last_idx {
                    lemma_pow2_strictly_increases(k as nat, v.last_idx);
                }
            }
            let head = self.head_get(k);
            let mut curr = head;
            let mut fuel: usize = self.size() / 8 + 1;
            let ghost mut done: Seq<u64> = Seq::empty();
            proof {
                assert(done + chain(v, curr, fuel as nat) =~= list_of(v, k as nat));
            }
            while curr != EOL && fuel > 0
                invariant
                    self.wf(),
                    v == self@,
                    v.aux.len() == 0,
                    size64 == v.size,
                    size64 <= 0x4000_0000_0000_0000u64,
                    blk == pow2(k as nat),
                    blk <= size64,
                    3 <= k < 64,
                    idx0 == idx_of(len as nat),
                    idx0 <= k as nat <= v.last_idx,
                    end == off + len - 1,
                    list_of(v, k as nat) == done + chain(v, curr, fuel as nat),
                    forall|i: int|
                        0 <= i < done.len() ==> !range_overlaps(
                            #[trigger] done[i],
                            pow2(k as nat),
                            off,
                            end,
                        ),
                decreases fuel,
            {
                let b = curr;
                if b >= size64 || b % 8 != 0 {
                    // stray link: the abstract chain ends here too
                    proof {
                        assert(chain(v, curr, fuel as nat) =~= Seq::<u64>::empty());
                        assert(chain(v, EOL, (fuel - 1) as nat) =~= Seq::<u64>::empty());
                    }
                    curr = EOL;
                    fuel = fuel - 1;
                } else {
                    proof {
                        assert(chain(v, curr, fuel as nat) =~= seq![b] + chain(
                            v,
                            v.mem[(b / 8) as int],
                            (fuel - 1) as nat,
                        ));
                        assert(list_of(v, k as nat)[done.len() as int] == b);
                    }
                    let rr = b + blk;
                    if (off >= b && off < rr) || (end >= b && end < rr) || (off <= b && end >= rr)
                    {
                        proof {
                            assert(range_overlaps(b, pow2(k as nat), off, end));
                            assert(free_overlap(v, idx0, off, end));
                        }
                        return false;
                    }
                    let e_next = self.word_get(b);
                    proof {
                        assert((done + chain(v, curr, fuel as nat)) =~= (done.push(b) + chain(
                            v,
                            e_next,
                            (fuel - 1) as nat,
                        )));
                        done = done.push(b);
                    }
                    curr = e_next;
                    fuel = fuel - 1;
                }
            }
            proof {
                assert(chain(v, curr, fuel as nat) =~= Seq::<u64>::empty());
                assert(list_of(v, k as nat) =~= done);
            }
            k = k + 1;
        }
        proof {
            assert(!free_overlap(v, idx0, off, end)) by {
                if free_overlap(v, idx0, off, end) {
                    let (kk, i) = choose|kk: nat, i: int|
                        idx0 <= kk <= v.last_idx && 0 <= i < list_of(v, kk).len()
                            && range_overlaps(#[trigger] list_of(v, kk)[i], pow2(kk), off, end);
                    assert(!range_overlaps(list_of(v, kk)[i], pow2(kk), off, end));
                }
            }
        }
        true
    }
}

/// Every free offset of the forest, in order of orders.
pub open spec fn forest_concat(v: AllocView, k: nat) -> Seq<u64>
    decreases k,
{
    if k < 3 {
        Seq::empty()
    } else {
        forest_concat(v, (k - 1) as nat) + list_of(v, k)
    }
}

/// Whether every offset appears on exactly one free list, once.
pub open spec fn forest_distinct(v: AllocView) -> bool {
    forall|i: int, j: int|
        0 <= i < j < forest_concat(v, v.last_idx).len() ==> forest_concat(v, v.last_idx)[i]
            != forest_concat(v, v.last_idx)[j]
}

impl BuddyAlg {
    /// Audits cross-list uniqueness by bounded walks: every offset the
    /// forest holds appears on exactly one free list, and only once there.
    pub fn check_unique(&self) -> (r: bool)
        requires
            self.wf(),
        ensures
            r == forest_distinct(self@),
    {
        let ghost v = self@;
        let mut all: Vec<u64> = Vec::new();
        let mut k: usize = 3;
        let last = self.last_idx();
        proof {
            assert(all@ =~= forest_concat(v, 2));
        }
        while k <= last
            invariant
                self.wf(),
                v == self@,
                3 <= k <= last + 1,
                last == v.last_idx,
                all@ == forest_concat(v, (k - 1) as nat),
            decreases last + 1 - k,
        {
            let mut l = self.free_list(k);
            all.append(&mut l);
            k = k + 1;
        }
        let n = all.len();
        let mut i: usize = 0;
        while i < n
            invariant
                v == self@,
                n == all@.len(),
                i <= n,
                all@ == forest_concat(v, v.last_idx),
                forall|a: int, b: int| 0 <= a < b < n && a < i ==> all@[a] != all@[b],
            decreases n - i,
        {
            let x = all[i];
            let mut j: usize = i + 1;
            while j < n
                invariant
                    v == self@,
                    n == all@.len(),
                    i < n,
                    i + 1 <= j <= n,
                    x == all@[i as int],
                    all@ == forest_concat(v, v.last_idx),
                    forall|b: int| i < b < j ==> all@[i as int] != all@[b],
                decreases n - j,
            {
                if all[j] == x {
                    return false;
                }
                j = j + 1;
            }
            i = i + 1;
        }
        true
    }
}

/// Later orders only add free bytes to the running total.
proof fn lemma_free_bytes_mono(v: AllocView, a: nat, b: nat)
    requires
        a <= b,
    ensures
        free_bytes_upto(v, a) <= free_bytes_upto(v, b),
    decreases b,
{
    if a < b && b >= 3 {
        lemma_free_bytes_mono(v, a, (b - 1) as nat);
    }
}

/// No order serves a request whose order outgrows the arena, so nothing
/// free can overlap it.
proof fn lemma_no_overlap_empty_range(v: AllocView, idx: nat, off: u64, end: u64)
    requires
        idx > v.last_idx,
    ensures
        !free_overlap(v, idx, off, end),
{
    if free_overlap(v, idx, off, end) {
        let (kk, i) = choose|kk: nat, i: int|
            idx <= kk <= v.last_idx && 0 <= i < list_of(v, kk).len() && range_overlaps(
                #[trigger] list_of(v, kk)[i],
                pow2(kk),
                off,
                end,
            );
    }
}

} // verus!
