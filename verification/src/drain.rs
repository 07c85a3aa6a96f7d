//! The two-phase commit protocol over the staged change set.
//!
//! A staged entry `(off, val)` is an absolute word write: when drained it
//! stores `val` into the durable word at byte offset `off`, which is either a
//! free-list head inside the index or the first 8 bytes of a block in the
//! arena.  The drain protocol commits the whole staged set atomically:
//!
//! 1. persist the staged rings (identity in this model),
//! 2. set `aux_valid` — the commit point,
//! 3. replay the auxiliary entries,
//! 4. clear the auxiliary ring,
//! 5. replay the user word log,
//! 6. clear the user word log,
//! 7. write `available` from its staged value,
//! 8. clear `aux_valid`.
//!
//! Because every entry is an absolute store, replaying is idempotent: a crash
//! at any boundary after the commit point leaves a state from which recovery
//! reaches exactly the completed-drain state, and a crash before the commit
//! point leaves the index untouched.  [`BuddyAlg::drain_aux_steps`] runs a
//! prefix of the protocol so that those crash states can be exercised, and
//! [`lemma_recover_after_commit`] / [`lemma_recover_before_commit`] prove the
//! two halves of that claim.

use vstd::prelude::*;
use vstd::arithmetic::power2::{pow2, lemma_pow2_strictly_increases};

use crate::buddy::{AllocView, BuddyAlg, free_stage, idx_of, lemma_idx_of_facts};

verus! {

/// Whether every drop-on-failure entry can be deallocated in order, starting
/// from `avail` free bytes: offsets aligned and in bounds, lengths sensible,
/// and the freed bytes never exceeding the region.
pub open spec fn drops_ok(avail: nat, size: nat, es: Seq<(u64, usize)>) -> bool
    decreases es.len(),
{
    es.len() == 0 || {
        let off = es[0].0;
        let len = es[0].1;
        &&& 1 <= len <= size
        &&& off % 8 == 0
        &&& off + pow2(idx_of(len as nat)) <= size
        &&& avail + pow2(idx_of(len as nat)) <= size
        &&& drops_ok(avail + pow2(idx_of(len as nat)), size, es.drop_first())
    }
}

/// The bytes the drop-on-failure entries give back when replayed.
pub open spec fn drop_sum(es: Seq<(u64, usize)>) -> nat
    decreases es.len(),
{
    if es.len() == 0 {
        0
    } else {
        pow2(idx_of(es[0].1 as nat)) + drop_sum(es.drop_first())
    }
}

/// One drop-on-failure replay step: the deallocation of `(off, len)` is
/// staged, committed by a drain, and the entry leaves the log.
pub open spec fn drop_step(v: AllocView, off: u64, len: usize) -> AllocView {
    let staged = AllocView {
        aux: v.aux + free_stage(v.mem, v.size, v.last_idx, idx_of(len as nat), off, v.available),
        available_log: (v.available + pow2(idx_of(len as nat))) as nat,
        ..v
    };
    AllocView { drop_log: v.drop_log.drop_first(), ..drain_spec(staged) }
}

/// The drop-on-failure entries `es` replayed in order over `v`.
pub open spec fn drops_fold(v: AllocView, es: Seq<(u64, usize)>) -> AllocView
    decreases es.len(),
{
    if es.len() == 0 {
        v
    } else {
        drops_fold(drop_step(v, es[0].0, es[0].1), es.drop_first())
    }
}

/// Folding one more entry is one more replay step at the end.
proof fn lemma_drops_fold_snoc(v: AllocView, es: Seq<(u64, usize)>, e: (u64, usize))
    ensures
        drops_fold(v, es.push(e)) == drop_step(drops_fold(v, es), e.0, e.1),
    decreases es.len(),
{
    let se = es.push(e);
    assert(se.len() == es.len() + 1);
    assert(drops_fold(v, se) == drops_fold(drop_step(v, se[0].0, se[0].1), se.drop_first()));
    if es.len() == 0 {
        assert(se[0] == e);
        assert(se.drop_first() =~= Seq::<(u64, usize)>::empty());
        assert(drops_fold(drop_step(v, e.0, e.1), se.drop_first()) == drop_step(v, e.0, e.1));
    } else {
        assert(se[0] == es[0]);
        assert(se.drop_first() =~= es.drop_first().push(e));
        lemma_drops_fold_snoc(drop_step(v, es[0].0, es[0].1), es.drop_first(), e);
    }
}

/// Each replay step removes exactly its entry from the log.
proof fn lemma_drops_fold_log(v: AllocView, es: Seq<(u64, usize)>)
    requires
        es.len() <= v.drop_log.len(),
    ensures
        drops_fold(v, es).drop_log == v.drop_log.skip(es.len() as int),
    decreases es.len(),
{
    if es.len() == 0 {
        assert(v.drop_log.skip(0) =~= v.drop_log);
    } else {
        let v1 = drop_step(v, es[0].0, es[0].1);
        assert(v1.drop_log == v.drop_log.drop_first());
        lemma_drops_fold_log(v1, es.drop_first());
        assert(v.drop_log.drop_first().skip(es.len() - 1) =~= v.drop_log.skip(es.len() as int));
    }
}

/// Whether `off` addresses a word of the modelled region.
pub open spec fn slot_ok(mem: Seq<u64>, off: u64) -> bool {
    off % 8 == 0 && (off / 8) < mem.len()
}

/// One staged write applied to the durable words; out-of-range entries
/// store nothing.
pub open spec fn apply_one(mem: Seq<u64>, e: (u64, u64)) -> Seq<u64> {
    if slot_ok(mem, e.0) {
        mem.update((e.0 / 8) as int, e.1)
    } else {
        mem
    }
}

/// A staged change set applied in push order.
pub open spec fn apply_log(mem: Seq<u64>, es: Seq<(u64, u64)>) -> Seq<u64>
    decreases es.len(),
{
    if es.len() == 0 {
        mem
    } else {
        apply_log(apply_one(mem, es[0]), es.drop_first())
    }
}

/// Whether some entry of `es` addresses word `i`.
pub open spec fn touches(es: Seq<(u64, u64)>, i: int) -> bool {
    exists|j: int| 0 <= j < es.len() && es[j].0 % 8 == 0 && (es[j].0 / 8) as int == i
}

/// Applying a change set preserves the word count.
pub proof fn lemma_apply_log_len(mem: Seq<u64>, es: Seq<(u64, u64)>)
    ensures
        apply_log(mem, es).len() == mem.len(),
    decreases es.len(),
{
    if es.len() > 0 {
        lemma_apply_log_len(apply_one(mem, es[0]), es.drop_first());
    }
}

/// Applying a change set appended with one more write is applying the set,
/// then the write.
pub proof fn lemma_apply_log_snoc(mem: Seq<u64>, es: Seq<(u64, u64)>, e: (u64, u64))
    ensures
        apply_log(mem, es.push(e)) == apply_one(apply_log(mem, es), e),
    decreases es.len(),
{
    let se = es.push(e);
    assert(se.len() == es.len() + 1);
    assert(apply_log(mem, se) == apply_log(apply_one(mem, se[0]), se.drop_first()));
    if es.len() == 0 {
        assert(se[0] == e);
        assert(se.drop_first() =~= Seq::<(u64, u64)>::empty());
        assert(apply_log(apply_one(mem, e), se.drop_first()) == apply_one(mem, e));
    } else {
        assert(se[0] == es[0]);
        assert(se.drop_first() =~= es.drop_first().push(e));
        lemma_apply_log_snoc(apply_one(mem, es[0]), es.drop_first(), e);
    }
}

/// Words that no entry addresses keep their value.
pub proof fn lemma_apply_log_frame(mem: Seq<u64>, es: Seq<(u64, u64)>)
    ensures
        forall|i: int|
            0 <= i < mem.len() && !touches(es, i) ==> apply_log(mem, es)[i] == mem[i],
    decreases es.len(),
{
    if es.len() > 0 {
        lemma_apply_log_frame(apply_one(mem, es[0]), es.drop_first());
        assert forall|i: int|
            0 <= i < mem.len() && !touches(es, i) implies apply_log(mem, es)[i] == mem[i] by {
            assert(!touches(es.drop_first(), i)) by {
                if touches(es.drop_first(), i) {
                    let j = choose|j: int|
                        0 <= j < es.drop_first().len() && es.drop_first()[j].0 % 8 == 0
                            && (es.drop_first()[j].0 / 8) as int == i;
                    assert(es[j + 1] == es.drop_first()[j]);
                }
            }
            assert(apply_one(mem, es[0])[i] == mem[i]) by {
                if es[0].0 % 8 == 0 && (es[0].0 / 8) as int == i {
                    assert(touches(es, i));
                }
            }
        }
    }
}

/// Two regions that agree on every word the change set leaves alone end up
/// equal once the set is applied.
pub proof fn lemma_apply_log_agree(m1: Seq<u64>, m2: Seq<u64>, es: Seq<(u64, u64)>)
    requires
        m1.len() == m2.len(),
        forall|i: int| 0 <= i < m1.len() && !touches(es, i) ==> m1[i] == m2[i],
    ensures
        apply_log(m1, es) == apply_log(m2, es),
    decreases es.len(),
{
    if es.len() == 0 {
        assert(m1 =~= m2) by {
            assert forall|i: int| 0 <= i < m1.len() implies m1[i] == m2[i] by {
                assert(!touches(es, i));
            }
        }
    } else {
        let a1 = apply_one(m1, es[0]);
        let a2 = apply_one(m2, es[0]);
        assert forall|i: int|
            0 <= i < a1.len() && !touches(es.drop_first(), i) implies a1[i] == a2[i] by {
            if es[0].0 % 8 == 0 && (es[0].0 / 8) as int == i {
            } else {
                assert(!touches(es, i)) by {
                    if touches(es, i) {
                        let j = choose|j: int|
                            0 <= j < es.len() && es[j].0 % 8 == 0 && (es[j].0 / 8) as int == i;
                        assert(j > 0);
                        assert(es.drop_first()[j - 1] == es[j]);
                        assert(touches(es.drop_first(), i));
                    }
                }
                assert(a1[i] == m1[i] && a2[i] == m2[i]);
            }
        }
        lemma_apply_log_agree(a1, a2, es.drop_first());
    }
}

/// Replaying a change set over its own result changes nothing: every entry
/// is an absolute store.
pub proof fn lemma_apply_log_idem(mem: Seq<u64>, es: Seq<(u64, u64)>)
    ensures
        apply_log(apply_log(mem, es), es) == apply_log(mem, es),
    decreases es.len(),
{
    lemma_apply_log_len(mem, es);
    lemma_apply_log_frame(mem, es);
    lemma_apply_log_agree(apply_log(mem, es), mem, es);
}

/// The state after the first `steps` protocol actions of a drain.
pub open spec fn drain_steps(v: AllocView, steps: nat) -> AllocView {
    let v1 = if steps >= 1 {
        AllocView { aux_valid: true, ..v }
    } else {
        v
    };
    let v2 = if steps >= 2 {
        AllocView { mem: apply_log(v1.mem, v1.aux), ..v1 }
    } else {
        v1
    };
    let v3 = if steps >= 3 {
        AllocView { aux: Seq::empty(), ..v2 }
    } else {
        v2
    };
    let v4 = if steps >= 4 {
        AllocView { mem: apply_log(v3.mem, v3.log64), ..v3 }
    } else {
        v3
    };
    let v5 = if steps >= 5 {
        AllocView { log64: Seq::empty(), ..v4 }
    } else {
        v4
    };
    let v6 = if steps >= 6 {
        AllocView { available: v5.available_log, ..v5 }
    } else {
        v5
    };
    if steps >= 7 {
        AllocView { aux_valid: false, ..v6 }
    } else {
        v6
    }
}

/// The state after a completed drain.
pub open spec fn drain_spec(v: AllocView) -> AllocView {
    drain_steps(v, 7)
}

/// The state recovery reaches when the drop-on-failure log is empty: a
/// committed change set is drained to completion, an uncommitted one is
/// discarded with the index untouched.
pub open spec fn recover_spec(v: AllocView) -> AllocView {
    if v.aux_valid {
        drain_spec(v)
    } else {
        AllocView { aux: Seq::empty(), log64: Seq::empty(), ..v }
    }
}

/// Crash consistency, at or after the commit point: stopping a drain at any
/// step boundary once `aux_valid` is set and then recovering produces
/// exactly the completed-drain state.
pub proof fn lemma_recover_after_commit(v: AllocView, steps: nat)
    requires
        1 <= steps,
    ensures
        recover_spec(drain_steps(v, steps)) == drain_spec(v),
{
    lemma_apply_log_idem(v.mem, v.aux);
    if steps >= 4 {
        lemma_apply_log_idem(apply_log(v.mem, v.aux), v.log64);
    }
    assert(recover_spec(drain_steps(v, steps)) == drain_spec(v));
}

/// Crash consistency, before the commit point: recovering from a state whose
/// change set was staged but never committed discards the staged entries and
/// leaves the index exactly as it was before the operation.
pub proof fn lemma_recover_before_commit(v: AllocView)
    requires
        !v.aux_valid,
    ensures
        recover_spec(drain_steps(v, 0)) == (AllocView {
            aux: Seq::<(u64, u64)>::empty(),
            log64: Seq::<(u64, u64)>::empty(),
            ..v
        }),
        recover_spec(drain_steps(v, 0)).mem == v.mem,
        recover_spec(drain_steps(v, 0)).available == v.available,
{
}

impl BuddyAlg {
    /// Stores one staged write into the modelled region; writes outside the
    /// region store nothing.
    fn apply_entry(&mut self, off: u64, val: u64)
        requires
            old(self).wf(),
        ensures
            final(self).wf(),
            final(self)@ == (AllocView { mem: apply_one(old(self)@.mem, (off, val)), ..old(self)@ }),
    {
        if off % 8 == 0 && off / 8 < self.mem_len() as u64 {
            self.mem_set((off / 8) as usize, val);
        }
    }

    /// Replays the auxiliary ring onto the region in push order.
    fn replay_aux(&mut self)
        requires
            old(self).wf(),
        ensures
            final(self).wf(),
            final(self)@ == (AllocView { mem: apply_log(old(self)@.mem, old(self)@.aux), ..old(self)@ }),
    {
        let n = self.aux_len();
        let mut i: usize = 0;
        proof {
            assert(old(self)@.aux.take(0) =~= Seq::<(u64, u64)>::empty());
        }
        while i < n
            invariant
                self.wf(),
                i <= n,
                n == old(self)@.aux.len(),
                self@ == (AllocView {
                    mem: apply_log(old(self)@.mem, old(self)@.aux.take(i as int)),
                    ..old(self)@
                }),
            decreases n - i,
        {
            let e = self.aux_get(i);
            self.apply_entry(e.0, e.1);
            proof {
                assert(old(self)@.aux.take(i + 1) =~= old(self)@.aux.take(i as int).push(
                    old(self)@.aux[i as int],
                ));
                lemma_apply_log_snoc(
                    old(self)@.mem,
                    old(self)@.aux.take(i as int),
                    old(self)@.aux[i as int],
                );
            }
            i = i + 1;
        }
        proof {
            assert(old(self)@.aux.take(n as int) =~= old(self)@.aux);
        }
    }

    /// Replays the user word log onto the region in push order.
    fn replay_log64(&mut self)
        requires
            old(self).wf(),
        ensures
            final(self).wf(),
            final(self)@ == (AllocView {
                mem: apply_log(old(self)@.mem, old(self)@.log64),
                ..old(self)@
            }),
    {
        let n = self.log64_len();
        let mut i: usize = 0;
        proof {
            assert(old(self)@.log64.take(0) =~= Seq::<(u64, u64)>::empty());
        }
        while i < n
            invariant
                self.wf(),
                i <= n,
                n == old(self)@.log64.len(),
                self@ == (AllocView {
                    mem: apply_log(old(self)@.mem, old(self)@.log64.take(i as int)),
                    ..old(self)@
                }),
            decreases n - i,
        {
            let e = self.log64_get(i);
            self.apply_entry(e.0, e.1);
            proof {
                assert(old(self)@.log64.take(i + 1) =~= old(self)@.log64.take(i as int).push(
                    old(self)@.log64[i as int],
                ));
                lemma_apply_log_snoc(
                    old(self)@.mem,
                    old(self)@.log64.take(i as int),
                    old(self)@.log64[i as int],
                );
            }
            i = i + 1;
        }
        proof {
            assert(old(self)@.log64.take(n as int) =~= old(self)@.log64);
        }
    }

    /// Runs the first `steps` state-changing actions of the drain protocol
    /// and stops, leaving the state a crash would leave at that boundary:
    /// 1 sets the commit flag, 2 replays the auxiliary entries, 3 clears
    /// them, 4 replays the user word log, 5 clears it, 6 writes `available`,
    /// 7 clears the commit flag (a completed drain).  The persists and
    /// fences between them order stores and are identity here.
    pub fn drain_aux_steps(&mut self, steps: usize)
        requires
            old(self).wf(),
        ensures
            final(self).wf(),
            final(self)@ == drain_steps(old(self)@, steps as nat),
    {
        if steps >= 1 {
            self.set_aux_valid(true);
        }
        if steps >= 2 {
            self.replay_aux();
        }
        if steps >= 3 {
            self.aux_clear();
        }
        if steps >= 4 {
            self.replay_log64();
        }
        if steps >= 5 {
            self.log64_clear();
        }
        if steps >= 6 {
            self.set_available_from_log();
        }
        if steps >= 7 {
            self.set_aux_valid(false);
        }
    }

    /// Materializes the staged changes and clears the drop-on-failure log:
    /// the allocations this operation made are confirmed and kept.
    pub fn perform(&mut self)
        requires
            old(self).wf(),
        ensures
            final(self).wf(),
            final(self)@ == (AllocView {
                drop_log: Seq::<(u64, usize)>::empty(),
                ..drain_spec(old(self)@)
            }),
    {
        self.drain_aux();
        self.drop_log_clear();
    }

    /// Recovery, run right after a pool is reopened.  A committed change set
    /// (`aux_valid` still holding) is drained to completion, which is safe
    /// because every staged entry is an absolute store; an uncommitted one is
    /// discarded with the index untouched.  Then every drop-on-failure entry
    /// is deallocated and committed one at a time, rolling back allocations
    /// whose owner never confirmed success; removing each entry only after
    /// its commit keeps a re-crashed recovery idempotent.
    pub fn recover(&mut self)
        requires
            old(self).wf(),
            drops_ok(
                if old(self)@.aux_valid {
                    old(self)@.available_log
                } else {
                    old(self)@.available
                },
                old(self)@.size,
                old(self)@.drop_log,
            ),
        ensures
            final(self).wf(),
            final(self)@.aux.len() == 0,
            final(self)@.log64.len() == 0,
            final(self)@.drop_log.len() == 0,
            !final(self)@.aux_valid,
            final(self)@.size == old(self)@.size,
            final(self)@.last_idx == old(self)@.last_idx,
            final(self)@.foot_print == old(self)@.foot_print,
            final(self)@.available == (if old(self)@.aux_valid {
                old(self)@.available_log
            } else {
                old(self)@.available
            }) + drop_sum(old(self)@.drop_log),
            old(self)@.drop_log.len() == 0 ==> final(self)@ == recover_spec(old(self)@),
            final(self)@ == (AllocView {
                drop_log: Seq::<(u64, usize)>::empty(),
                ..drops_fold(recover_spec(old(self)@), old(self)@.drop_log)
            }),
    {
        // the in-region mutex is reinitialized at this point in a real pool;
        // its durable bytes carry no meaning and are not modelled
        if self.get_aux_valid() {
            // crashed while draining: finish the committed change set
            self.drain_aux();
        } else {
            // whatever sits in the staged rings was never committed
            self.aux_clear();
            self.log64_clear();
        }
        let ghost base = self@;
        proof {
            assert(base == recover_spec(old(self)@));
        }
        let ghost mut k: int = 0;
        while self.drop_log_len() > 0
            invariant
                self.wf(),
                self@.aux.len() == 0,
                self@.log64.len() == 0,
                !self@.aux_valid,
                self@.size == base.size,
                self@.last_idx == base.last_idx,
                self@.foot_print == base.foot_print,
                drops_ok(self@.available, self@.size, self@.drop_log),
                self@.available + drop_sum(self@.drop_log) == base.available + drop_sum(
                    base.drop_log,
                ),
                0 <= k <= base.drop_log.len(),
                self@ == drops_fold(base, base.drop_log.take(k)),
                self@.drop_log == base.drop_log.skip(k),
            decreases self@.drop_log.len(),
        {
            let e = self.drop_log_get(0);
            proof {
                lemma_pow2_strictly_increases(self@.last_idx, 63);
                lemma_idx_of_facts(e.1 as nat);
                assert(e == base.drop_log[k]);
            }
            let ghost pre = self@;
            self.dealloc_impl(e.0, e.1, false);
            self.drain_aux();
            self.drop_log_pop();
            proof {
                assert(self@ == drop_step(pre, e.0, e.1));
                assert(base.drop_log.take(k + 1) =~= base.drop_log.take(k).push(
                    base.drop_log[k],
                ));
                lemma_drops_fold_snoc(base, base.drop_log.take(k), base.drop_log[k]);
                lemma_drops_fold_log(base, base.drop_log.take(k + 1));
                k = k + 1;
                assert(self@.drop_log =~= base.drop_log.skip(k));
            }
        }
        proof {
            assert(base.drop_log.take(base.drop_log.len() as int) =~= base.drop_log);
        }
        self.drop_log_clear();
        proof {
            assert(self@.drop_log =~= Seq::<(u64, usize)>::empty());
            if old(self)@.drop_log.len() == 0 {
                assert(self@.drop_log =~= old(self)@.drop_log);
                assert(self@ == recover_spec(old(self)@));
            }
        }
    }

    /// Drains the auxiliary list of changes.
    ///
    /// Allocation and deallocation fill the auxiliary ring with the word
    /// writes their change needs, then call this function to materialize
    /// them.  The changes are not durable until the commit flag persists;
    /// recovery finishes a committed drain and discards an uncommitted one.
    pub fn drain_aux(&mut self)
        requires
            old(self).wf(),
        ensures
            final(self).wf(),
            final(self)@ == drain_spec(old(self)@),
            final(self)@.mem == apply_log(
                apply_log(old(self)@.mem, old(self)@.aux),
                old(self)@.log64,
            ),
            final(self)@.aux.len() == 0,
            final(self)@.log64.len() == 0,
            final(self)@.available == old(self)@.available_log,
            !final(self)@.aux_valid,
    {
        self.drain_aux_steps(7);
    }
}

} // verus!
