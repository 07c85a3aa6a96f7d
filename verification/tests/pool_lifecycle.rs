use crndm::pool::{Pool, PoolError, POOL_MAGIC};
use crndm::marker::AssertTxInSafe;
use crndm::ring::Ring;

const MIB: usize = 1 << 20;

#[test]
fn format_open_close_open_round_trip() {
    let mut p = Pool::format(MIB);
    assert_eq!(p.hdr.magic_number, POOL_MAGIC);
    assert_eq!(p.hdr.gen, 1);
    let fresh: Vec<Vec<u64>> = (0..64).map(|k| p.alg.free_list(k)).collect();

    assert_eq!(p.open(), Ok(2));
    assert_eq!(p.close(), Ok(()));
    assert_eq!(p.open(), Ok(3));

    // the index is exactly the freshly formatted one; only `gen` moved
    let again: Vec<Vec<u64>> = (0..64).map(|k| p.alg.free_list(k)).collect();
    assert_eq!(fresh, again);
    assert_eq!(p.alg.available(), MIB);
    assert_eq!(p.hdr.gen, 3);
    assert_eq!(p.hdr.flags, 0);
    assert!(p.alg.check());
}

#[test]
fn double_open_is_refused() {
    let mut p = Pool::format(MIB);
    assert_eq!(p.open(), Ok(2));
    assert_eq!(p.open(), Err(PoolError::DoubleOpen));
    assert_eq!(p.close(), Ok(()));
    assert_eq!(p.close(), Err(PoolError::AlreadyClosed));
}

#[test]
fn foreign_magic_number_is_refused() {
    let mut p = Pool::format(MIB);
    p.hdr.magic_number = 0xdead_beef;
    let gen = p.hdr.gen;
    assert_eq!(p.open(), Err(PoolError::InvalidPool));
    assert_eq!(p.hdr.gen, gen);
    assert!(!p.is_open);
}

#[test]
fn open_runs_recovery_over_a_crashed_drain() {
    let mut p = Pool::format(MIB);
    assert_eq!(p.alg.alloc_impl(8, false), 0);
    // crash right after the commit point, then reopen
    p.alg.drain_aux_steps(1);
    assert_eq!(p.open(), Ok(2));
    assert_eq!(p.alg.available(), MIB - 8);
    assert!(p.alg.is_allocated(0, 8));
    assert!(p.alg.check());
}

#[test]
fn has_root_reads_the_flag_bit() {
    let mut p = Pool::format(MIB);
    assert!(!p.hdr.has_root());
    p.hdr.flags |= 1;
    assert!(p.hdr.has_root());
}

#[test]
fn bounded_ring_fails_pushes_when_full() {
    let mut r: Ring<(u64, u64)> = Ring::new(2);
    assert!(r.empty());
    assert!(r.push((1, 10)));
    assert!(r.push((2, 20)));
    assert!(!r.push((3, 30)));
    assert_eq!(r.len(), 2);
    assert_eq!(*r.get(0), (1, 10));
    assert_eq!(r.pop_front(), Some((1, 10)));
    assert_eq!(r.pop_front(), Some((2, 20)));
    assert_eq!(r.pop_front(), None);
    assert!(r.push((4, 40)));
    r.clear();
    assert!(r.empty());
}

#[test]
fn assert_tx_in_safe_hands_the_value_through() {
    let mut w = AssertTxInSafe(41u64);
    assert_eq!(*w.deref(), 41);
    *w.deref_mut() += 1;
    assert_eq!(*w.deref(), 42);
    assert_eq!(w.0, 42);
}

#[test]
fn index_parts_round_trip_preserves_the_state() {
    let mut p = Pool::format(MIB);
    assert_eq!(p.open(), Ok(2));
    assert_eq!(p.alg.alloc_impl(8, true), 0);
    let before: Vec<Vec<u64>> = (0..64).map(|k| p.alg.free_list(k)).collect();
    let avail = p.alg.available();

    let parts = p.alg.to_parts();
    let rebuilt = crndm::BuddyAlg::from_parts(parts).expect("sound parts");
    let after: Vec<Vec<u64>> = (0..64).map(|k| rebuilt.free_list(k)).collect();
    assert_eq!(before, after);
    assert_eq!(rebuilt.available(), avail);
    assert_eq!(rebuilt.size(), MIB);
    assert!(rebuilt.check());
    assert!(rebuilt.check_unique());
}

#[test]
fn from_parts_rejects_a_wrong_geometry() {
    let p = Pool::format(MIB);
    let mut parts = p.alg.to_parts();
    parts.last_idx = 21;
    assert!(crndm::BuddyAlg::from_parts(parts).is_none());

    let mut parts2 = p.alg.to_parts();
    parts2.available = MIB + 1;
    assert!(crndm::BuddyAlg::from_parts(parts2).is_none());
}

#[test]
fn parts_round_trip_carries_a_crashed_drain() {
    let mut p = Pool::format(MIB);
    assert_eq!(p.open(), Ok(2));
    assert_eq!(p.alg.alloc_impl(8, false), 0);
    // crash right after the commit point, persist, reload, reopen
    p.alg.drain_aux_steps(1);
    let parts = p.alg.to_parts();
    let alg = crndm::BuddyAlg::from_parts(parts).expect("sound parts");
    let mut q = Pool { hdr: p.hdr, alg, is_open: false, max_gen: 0 };
    assert_eq!(q.open(), Ok(3));
    assert_eq!(q.alg.available(), MIB - 8);
    assert!(q.alg.is_allocated(0, 8));
    assert!(q.alg.check());
}
