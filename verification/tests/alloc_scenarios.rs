use crndm::buddy::{get_idx, BuddyAlg, EOL};

const MIB: usize = 1 << 20;

fn fresh() -> BuddyAlg {
    BuddyAlg::new(MIB)
}

#[test]
fn order_of_request_sizes() {
    assert_eq!(get_idx(0), usize::MAX);
    assert_eq!(get_idx(1), 3);
    assert_eq!(get_idx(8), 3);
    assert_eq!(get_idx(9), 4);
    assert_eq!(get_idx(16), 4);
    assert_eq!(get_idx(24), 5);
    assert_eq!(get_idx(MIB), 20);
    assert_eq!(get_idx(MIB + 1), 21);
}

#[test]
fn fresh_format_shape() {
    let a = fresh();
    assert_eq!(a.size(), MIB);
    assert_eq!(a.available(), MIB);
    assert_eq!(a.used(), 0);
    assert_eq!(a.last_idx(), 20);
    assert_eq!(a.free_list(20), vec![0]);
    for k in 0..20 {
        assert!(a.free_list(k).is_empty());
    }
    assert!(a.check());
}

#[test]
fn alloc_eight_bytes_splits_every_order() {
    let mut a = fresh();
    let off = a.alloc_impl(8, true);
    assert_eq!(off, 0);
    assert_eq!(a.available(), MIB - 8);
    assert_eq!(a.used(), 8);
    for k in 3..20 {
        assert_eq!(a.free_list(k), vec![1u64 << k]);
    }
    assert!(a.free_list(20).is_empty());
    assert!(a.check());
}

#[test]
fn two_sixteen_byte_blocks_then_coalesce() {
    let mut a = fresh();
    assert_eq!(a.alloc_impl(8, true), 0);
    let first = a.alloc_impl(16, true);
    let second = a.alloc_impl(16, true);
    assert_eq!(first, 16);
    assert_eq!(second, 32);
    assert!(a.free_list(4).contains(&48));
    assert!(a.check());

    // freeing the block at 32 coalesces with 48 into an order-5 block
    a.dealloc_impl(32, 16, true);
    assert!(a.free_list(4).is_empty());
    assert_eq!(a.free_list(5), vec![32]);
    assert!(a.check());

    // freeing the block at 16 restores the shape right after the 8-byte
    // allocation
    a.dealloc_impl(16, 16, true);
    for k in 3..20 {
        assert_eq!(a.free_list(k), vec![1u64 << k]);
    }
    assert!(a.free_list(20).is_empty());
    assert_eq!(a.available(), MIB - 8);
    assert!(a.check());
}

#[test]
fn twenty_four_bytes_round_up_to_order_five() {
    let mut a = fresh();
    let off = a.alloc_impl(24, true);
    assert_eq!(off, 0);
    assert_eq!(a.available(), MIB - 32);
    assert!(a.free_list(3).is_empty());
    assert!(a.free_list(4).is_empty());
    assert_eq!(a.free_list(5), vec![32]);
    assert!(a.check());
}

#[test]
fn alloc_then_dealloc_is_identity_on_the_index() {
    let mut a = fresh();
    let before: Vec<Vec<u64>> = (0..64).map(|k| a.free_list(k)).collect();
    let off = a.alloc_impl(16, true);
    assert_eq!(off, 0);
    a.dealloc_impl(off, 16, true);
    let after: Vec<Vec<u64>> = (0..64).map(|k| a.free_list(k)).collect();
    assert_eq!(before, after);
    assert_eq!(a.available(), MIB);
    assert!(a.check());
}

#[test]
fn alloc_dealloc_identity_from_a_busy_state() {
    let mut a = fresh();
    assert_eq!(a.alloc_impl(8, true), 0);
    let before: Vec<Vec<u64>> = (0..64).map(|k| a.free_list(k)).collect();
    let avail = a.available();
    let off = a.alloc_impl(123, true);
    a.dealloc_impl(off, 123, true);
    let after: Vec<Vec<u64>> = (0..64).map(|k| a.free_list(k)).collect();
    assert_eq!(before, after);
    assert_eq!(a.available(), avail);
    assert!(a.check());
}

#[test]
fn repeated_alloc_after_dealloc_returns_the_same_offset() {
    let mut a = fresh();
    assert_eq!(a.alloc_impl(8, true), 0);
    let off1 = a.alloc_impl(64, true);
    a.dealloc_impl(off1, 64, true);
    let off2 = a.alloc_impl(64, true);
    assert_eq!(off1, off2);
    assert!(a.check());
}

#[test]
fn no_space_returns_the_sentinel_untouched() {
    let mut a = fresh();
    let lists: Vec<Vec<u64>> = (0..64).map(|k| a.free_list(k)).collect();
    let off = a.alloc_impl(MIB + 1, true);
    assert_eq!(off, EOL);
    assert_eq!(a.available(), MIB);
    let after: Vec<Vec<u64>> = (0..64).map(|k| a.free_list(k)).collect();
    assert_eq!(lists, after);

    // exhaust the pool, then ask again
    let whole = a.alloc_impl(MIB, true);
    assert_eq!(whole, 0);
    assert_eq!(a.available(), 0);
    assert_eq!(a.alloc_impl(8, true), EOL);
    assert!(a.check());
}

#[test]
fn available_and_used_always_partition_the_size() {
    let mut a = fresh();
    assert_eq!(a.available() + a.used(), a.size());
    a.alloc_impl(100, true);
    assert_eq!(a.available() + a.used(), a.size());
    let off = a.alloc_impl(5000, true);
    assert_eq!(a.available() + a.used(), a.size());
    a.dealloc_impl(off, 5000, true);
    assert_eq!(a.available() + a.used(), a.size());
}

#[test]
fn footprint_tracks_the_high_water_mark() {
    let mut a = fresh();
    assert_eq!(a.footprint(), 0);
    let off = a.alloc_impl(4096, true);
    assert_eq!(a.footprint(), 4096);
    a.dealloc_impl(off, 4096, true);
    assert_eq!(a.footprint(), 4096);
    a.alloc_impl(8, true);
    assert_eq!(a.footprint(), 4096);
}

#[test]
fn is_allocated_sees_free_and_taken_ranges() {
    let mut a = fresh();
    let off = a.alloc_impl(8, true);
    assert_eq!(off, 0);
    assert!(a.is_allocated(0, 8));
    // the other half of the order-3 split is free
    assert!(!a.is_allocated(8, 8));
    assert!(!a.is_allocated(1 << 19, 8));

    // while an operation is staged, the check answers conservatively
    let off2 = a.alloc_impl(16, false);
    assert_eq!(off2, 16);
    assert!(a.is_allocated(16, 16));
    assert!(a.is_allocated(8, 8));
    a.perform();
    assert!(a.is_allocated(16, 16));
    assert!(!a.is_allocated(8, 8));
}

#[test]
fn audit_rejects_a_cycle_written_into_the_region() {
    let mut a = fresh();
    // stage a word write that makes block 0 point at itself, then commit:
    // the order-20 list now cycles
    a.aux_push(0, 0);
    a.drain_aux();
    assert!(!a.check());
}

#[test]
fn audit_rejects_a_miscounted_available() {
    let mut a = fresh();
    assert_eq!(a.alloc_impl(8, true), 0);
    assert!(a.check());
    // unlink the order-3 free block without adjusting the counter
    a.aux_push(a.size() as u64 + 8 * 3, EOL);
    a.drain_aux();
    assert!(!a.check());
}

#[test]
fn realloc_within_the_same_order_is_a_no_op() {
    let mut a = fresh();
    let off = a.alloc_impl(16, true);
    assert_eq!(off, 0);
    let avail = a.available();
    let r = a.realloc_impl(off, 16, 9);
    assert_eq!(r, off);
    assert_eq!(a.available(), avail);
    assert!(a.check());
}

#[test]
fn realloc_moves_the_block_and_copies_its_words() {
    let mut a = fresh();
    assert_eq!(a.alloc_impl(8, true), 0);
    let off = a.alloc_impl(16, true);
    assert_eq!(off, 16);
    // put recognizable values into the block's two words
    a.log(16, 11);
    a.log(24, 22);
    a.perform();
    assert_eq!(a.word_get(16), 11);

    let new_off = a.realloc_impl(off, 16, 100);
    assert_eq!(new_off, 128);
    a.perform();
    assert_eq!(a.word_get(128), 11);
    assert_eq!(a.word_get(136), 22);
    assert_eq!(a.available(), MIB - 8 - 16 - 112);
    assert!(!a.is_allocated(16, 16));
    assert!(a.is_allocated(128, 100));
    assert!(a.check());
}

#[test]
fn realloc_without_space_discards_and_keeps_the_block() {
    let mut a = fresh();
    let off = a.alloc_impl(16, true);
    assert_eq!(off, 0);
    let avail = a.available();
    let r = a.realloc_impl(off, 16, MIB + 1);
    assert_eq!(r, EOL);
    assert_eq!(a.available(), avail);
    assert!(a.is_allocated(off, 16));
    assert!(a.check());
}

#[test]
fn audit_accepts_unique_membership_and_rejects_a_shared_offset() {
    let mut a = fresh();
    assert_eq!(a.alloc_impl(8, true), 0);
    assert!(a.check_unique());
    // write the order-3 block's offset into the order-4 head as well: the
    // offset 8 now sits on two lists
    a.aux_push(a.size() as u64 + 8 * 4, 8);
    a.drain_aux();
    assert!(!a.check_unique());
}
