use crndm::buddy::BuddyAlg;

const MIB: usize = 1 << 20;

fn post_alloc8_shape(a: &BuddyAlg) -> bool {
    (3..20).all(|k| a.free_list(k) == vec![1u64 << k]) && a.free_list(20).is_empty()
}

#[test]
fn crash_after_commit_recovers_the_post_state() {
    let mut a = BuddyAlg::new(MIB);
    let off = a.alloc_impl(8, false);
    assert_eq!(off, 0);
    // stop right after the commit point: flag set, nothing replayed yet
    a.drain_aux_steps(1);
    a.recover();
    assert_eq!(a.available(), MIB - 8);
    assert!(post_alloc8_shape(&a));
    assert!(a.is_allocated(0, 8));
    assert!(a.check());
}

#[test]
fn crash_mid_replay_recovers_the_post_state() {
    for steps in 1..=7usize {
        let mut a = BuddyAlg::new(MIB);
        assert_eq!(a.alloc_impl(8, false), 0);
        a.drain_aux_steps(steps);
        a.recover();
        assert_eq!(a.available(), MIB - 8, "stopped after step {steps}");
        assert!(post_alloc8_shape(&a), "stopped after step {steps}");
        assert!(a.check(), "stopped after step {steps}");
    }
}

#[test]
fn crash_before_commit_recovers_the_pre_state() {
    let mut a = BuddyAlg::new(MIB);
    assert_eq!(a.alloc_impl(8, false), 0);
    // stop before the commit point: the staged set was never valid
    a.drain_aux_steps(0);
    a.recover();
    assert_eq!(a.available(), MIB);
    assert_eq!(a.free_list(20), vec![0]);
    for k in 0..20 {
        assert!(a.free_list(k).is_empty());
    }
    assert!(!a.is_allocated(0, 8));
    assert!(a.check());
}

#[test]
fn discard_drops_a_staged_operation() {
    let mut a = BuddyAlg::new(MIB);
    assert_eq!(a.alloc_impl(64, false), 0);
    a.discard();
    assert_eq!(a.available(), MIB);
    assert_eq!(a.free_list(20), vec![0]);
    // the next allocation starts from the untouched index
    assert_eq!(a.alloc_impl(64, true), 0);
    assert!(a.check());
}

#[test]
fn drop_on_failure_reclaims_unconfirmed_blocks() {
    let mut a = BuddyAlg::new(MIB);
    let off = a.alloc_impl(8, true);
    assert_eq!(off, 0);
    a.drop_on_failure(off, 8);
    // the owner never confirmed with a perform: reopening rolls it back
    a.recover();
    assert_eq!(a.available(), MIB);
    assert_eq!(a.free_list(20), vec![0]);
    assert!(a.check());
}

#[test]
fn perform_confirms_and_keeps_the_block() {
    let mut a = BuddyAlg::new(MIB);
    let off = a.alloc_impl(8, false);
    assert_eq!(off, 0);
    a.drop_on_failure(off, 8);
    a.perform();
    // confirmed: recovery has nothing to roll back
    a.recover();
    assert_eq!(a.available(), MIB - 8);
    assert!(a.is_allocated(0, 8));
    assert!(a.check());
}

#[test]
fn user_word_log_is_applied_at_the_drain() {
    let mut a = BuddyAlg::new(MIB);
    let off = a.alloc_impl(64, false);
    assert_eq!(off, 0);
    // a user word inside the freshly allocated block
    a.log(8, 77);
    a.perform();
    assert_eq!(a.word_get(8), 77);
    assert_eq!(a.available(), MIB - 64);
    assert!(a.check());
}

#[test]
fn staged_user_words_vanish_without_a_commit() {
    let mut a = BuddyAlg::new(MIB);
    assert_eq!(a.alloc_impl(64, false), 0);
    a.log(8, 77);
    a.drain_aux_steps(0);
    a.recover();
    assert_eq!(a.word_get(8), 0);
    assert_eq!(a.available(), MIB);
    assert!(a.check());
}
