use hyperscale::mempool::lock_tracker::{BlockScope, LockTracker};
use hyperscale::types::DeclaredKey;

fn key(seed: u8) -> DeclaredKey {
    DeclaredKey::node([seed; 30])
}

#[test]
fn fresh_tracker_is_empty() {
    let tracker = LockTracker::with_read_share(false);
    assert_eq!(tracker.locked_count(), 0);
    assert_eq!(tracker.in_flight(), 0);
    assert!(!tracker.is_locked(&key(1)));
}

#[test]
fn lock_nodes_returns_only_newly_locked() {
    let mut tracker = LockTracker::with_read_share(false);
    let a = key(1);
    let b = key(2);

    let newly_locked = tracker.lock_keys(&[a, b]);
    assert_eq!(newly_locked.len(), 2);
    assert!(tracker.is_locked(&a));
    assert!(tracker.is_locked(&b));

    // Locking the same nodes again yields no newly-locked entries.
    let newly_locked = tracker.lock_keys(&[a, b]);
    assert!(newly_locked.is_empty());
    assert_eq!(tracker.locked_count(), 2);
}

#[test]
fn lock_nodes_handles_partial_overlap() {
    let mut tracker = LockTracker::with_read_share(false);
    let a = key(1);
    let b = key(2);
    let c = key(3);

    tracker.lock_keys(&[a, b]);
    // Locking [b, c] should only report c as newly locked.
    let newly_locked = tracker.lock_keys(&[b, c]);
    assert_eq!(newly_locked, vec![c]);
    assert_eq!(tracker.locked_count(), 3);
}

#[test]
fn unlock_nodes_returns_only_newly_unlocked() {
    let mut tracker = LockTracker::with_read_share(false);
    let a = key(1);
    let b = key(2);
    tracker.lock_keys(&[a, b]);

    let newly_unlocked = tracker.unlock_keys(&[a, b]);
    assert_eq!(newly_unlocked.len(), 2);
    assert!(!tracker.is_locked(&a));
    assert!(!tracker.is_locked(&b));

    // Unlocking again yields nothing.
    let newly_unlocked = tracker.unlock_keys(&[a, b]);
    assert!(newly_unlocked.is_empty());
}

#[test]
fn unlock_ignores_never_locked_nodes() {
    let mut tracker = LockTracker::with_read_share(false);
    let locked = key(1);
    let unlocked = key(2);
    tracker.lock_keys(&[locked]);

    let newly_unlocked = tracker.unlock_keys(&[locked, unlocked]);
    assert_eq!(newly_unlocked, vec![locked]);
}

#[test]
fn counter_increments_and_saturates_on_decrement() {
    let mut tracker = LockTracker::with_read_share(false);

    tracker.inc_in_flight();
    tracker.inc_in_flight();
    assert_eq!(tracker.in_flight(), 2);

    tracker.dec_in_flight();
    assert_eq!(tracker.in_flight(), 1);

    // Over-decrementing saturates at 0 rather than wrapping.
    tracker.dec_in_flight();
    tracker.dec_in_flight();
    tracker.dec_in_flight();
    assert_eq!(tracker.in_flight(), 0);
}

#[test]
fn exclusive_lock_declared_blocks_everyone_and_marks_writes() {
    let mut tracker = LockTracker::with_read_share(false);
    let read = key(1);
    let write = key(2);

    let blocking = tracker.lock_declared(&[read], &[write]);
    assert_eq!(
        blocking,
        vec![(read, BlockScope::All), (write, BlockScope::All)]
    );
    assert!(!tracker.is_write_locked(&read));
    assert!(tracker.is_write_locked(&write));

    let promotable = tracker.unlock_declared(&[read], &[write]);
    assert_eq!(promotable, vec![read, write]);
    assert!(!tracker.is_locked(&read));
    assert!(!tracker.is_locked(&write));
}

#[test]
fn shared_readers_stack_and_release_without_promotion_until_drained() {
    let mut tracker = LockTracker::with_read_share(true);
    let node = key(1);

    // First reader blocks writers; the second adds no new blocking.
    assert_eq!(
        tracker.lock_declared(&[node], &[]),
        vec![(node, BlockScope::WritersOnly)]
    );
    assert!(tracker.lock_declared(&[node], &[]).is_empty());
    assert!(tracker.is_locked(&node));
    assert!(!tracker.is_write_locked(&node));

    // Draining one reader promotes nothing; draining the last does.
    assert!(tracker.unlock_declared(&[node], &[]).is_empty());
    assert_eq!(tracker.unlock_declared(&[node], &[]), vec![node]);
    assert!(!tracker.is_locked(&node));
}

#[test]
fn shared_write_excludes_and_its_release_promotes_even_over_readers() {
    let mut tracker = LockTracker::with_read_share(true);
    let node = key(1);

    tracker.lock_declared(&[node], &[]);
    // A write on a read-locked node (the commit pipeline admits this)
    // newly blocks everyone.
    assert_eq!(
        tracker.lock_declared(&[], &[node]),
        vec![(node, BlockScope::All)]
    );
    assert!(tracker.is_write_locked(&node));

    // Releasing the write promotes readers even while a reader holds.
    assert_eq!(tracker.unlock_declared(&[], &[node]), vec![node]);
    assert!(tracker.is_locked(&node));
    assert!(!tracker.is_write_locked(&node));
    assert_eq!(tracker.unlock_declared(&[node], &[]), vec![node]);
    assert!(!tracker.is_locked(&node));
}

#[test]
fn shared_unlock_ignores_never_locked_nodes() {
    let mut tracker = LockTracker::with_read_share(true);
    assert!(tracker.unlock_declared(&[key(9)], &[key(8)]).is_empty());
}

#[test]
fn a_write_release_that_clears_no_write_lock_is_ignored() {
    let mut tracker = LockTracker::with_read_share(true);
    let node = key(1);
    tracker.lock_declared(&[node], &[]);
    assert!(tracker.unlock_declared(&[], &[node]).is_empty());
    assert!(tracker.is_locked(&node));
    assert!(!tracker.is_write_locked(&node));

    // A write lock reports where it clears, and not again.
    tracker.lock_declared(&[], &[node]);
    assert_eq!(tracker.unlock_declared(&[], &[node, node]), vec![node]);
    assert!(tracker.is_locked(&node));
}
