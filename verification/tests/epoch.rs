use epoch_map::epoch::{must_wait, Registry};

#[test]
fn must_wait_only_for_a_peer_still_inside() {
    // Inside at the snapshot and not moved: wait.
    assert!(must_wait(1, 1));
    assert!(must_wait(7, 7));
    // Inside at the snapshot, read at an earlier odd value: wait.
    assert!(must_wait(7, 5));
    // Left since the snapshot.
    assert!(!must_wait(1, 2));
    // Entered a later operation.
    assert!(!must_wait(1, 3));
    // Quiescent at the snapshot, whether it stays or enters.
    assert!(!must_wait(0, 0));
    assert!(!must_wait(4, 4));
    assert!(!must_wait(4, 5));
    // Read as quiescent, whatever the snapshot held.
    assert!(!must_wait(9, 2));
    assert!(!must_wait(usize::MAX, 0));
    assert!(must_wait(usize::MAX, usize::MAX));
}

#[test]
fn registry_registers_in_order() {
    let mut registry = Registry::new();
    assert_eq!(registry.len(), 0);
    assert_eq!(registry.register(), 0);
    assert_eq!(registry.register(), 1);
    assert_eq!(registry.register(), 2);
    assert_eq!(registry.len(), 3);
    assert_eq!(registry.load(0), 0);
    assert_eq!(registry.load(2), 0);
    assert_eq!(registry.snapshot(), vec![0, 0, 0]);
}

#[test]
fn registry_bump_returns_previous_value() {
    let mut registry = Registry::new();
    let a = registry.register();
    let b = registry.register();
    assert_eq!(registry.bump(a), 0);
    assert_eq!(registry.bump(a), 1);
    assert_eq!(registry.bump(a), 2);
    assert_eq!(registry.load(a), 3);
    assert_eq!(registry.load(b), 0);
    assert_eq!(registry.snapshot(), vec![3, 0]);
}

#[test]
fn barrier_waits_for_a_peer_inside() {
    let mut registry = Registry::new();
    let me = registry.register();
    let peer = registry.register();
    let other = registry.register();
    // The peer enters, then this handle runs an operation and snapshots.
    registry.bump(peer);
    registry.bump(me);
    registry.bump(me);
    let started = registry.snapshot();
    assert_eq!(started, vec![2, 1, 0]);
    assert_eq!(registry.first_blocker(&started), Some(peer));
    // Another peer entering after the snapshot does not hold the barrier.
    registry.bump(other);
    assert_eq!(registry.first_blocker(&started), Some(peer));
    // The peer leaves: the barrier passes, though the other is inside.
    registry.bump(peer);
    assert_eq!(registry.first_blocker(&started), None);
}

#[test]
fn barrier_passes_when_a_peer_moves_on() {
    let mut registry = Registry::new();
    let me = registry.register();
    let peer = registry.register();
    registry.bump(peer);
    let started = registry.snapshot();
    assert_eq!(registry.first_blocker(&started), Some(peer));
    // The peer leaves and enters again: it has moved past the snapshot.
    registry.bump(peer);
    registry.bump(peer);
    assert_eq!(registry.load(peer), 3);
    assert_eq!(registry.first_blocker(&started), None);
    assert_eq!(registry.load(me), 0);
}

#[test]
fn barrier_reports_the_first_of_several() {
    let mut registry = Registry::new();
    let a = registry.register();
    let b = registry.register();
    let c = registry.register();
    registry.bump(b);
    registry.bump(c);
    let started = registry.snapshot();
    assert_eq!(registry.first_blocker(&started), Some(b));
    registry.bump(b);
    assert_eq!(registry.first_blocker(&started), Some(c));
    registry.bump(c);
    assert_eq!(registry.first_blocker(&started), None);
    assert_eq!(registry.load(a), 0);
}

#[test]
fn barrier_ignores_handles_registered_later() {
    let mut registry = Registry::new();
    registry.register();
    let started = registry.snapshot();
    let late = registry.register();
    registry.bump(late);
    assert_eq!(registry.first_blocker(&started), None);
    let empty: Vec<usize> = Vec::new();
    assert_eq!(registry.first_blocker(&empty), None);
}

#[test]
fn barrier_passes_when_all_are_quiescent() {
    let mut registry = Registry::new();
    let a = registry.register();
    let b = registry.register();
    registry.bump(a);
    registry.bump(a);
    registry.bump(b);
    registry.bump(b);
    registry.bump(b);
    registry.bump(b);
    let started = registry.snapshot();
    assert_eq!(started, vec![2, 4]);
    assert_eq!(registry.first_blocker(&started), None);
}
