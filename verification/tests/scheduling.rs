use discord_drive::schedule::{endpoint_for, TransferScheduler};

#[test]
fn round_robin_assignment() {
    // With 3 endpoints, endpoint e receives exactly the chunks with
    // index i where i % 3 == e.
    let n = 3;
    let mut per_endpoint: Vec<Vec<usize>> = vec![Vec::new(), Vec::new(), Vec::new()];
    for i in 0..10 {
        let e = endpoint_for(i, n);
        assert_eq!(e, i % n);
        per_endpoint[e].push(i);
    }
    assert_eq!(per_endpoint[0], vec![0, 3, 6, 9]);
    assert_eq!(per_endpoint[1], vec![1, 4, 7]);
    assert_eq!(per_endpoint[2], vec![2, 5, 8]);
}

#[test]
fn dispatch_waits_for_ledger_entry() {
    let mut sched = TransferScheduler::new(4, 24, 12);
    assert_eq!(sched.try_dispatch(), None);
    sched.note_entry_created();
    assert_eq!(sched.try_dispatch(), Some((0, 0)));
}

#[test]
fn concurrency_stays_under_limit() {
    // Limit 2, five chunks: never more than two in flight, a freed slot
    // admits the next chunk.
    let mut sched = TransferScheduler::new(5, 2, 3);
    sched.note_entry_created();
    assert_eq!(sched.try_dispatch(), Some((0, 0)));
    assert_eq!(sched.try_dispatch(), Some((1, 1)));
    assert_eq!(sched.in_flight, 2);
    // Both slots taken: no third transfer starts.
    assert_eq!(sched.try_dispatch(), None);
    assert!(sched.in_flight <= sched.limit);

    sched.complete(1, true);
    assert_eq!(sched.in_flight, 1);
    assert_eq!(sched.try_dispatch(), Some((2, 2)));
    assert_eq!(sched.try_dispatch(), None);
    assert!(sched.in_flight <= sched.limit);

    sched.complete(0, true);
    sched.complete(2, true);
    assert_eq!(sched.try_dispatch(), Some((3, 0)));
    assert_eq!(sched.try_dispatch(), Some((4, 1)));
    assert_eq!(sched.try_dispatch(), None);
    assert!(!sched.is_done());
    sched.complete(4, true);
    sched.complete(3, true);
    assert!(sched.is_done());
    assert!(sched.all_succeeded());
}

#[test]
fn failures_are_reported_per_chunk() {
    let mut sched = TransferScheduler::new(3, 24, 2);
    sched.note_entry_created();
    assert_eq!(sched.try_dispatch(), Some((0, 0)));
    assert_eq!(sched.try_dispatch(), Some((1, 1)));
    assert_eq!(sched.try_dispatch(), Some((2, 0)));
    // Completions race: they may resolve in any order, and a failure does
    // not stop the siblings.
    sched.complete(1, false);
    sched.complete(2, true);
    sched.complete(0, false);
    assert!(sched.is_done());
    assert!(!sched.all_succeeded());
    assert_eq!(sched.failures, vec![1, 0]);
}

#[test]
fn limit_one_serializes_transfers() {
    let mut sched = TransferScheduler::new(3, 1, 5);
    sched.note_entry_created();
    assert_eq!(sched.try_dispatch(), Some((0, 0)));
    assert_eq!(sched.try_dispatch(), None);
    sched.complete(0, true);
    assert_eq!(sched.try_dispatch(), Some((1, 1)));
    assert_eq!(sched.try_dispatch(), None);
    sched.complete(1, true);
    assert_eq!(sched.try_dispatch(), Some((2, 2)));
    sched.complete(2, true);
    assert!(sched.is_done());
}
