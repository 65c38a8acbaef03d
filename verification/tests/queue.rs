use tower_cache::queue::{PendingQueue, Priority};

#[test]
fn interactive_is_served_before_prefetch() {
    let mut q = PendingQueue::new();
    assert!(q.submit("/tmp/neighbor.png".to_string(), Priority::Prefetch));
    assert!(q.submit("/tmp/dropped.png".to_string(), Priority::Interactive));
    let first = q.take_next().unwrap();
    assert_eq!(first.key, "/tmp/dropped.png");
    assert!(matches!(first.priority, Priority::Interactive));
    let second = q.take_next().unwrap();
    assert_eq!(second.key, "/tmp/neighbor.png");
    assert!(matches!(second.priority, Priority::Prefetch));
}

#[test]
fn fifo_within_a_priority_class() {
    let mut q = PendingQueue::new();
    assert!(q.submit("a.png".to_string(), Priority::Prefetch));
    assert!(q.submit("b.png".to_string(), Priority::Prefetch));
    assert!(q.submit("c.png".to_string(), Priority::Prefetch));
    assert_eq!(q.take_next().unwrap().key, "a.png");
    assert_eq!(q.take_next().unwrap().key, "b.png");
    assert_eq!(q.take_next().unwrap().key, "c.png");
}

#[test]
fn duplicate_submission_is_refused() {
    let mut q = PendingQueue::new();
    assert!(q.submit("a.png".to_string(), Priority::Interactive));
    assert!(!q.submit("a.png".to_string(), Priority::Interactive));
    // even across classes
    assert!(!q.submit("a.png".to_string(), Priority::Prefetch));
    assert_eq!(q.take_next().unwrap().key, "a.png");
    assert!(q.take_next().is_none());
}

#[test]
fn take_next_on_empty_queue_is_none() {
    let mut q = PendingQueue::new();
    assert!(q.is_empty());
    assert!(q.take_next().is_none());
}

#[test]
fn clear_drops_all_pending_requests() {
    let mut q = PendingQueue::new();
    assert!(q.submit("a.png".to_string(), Priority::Interactive));
    assert!(q.submit("b.png".to_string(), Priority::Prefetch));
    q.clear();
    assert!(q.is_empty());
    assert!(q.take_next().is_none());
}
