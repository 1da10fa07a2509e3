use wiki_path::frontier::Frontier;
use wiki_path::pool::{WorkerPool, WorkerState};

#[test]
fn new_frontier_holds_the_source() {
    let f = Frontier::new("A", 10);
    assert_eq!(f.size(), 1);
    assert!(f.is_visited("A"));
    assert!(!f.is_visited("B"));
    assert!(!f.current_is_empty());
    assert!(f.next_is_empty());
    assert!(!f.over_cap());
}

#[test]
fn enqueue_records_a_page_once() {
    let mut f = Frontier::new("A", 10);
    assert!(f.enqueue_if_new("B", "A"));
    assert!(!f.enqueue_if_new("B", "A"));
    assert!(!f.enqueue_if_new("A", "A"));
    assert!(f.enqueue_if_new("C", "B"));
    assert!(!f.enqueue_if_new("B", "C"));
    assert_eq!(f.size(), 3);
    assert!(f.is_visited("C"));
    assert_eq!(f.path_to("B", "T"), vec!["A", "B", "T"]);
    assert_eq!(f.path_to("C", "T"), vec!["A", "B", "C", "T"]);
}

#[test]
fn queues_are_first_in_first_out() {
    let mut f = Frontier::new("A", 10);
    assert_eq!(f.pop_current().as_deref(), Some("A"));
    assert_eq!(f.pop_current(), None);
    assert!(f.enqueue_if_new("B", "A"));
    assert!(f.enqueue_if_new("C", "A"));
    assert!(f.enqueue_if_new("D", "A"));
    assert!(f.current_is_empty());
    assert_eq!(f.size(), 3);
    f.advance_level();
    assert!(f.next_is_empty());
    assert_eq!(f.size(), 3);
    assert_eq!(f.pop_current().as_deref(), Some("B"));
    assert_eq!(f.pop_current().as_deref(), Some("C"));
    assert!(f.enqueue_if_new("E", "C"));
    assert_eq!(f.pop_current().as_deref(), Some("D"));
    assert_eq!(f.pop_current(), None);
    assert_eq!(f.size(), 1);
    assert!(f.is_visited("B"));
}

#[test]
fn bound_counts_both_queues() {
    let mut f = Frontier::new("A", 2);
    assert!(f.enqueue_if_new("B", "A"));
    assert_eq!(f.size(), 2);
    assert!(!f.over_cap());
    assert!(f.enqueue_if_new("C", "A"));
    assert_eq!(f.size(), 3);
    assert!(f.over_cap());
    assert_eq!(f.pop_current().as_deref(), Some("A"));
    assert!(!f.over_cap());
}

#[test]
fn path_of_the_source_alone() {
    let f = Frontier::new("A", 10);
    assert_eq!(f.path_to("A", "T"), vec!["A", "T"]);
}

#[test]
fn pool_starts_idle() {
    let pool = WorkerPool::new(3);
    assert_eq!(pool.len(), 3);
    for i in 0..3 {
        assert_eq!(pool.state(i), Some(WorkerState::Idle));
        assert_eq!(pool.assigned(i), None);
    }
    assert_eq!(pool.state(3), None);
    assert!(!pool.has_processing());
    assert!(!pool.all_failed());
    assert!(WorkerPool::new(0).all_failed());
}

#[test]
fn worker_goes_through_its_states() {
    let mut pool = WorkerPool::new(2);
    assert!(pool.start(1, "A".to_string()));
    assert_eq!(pool.state(1), Some(WorkerState::Processing));
    assert_eq!(pool.assigned(1).as_deref(), Some("A"));
    assert!(pool.has_processing());
    assert!(!pool.start(1, "B".to_string()));
    assert_eq!(pool.assigned(1).as_deref(), Some("A"));
    assert!(!pool.start(2, "B".to_string()));
    assert!(!pool.finish(0));
    assert!(pool.finish(1));
    assert_eq!(pool.state(1), Some(WorkerState::Idle));
    assert_eq!(pool.assigned(1), None);
    assert!(!pool.has_processing());
    assert!(pool.fail(1));
    assert!(!pool.fail(2));
    assert_eq!(pool.state(1), Some(WorkerState::Error));
    assert!(!pool.start(1, "C".to_string()));
    assert!(!pool.finish(1));
    assert!(!pool.all_failed());
    assert!(pool.start(0, "D".to_string()));
    assert!(pool.fail(0));
    assert_eq!(pool.assigned(0), None);
    assert!(pool.all_failed());
}
