use typhon::queue::Queue;

#[test]
fn pop_takes_highest_priority_first() {
    let mut q = Queue::new();
    q.push(7, 1);
    q.push(3, 5);
    q.push(9, 2);
    assert_eq!(q.pop(), Some(3));
    assert_eq!(q.pop(), Some(9));
    assert_eq!(q.pop(), Some(7));
    assert_eq!(q.pop(), None);
}

#[test]
fn equal_priorities_pop_smallest_element_first() {
    let mut q = Queue::new();
    q.push(5, 4);
    q.push(2, 4);
    q.push(8, 4);
    assert_eq!(q.pop(), Some(2));
    assert_eq!(q.pop(), Some(5));
    assert_eq!(q.pop(), Some(8));
}

#[test]
fn pop_on_empty_queue_is_none() {
    let mut q = Queue::new();
    assert_eq!(q.pop(), None);
}

#[test]
fn pushing_twice_queues_once() {
    let mut q = Queue::new();
    q.push(1, 1);
    q.push(1, 1);
    assert!(q.contains(1, 1));
    assert_eq!(q.pop(), Some(1));
    assert_eq!(q.pop(), None);
}

#[test]
fn remove_undoes_push() {
    let mut q = Queue::new();
    q.push(4, 2);
    q.push(6, 3);
    q.remove(6, 3);
    assert!(!q.contains(6, 3));
    assert_eq!(q.pop(), Some(4));
    assert_eq!(q.pop(), None);
}

#[test]
fn remove_needs_the_matching_priority() {
    let mut q = Queue::new();
    q.push(4, 2);
    q.remove(4, 3);
    assert!(q.contains(4, 2));
    assert_eq!(q.pop(), Some(4));
}

#[test]
fn same_element_with_two_priorities_is_two_entries() {
    let mut q = Queue::new();
    q.push(4, 2);
    q.push(4, 9);
    assert_eq!(q.pop(), Some(4));
    assert_eq!(q.pop(), Some(4));
    assert_eq!(q.pop(), None);
}
