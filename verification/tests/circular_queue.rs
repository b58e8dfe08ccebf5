use rand_kernel::sched::circular_queue::{CircularQueue, QueueError};

#[test]
fn new_queue_is_empty() {
    let q: CircularQueue<u32, 4> = CircularQueue::new();
    assert!(q.is_empty());
    assert!(!q.is_full());
    assert_eq!(q.len(), 0);
    assert_eq!(CircularQueue::<u32, 4>::capacity(), 4);
}

#[test]
fn fifo_order_with_wraparound() {
    let mut q: CircularQueue<u32, 3> = CircularQueue::new();
    for round in 0..5u32 {
        assert_eq!(q.push_back(round * 10), Ok(()));
        assert_eq!(q.push_back(round * 10 + 1), Ok(()));
        assert_eq!(q.pop_front(), Some(round * 10));
        assert_eq!(q.pop_front(), Some(round * 10 + 1));
    }
    assert_eq!(q.pop_front(), None);
}

#[test]
fn push_to_full_queue_fails() {
    let mut q: CircularQueue<u32, 2> = CircularQueue::new();
    assert_eq!(q.push_back(1), Ok(()));
    assert_eq!(q.push_back(2), Ok(()));
    assert!(q.is_full());
    assert_eq!(q.push_back(3), Err(QueueError::Full));
    assert_eq!(q.len(), 2);
    assert_eq!(q.pop_front(), Some(1));
    assert_eq!(q.pop_front(), Some(2));
}

#[test]
fn zero_capacity_queue() {
    let mut q: CircularQueue<u32, 0> = CircularQueue::new();
    assert!(q.is_full());
    assert_eq!(q.push_back(1), Err(QueueError::Full));
    assert_eq!(q.pop_front(), None);
    assert!(q.back_mut().is_none());
}

#[test]
fn back_mut_edits_last_item() {
    let mut q: CircularQueue<u32, 3> = CircularQueue::new();
    assert!(q.back_mut().is_none());
    q.push_back(1).unwrap();
    q.push_back(2).unwrap();
    q.pop_front();
    q.push_back(3).unwrap();
    q.push_back(4).unwrap();
    // The back item sits at a wrapped slot.
    *q.back_mut().unwrap() = 40;
    assert_eq!(q.pop_front(), Some(2));
    assert_eq!(q.pop_front(), Some(3));
    assert_eq!(q.pop_front(), Some(40));
}

#[test]
fn remove_if_takes_first_match_and_keeps_order() {
    let mut q: CircularQueue<u32, 8> = CircularQueue::new();
    for x in [1, 4, 6, 7, 8] {
        q.push_back(x).unwrap();
    }
    assert_eq!(q.remove_if(|x| x % 2 == 0), Some(4));
    assert_eq!(q.len(), 4);
    let mut rest = Vec::new();
    while let Some(x) = q.pop_front() {
        rest.push(x);
    }
    assert_eq!(rest, vec![1, 6, 7, 8]);
}

#[test]
fn remove_if_without_match_leaves_queue() {
    let mut q: CircularQueue<u32, 4> = CircularQueue::new();
    for x in [1, 3, 5, 7] {
        q.push_back(x).unwrap();
    }
    assert!(q.is_full());
    assert_eq!(q.remove_if(|x| *x == 2), None);
    let mut rest = Vec::new();
    while let Some(x) = q.pop_front() {
        rest.push(x);
    }
    assert_eq!(rest, vec![1, 3, 5, 7]);
}
