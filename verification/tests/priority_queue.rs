use priority_queue::FixedPriorityQueue;
use priority_queue::QueueFullError;

fn filled_queue() -> FixedPriorityQueue<15> {
    let mut queue = FixedPriorityQueue::<15>::new();
    let arr = [98u64, 86, 41, 13, 65, 32, 29, 9, 10, 44, 23, 21, 17];
    // Each key is no greater than its parent-to-be, so the occupied prefix
    // ends up exactly in insertion order.
    for val in arr.iter() {
        queue.insert(*val).unwrap();
    }
    assert_eq!(queue.len(), arr.len());
    queue
}

#[test]
fn insert() {
    let mut queue = filled_queue();

    queue.insert(81).unwrap();

    assert!(
        format!("{:?}", queue.storage()) == "[98, 86, 81, 13, 65, 32, 41, 9, 10, 44, 23, 21, 17, 29, 0]"
    );
}

#[test]
fn remove() {
    let mut queue = filled_queue();

    queue.remove();

    assert!(
        format!("{:?}", queue.storage()) == "[86, 65, 41, 13, 44, 32, 29, 9, 10, 17, 23, 21, 17, 0, 0]"
    );
}

#[test]
fn heapify() {
    let arr = [89u64, 29, 23, 36, 48, 94, 13, 27, 70, 76, 37, 42, 58];
    let queue = FixedPriorityQueue::<13>::from_array(arr);

    assert!(format!("{:?}", queue.storage()) == "[94, 76, 89, 70, 48, 58, 13, 27, 36, 29, 37, 42, 23]");
}

#[test]
fn new_queue_is_empty_and_zero_filled() {
    let queue = FixedPriorityQueue::<4>::new();
    assert_eq!(queue.len(), 0);
    assert_eq!(queue.storage(), vec![0, 0, 0, 0]);
}

#[test]
fn default_matches_new() {
    let queue: FixedPriorityQueue<3> = Default::default();
    assert_eq!(queue.len(), 0);
    assert_eq!(queue.storage(), vec![0, 0, 0]);
}

#[test]
fn insert_reports_slot_and_count() {
    let mut queue = FixedPriorityQueue::<3>::new();
    assert_eq!(queue.insert(5).unwrap(), 0);
    assert_eq!(queue.len(), 1);
    assert_eq!(queue.insert(7).unwrap(), 1);
    assert_eq!(queue.len(), 2);
    assert_eq!(queue.insert(6).unwrap(), 2);
    assert_eq!(queue.len(), 3);
}

#[test]
fn insert_into_full_queue_fails_and_changes_nothing() {
    let mut queue = FixedPriorityQueue::<2>::new();
    queue.insert(4).unwrap();
    queue.insert(3).unwrap();
    let before = queue.storage();

    assert_eq!(queue.insert(9), Err(QueueFullError { capacity: 2 }));
    assert_eq!(queue.len(), 2);
    assert_eq!(queue.storage(), before);
}

#[test]
fn zero_capacity_rejects_every_insert() {
    let mut queue = FixedPriorityQueue::<0>::new();
    assert_eq!(queue.insert(1), Err(QueueFullError { capacity: 0 }));
    assert_eq!(queue.remove(), None);
    assert_eq!(queue.len(), 0);
}

#[test]
fn remove_from_empty_queue_changes_nothing() {
    let mut queue = FixedPriorityQueue::<4>::new();
    queue.insert(11).unwrap();
    assert_eq!(queue.remove(), Some(11));
    let before = queue.storage();

    assert_eq!(queue.remove(), None);
    assert_eq!(queue.len(), 0);
    assert_eq!(queue.storage(), before);
}

#[test]
fn remove_returns_maximum_and_decrements_count() {
    let mut queue = FixedPriorityQueue::<8>::new();
    for val in [3u64, 17, 5, 17, 2].iter() {
        queue.insert(*val).unwrap();
    }
    assert_eq!(queue.len(), 5);
    assert_eq!(queue.remove(), Some(17));
    assert_eq!(queue.len(), 4);
    assert_eq!(queue.remove(), Some(17));
    assert_eq!(queue.len(), 3);
    assert_eq!(queue.remove(), Some(5));
    assert_eq!(queue.len(), 2);
}

#[test]
fn round_trip_yields_descending_order() {
    let mut queue = FixedPriorityQueue::<9>::new();
    let vals = [12u64, 7, 99, 0, 7, 54, 31, 99, 3];
    for val in vals.iter() {
        queue.insert(*val).unwrap();
    }

    let mut extracted = Vec::new();
    while let Some(v) = queue.remove() {
        extracted.push(v);
    }
    assert_eq!(extracted, vec![99, 99, 54, 31, 12, 7, 7, 3, 0]);
    assert_eq!(queue.len(), 0);
}

#[test]
fn heapify_then_extract_sorts_descending() {
    let arr = [5u64, 1, 4, 1, 5, 9, 2, 6];
    let mut queue = FixedPriorityQueue::<8>::from_array(arr);
    assert_eq!(queue.len(), 8);

    let mut extracted = Vec::new();
    while let Some(v) = queue.remove() {
        extracted.push(v);
    }
    assert_eq!(extracted, vec![9, 6, 5, 5, 4, 2, 1, 1]);
}

#[test]
fn heapify_with_equal_keys_keeps_them_all() {
    let queue = FixedPriorityQueue::<5>::from_array([7u64, 7, 7, 7, 7]);
    assert_eq!(queue.storage(), vec![7, 7, 7, 7, 7]);
    assert_eq!(queue.len(), 5);
}

#[test]
fn capacity_one_cycles() {
    let mut queue = FixedPriorityQueue::<1>::new();
    assert_eq!(queue.insert(42).unwrap(), 0);
    assert_eq!(queue.insert(7), Err(QueueFullError { capacity: 1 }));
    assert_eq!(queue.remove(), Some(42));
    assert_eq!(queue.insert(7).unwrap(), 0);
    assert_eq!(queue.remove(), Some(7));
    assert_eq!(queue.remove(), None);
}
