use concurrent_queue::{ConcurrentQueue, PopError, PushError, MAX_CAPACITY, MAX_LEN};

#[test]
fn push_full_then_closed() {
    let mut q = ConcurrentQueue::bounded(1);
    assert_eq!(q.push(10), Ok(()));
    assert_eq!(q.push(20), Err(PushError::Full(20)));
    q.close();
    // A closed queue answers `Closed` even while it is full.
    assert_eq!(q.push(20), Err(PushError::Closed(20)));
    assert_eq!(q.pop(), Ok(10));
    // Even though there is space, no more items can be pushed.
    assert_eq!(q.push(20), Err(PushError::Closed(20)));
}

#[test]
fn pop_empty_then_closed() {
    let mut q = ConcurrentQueue::bounded(1);
    assert_eq!(q.pop(), Err(PopError::Empty));
    assert_eq!(q.push(10), Ok(()));
    q.close();
    assert_eq!(q.pop(), Ok(10));
    assert_eq!(q.pop(), Err(PopError::Closed));
    assert_eq!(q.pop(), Err(PopError::Closed));
}

#[test]
fn is_empty_follows_the_items() {
    let mut q = ConcurrentQueue::<i32>::unbounded();
    assert!(q.is_empty());
    q.push(1).unwrap();
    assert!(!q.is_empty());
    q.pop().unwrap();
    assert!(q.is_empty());

    let mut q = ConcurrentQueue::<i32>::bounded(3);
    assert!(q.is_empty());
    q.push(1).unwrap();
    assert!(!q.is_empty());
    q.pop().unwrap();
    assert!(q.is_empty());
}

#[test]
fn is_full_follows_the_items() {
    let mut q = ConcurrentQueue::bounded(1);
    assert!(!q.is_full());
    q.push(1).unwrap();
    assert!(q.is_full());
    q.pop().unwrap();
    assert!(!q.is_full());
}

#[test]
fn unbounded_is_never_full() {
    let mut q = ConcurrentQueue::unbounded();
    assert!(!q.is_full());
    for i in 0..100 {
        q.push(i).unwrap();
        assert!(!q.is_full());
    }
}

#[test]
fn len_counts_the_items() {
    let mut q = ConcurrentQueue::unbounded();
    assert_eq!(q.len(), 0);
    assert_eq!(q.push(10), Ok(()));
    assert_eq!(q.len(), 1);
    assert_eq!(q.push(20), Ok(()));
    assert_eq!(q.len(), 2);
    assert_eq!(q.pop(), Ok(10));
    assert_eq!(q.len(), 1);
}

#[test]
fn close_unbounded() {
    let mut q = ConcurrentQueue::unbounded();
    assert_eq!(q.push(10), Ok(()));
    assert!(q.close());
    assert!(!q.close());
    assert_eq!(q.push(20), Err(PushError::Closed(20)));
    assert_eq!(q.len(), 1);
    assert_eq!(q.pop(), Ok(10));
    assert_eq!(q.pop(), Err(PopError::Closed));
}

#[test]
fn is_closed_after_close() {
    let mut q = ConcurrentQueue::<i32>::unbounded();
    assert!(!q.is_closed());
    q.close();
    assert!(q.is_closed());

    let mut q = ConcurrentQueue::<i32>::bounded(4);
    assert!(!q.is_closed());
    q.close();
    assert!(q.is_closed());
    assert_eq!(q.capacity(), Some(4));
    assert_eq!(q.len(), 0);
}

#[test]
fn close_keeps_len_and_fullness() {
    let mut q = ConcurrentQueue::bounded(2);
    q.push(1).unwrap();
    q.push(2).unwrap();
    assert!(q.close());
    assert!(q.is_full());
    assert!(!q.is_empty());
    assert_eq!(q.len(), 2);
    assert_eq!(q.pop(), Ok(1));
    assert_eq!(q.len(), 1);
    assert!(!q.is_full());
    assert_eq!(q.pop(), Ok(2));
    assert!(q.is_empty());
    assert_eq!(q.pop(), Err(PopError::Closed));
}

#[test]
fn close_empty_queue() {
    let mut q = ConcurrentQueue::<u8>::bounded(3);
    assert!(q.close());
    assert_eq!(q.pop(), Err(PopError::Closed));
    assert_eq!(q.push(1), Err(PushError::Closed(1)));

    let mut q = ConcurrentQueue::<u8>::unbounded();
    assert!(q.close());
    assert_eq!(q.pop(), Err(PopError::Closed));
    assert_eq!(q.push(1), Err(PushError::Closed(1)));
    assert!(q.is_empty());
}

/// A ring of one slot starts a new lap with every push.
#[test]
fn single_slot_many_laps() {
    let mut q = ConcurrentQueue::bounded(1);
    for i in 0..1000u32 {
        assert_eq!(q.len(), 0);
        assert_eq!(q.push(i), Ok(()));
        assert_eq!(q.len(), 1);
        assert!(q.is_full());
        assert_eq!(q.push(i + 1), Err(PushError::Full(i + 1)));
        assert_eq!(q.pop(), Ok(i));
        assert_eq!(q.pop(), Err(PopError::Empty));
    }
}

/// Capacities that are and are not powers of two, with head and tail at every offset.
#[test]
fn ring_wraps_in_order() {
    for cap in 1..=9usize {
        let mut q = ConcurrentQueue::bounded(cap);
        let mut next_in = 0usize;
        let mut next_out = 0usize;
        for round in 0..(5 * cap) {
            let fill = round % cap + 1;
            while q.len() < fill {
                assert_eq!(q.push(next_in), Ok(()));
                next_in += 1;
            }
            assert_eq!(q.len(), next_in - next_out);
            assert_eq!(q.is_full(), fill == cap);
            if fill == cap {
                assert_eq!(q.push(usize::MAX), Err(PushError::Full(usize::MAX)));
            }
            let drain = round % fill + 1;
            for _ in 0..drain {
                assert_eq!(q.pop(), Ok(next_out));
                next_out += 1;
            }
            assert_eq!(q.len(), next_in - next_out);
            assert_eq!(q.is_empty(), next_in == next_out);
        }
        while next_out < next_in {
            assert_eq!(q.pop(), Ok(next_out));
            next_out += 1;
        }
        assert_eq!(q.pop(), Err(PopError::Empty));
        assert_eq!(q.capacity(), Some(cap));
    }
}

/// Head and tail cross the ends of blocks, together and apart.
#[test]
fn blocks_are_chained_and_unlinked() {
    let mut q = ConcurrentQueue::unbounded();
    let mut next_in = 0usize;
    let mut next_out = 0usize;
    for round in 0..200usize {
        for _ in 0..(round % 70) {
            assert_eq!(q.push(next_in), Ok(()));
            next_in += 1;
        }
        assert_eq!(q.len(), next_in - next_out);
        for _ in 0..(round % 53) {
            if next_out < next_in {
                assert_eq!(q.pop(), Ok(next_out));
                next_out += 1;
            } else {
                assert_eq!(q.pop(), Err(PopError::Empty));
            }
        }
        assert_eq!(q.len(), next_in - next_out);
        assert_eq!(q.is_empty(), next_in == next_out);
    }
    while next_out < next_in {
        assert_eq!(q.pop(), Ok(next_out));
        next_out += 1;
    }
    assert_eq!(q.pop(), Err(PopError::Empty));
}

/// Exactly one block, then exactly two.
#[test]
fn block_boundaries() {
    let mut q = ConcurrentQueue::unbounded();
    for i in 0..32u32 {
        q.push(i).unwrap();
    }
    assert_eq!(q.len(), 32);
    for i in 0..32u32 {
        assert_eq!(q.pop(), Ok(i));
    }
    assert_eq!(q.len(), 0);
    assert_eq!(q.pop(), Err(PopError::Empty));
    for i in 0..64u32 {
        q.push(i).unwrap();
    }
    assert_eq!(q.len(), 64);
    assert!(q.close());
    for i in 0..64u32 {
        assert_eq!(q.pop(), Ok(i));
        assert_eq!(q.len(), 63 - i as usize);
    }
    assert_eq!(q.pop(), Err(PopError::Closed));
}

/// Items that own memory are moved in and out, and a rejected one comes back whole.
#[test]
fn owned_items() {
    let mut q = ConcurrentQueue::bounded(2);
    assert_eq!(q.push(String::from("one")), Ok(()));
    assert_eq!(q.push(String::from("two")), Ok(()));
    match q.push(String::from("three")) {
        Err(PushError::Full(item)) => assert_eq!(item, "three"),
        other => panic!("{:?}", other),
    }
    assert_eq!(q.pop().unwrap(), "one");
    q.close();
    match q.push(String::from("four")) {
        Err(PushError::Closed(item)) => assert_eq!(item, "four"),
        other => panic!("{:?}", other),
    }
    assert_eq!(q.pop().unwrap(), "two");
}

#[test]
fn error_messages() {
    assert_eq!(PopError::Empty.message(), "Empty");
    assert_eq!(PopError::Closed.message(), "Closed");
    assert_eq!(PushError::Full(1).message(), "Full");
    assert_eq!(PushError::Closed(1).message(), "Closed");
    assert_eq!(format!("{:?}", PopError::Empty), "Empty");
    assert_eq!(format!("{:?}", PopError::Closed), "Closed");
    assert_eq!(format!("{:?}", PushError::Full('c')), "Full('c')");
    assert_eq!(format!("{:?}", PushError::Closed(7)), "Closed(7)");
}

#[test]
fn limits() {
    assert_eq!(MAX_CAPACITY, usize::MAX / 8);
    assert_eq!(MAX_LEN, usize::MAX / 2);
    // The largest ring takes a stride of at most a quarter of the words there are.
    assert!(MAX_CAPACITY.next_power_of_two() <= usize::MAX / 4 + 1);
}
