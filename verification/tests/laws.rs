use concurrent_queue::{ConcurrentQueue, PopError, PushError};
use std::cell::RefCell;
use std::collections::VecDeque;
use std::rc::Rc;

/// A fixed pseudo-random sequence.
struct Dice(u64);

impl Dice {
    fn roll(&mut self, sides: u64) -> u64 {
        self.0 = self.0.wrapping_mul(6_364_136_223_846_793_005).wrapping_add(1_442_695_040_888_963_407);
        (self.0 >> 33) % sides
    }
}

/// Runs a history of pushes, pops and closes on `q` and on a plain reference queue, and holds
/// every answer of `q` against the reference. Producer `p` pushes `p * 1_000_000 + n` as its
/// `n`-th item. Returns the accepted and the delivered items, each in order.
fn run_history(
    q: &mut ConcurrentQueue<u64>,
    steps: usize,
    close_at: Option<usize>,
    dice: &mut Dice,
) -> (Vec<u64>, Vec<u64>) {
    let cap = q.capacity();
    let mut reference: VecDeque<u64> = VecDeque::new();
    let mut closed = false;
    let mut closes_that_won = 0;
    let mut sent = [0u64; 3];
    let mut accepted = Vec::new();
    let mut delivered = Vec::new();
    for step in 0..steps {
        if close_at == Some(step) || (closed && dice.roll(50) == 0) {
            let won = q.close();
            assert_eq!(won, !closed);
            closed = true;
            if won {
                closes_that_won += 1;
            }
        }
        if dice.roll(2) == 0 {
            let p = dice.roll(3) as usize;
            let value = p as u64 * 1_000_000 + sent[p];
            let expected = if closed {
                Err(PushError::Closed(value))
            } else if cap == Some(reference.len()) {
                Err(PushError::Full(value))
            } else {
                Ok(())
            };
            assert_eq!(q.push(value), expected);
            if expected.is_ok() {
                sent[p] += 1;
                reference.push_back(value);
                accepted.push(value);
            }
        } else {
            let expected = match reference.pop_front() {
                Some(value) => Ok(value),
                None if closed => Err(PopError::Closed),
                None => Err(PopError::Empty),
            };
            assert_eq!(q.pop(), expected);
            if let Ok(value) = expected {
                delivered.push(value);
            }
        }
        assert_eq!(q.len(), reference.len());
        assert_eq!(q.len(), accepted.len() - delivered.len());
        assert_eq!(q.is_empty(), reference.is_empty());
        assert_eq!(q.is_full(), cap == Some(reference.len()));
        assert_eq!(q.is_closed(), closed);
        assert_eq!(q.capacity(), cap);
        if let Some(cap) = cap {
            assert!(q.len() <= cap);
        }
    }
    assert!(closes_that_won <= 1);
    assert_eq!(closes_that_won == 1, closed);
    (accepted, delivered)
}

fn check_history(mut q: ConcurrentQueue<u64>, steps: usize, close_at: Option<usize>, seed: u64) {
    let mut dice = Dice(seed);
    let (accepted, mut delivered) = run_history(&mut q, steps, close_at, &mut dice);
    // The delivered items are the first of the accepted ones, in the same order.
    assert_eq!(delivered[..], accepted[..delivered.len()]);
    // Draining delivers the rest.
    let left = q.len();
    while let Ok(value) = q.pop() {
        delivered.push(value);
    }
    assert_eq!(delivered.len(), accepted.len());
    assert_eq!(accepted.len() - left, delivered.len() - left);
    assert_eq!(delivered, accepted);
    let mut a = accepted.clone();
    let mut d = delivered.clone();
    a.sort();
    d.sort();
    assert_eq!(a, d);
    d.dedup();
    assert_eq!(d.len(), delivered.len());
    // Each producer's items come out in the order that producer pushed them.
    for p in 0..3u64 {
        let from_p: Vec<u64> = delivered.iter().copied().filter(|v| v / 1_000_000 == p).collect();
        let count = from_p.len() as u64;
        assert_eq!(from_p, (0..count).map(|n| p * 1_000_000 + n).collect::<Vec<u64>>());
    }
}

#[test]
fn histories_on_bounded_queues() {
    for cap in [1usize, 2, 3, 4, 5, 8, 13, 64] {
        for seed in 0..8u64 {
            check_history(ConcurrentQueue::bounded(cap), 3000, None, seed * 31 + cap as u64);
        }
    }
}

#[test]
fn histories_on_unbounded_queues() {
    for seed in 0..16u64 {
        check_history(ConcurrentQueue::unbounded(), 5000, None, seed);
    }
}

#[test]
fn histories_with_a_close() {
    for seed in 0..8u64 {
        check_history(ConcurrentQueue::bounded(5), 2000, Some(700 + seed as usize), seed);
        check_history(ConcurrentQueue::unbounded(), 2000, Some(900 + seed as usize), seed);
        check_history(ConcurrentQueue::bounded(1), 100, Some(0), seed);
    }
}

#[test]
fn no_push_succeeds_after_close() {
    let mut q = ConcurrentQueue::bounded(8);
    for i in 0..3 {
        assert_eq!(q.push(i), Ok(()));
    }
    assert!(q.close());
    for i in 0..20 {
        assert_eq!(q.push(100 + i), Err(PushError::Closed(100 + i)));
        assert_eq!(q.len(), 3);
    }
    assert_eq!(q.pop(), Ok(0));
    assert_eq!(q.push(7), Err(PushError::Closed(7)));
    assert_eq!(q.pop(), Ok(1));
    assert_eq!(q.pop(), Ok(2));
    assert_eq!(q.push(7), Err(PushError::Closed(7)));
    assert_eq!(q.pop(), Err(PopError::Closed));
    assert_eq!(q.push(7), Err(PushError::Closed(7)));
    assert!(q.is_closed());
}

#[test]
fn only_the_first_close_returns_true() {
    let mut q = ConcurrentQueue::<u8>::unbounded();
    assert!(q.close());
    for _ in 0..10 {
        assert!(!q.close());
        assert!(q.is_closed());
    }
    let mut q = ConcurrentQueue::<u8>::bounded(2);
    q.push(1).unwrap();
    assert!(q.close());
    assert_eq!(q.pop(), Ok(1));
    for _ in 0..10 {
        assert!(!q.close());
    }
}

/// An item that writes its number into a log when it is dropped.
struct Noisy {
    id: usize,
    log: Rc<RefCell<Vec<usize>>>,
}

impl Drop for Noisy {
    fn drop(&mut self) {
        self.log.borrow_mut().push(self.id);
    }
}

fn noisy_queue(mut q: ConcurrentQueue<Noisy>, log: &Rc<RefCell<Vec<usize>>>) -> ConcurrentQueue<Noisy> {
    // Ten items go in, four come out and are dropped by the caller, six more go in: a ring of
    // twelve has wrapped by then, and a chain of blocks holds twelve items either way.
    for id in 0..10 {
        assert!(q.push(Noisy { id, log: Rc::clone(log) }).is_ok());
    }
    for id in 0..4 {
        let item = q.pop().ok().unwrap();
        assert_eq!(item.id, id);
    }
    for id in 10..16 {
        assert!(q.push(Noisy { id, log: Rc::clone(log) }).is_ok());
    }
    assert_eq!(log.borrow()[..], [0, 1, 2, 3]);
    log.borrow_mut().clear();
    q
}

#[test]
fn dropping_a_queue_drops_each_item_once() {
    for bounded in [true, false] {
        let log = Rc::new(RefCell::new(Vec::new()));
        let q = if bounded { ConcurrentQueue::bounded(12) } else { ConcurrentQueue::unbounded() };
        let q = noisy_queue(q, &log);
        assert_eq!(q.len(), 12);
        drop(q);
        let mut dropped = log.borrow().clone();
        dropped.sort();
        assert_eq!(dropped, (4..16).collect::<Vec<usize>>());
    }
}

#[test]
fn drain_hands_over_each_item_once_oldest_first() {
    for bounded in [true, false] {
        let log = Rc::new(RefCell::new(Vec::new()));
        let q = if bounded { ConcurrentQueue::bounded(12) } else { ConcurrentQueue::unbounded() };
        let mut q = noisy_queue(q, &log);
        q.close();
        let items = q.drain();
        assert_eq!(items.iter().map(|item| item.id).collect::<Vec<usize>>(), (4..16).collect::<Vec<usize>>());
        assert!(log.borrow().is_empty());
        assert_eq!(q.len(), 0);
        assert!(q.is_empty());
        assert!(q.is_closed());
        assert_eq!(q.pop().err(), Some(PopError::Closed));
        drop(q);
        assert!(log.borrow().is_empty());
        drop(items);
        assert_eq!(log.borrow()[..], (4..16).collect::<Vec<usize>>()[..]);
    }
}

#[test]
fn drain_leaves_an_open_queue_usable() {
    let mut q = ConcurrentQueue::bounded(3);
    q.push(1).unwrap();
    q.push(2).unwrap();
    q.push(3).unwrap();
    assert_eq!(q.drain(), vec![1, 2, 3]);
    assert_eq!(q.drain(), Vec::<i32>::new());
    assert!(!q.is_closed());
    assert_eq!(q.capacity(), Some(3));
    assert_eq!(q.push(4), Ok(()));
    assert_eq!(q.pop(), Ok(4));
    assert_eq!(q.pop(), Err(PopError::Empty));
}
