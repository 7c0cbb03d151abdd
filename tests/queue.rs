use std::cell::Cell;
use std::rc::Rc;

use double_link::DoubleLink;

#[test]
fn ebr_simple() {
    let mut queue = DoubleLink::new();
    assert!(queue.dequeue().is_none());
    queue.enqueue(1);
    queue.enqueue(2);
    queue.enqueue(3);
    assert_eq!(queue.dequeue().unwrap(), 1);
    assert_eq!(queue.dequeue().unwrap(), 2);
    assert_eq!(queue.dequeue().unwrap(), 3);
    assert!(queue.dequeue().is_none());
}

#[test]
fn hp_simple() {
    let mut queue = DoubleLink::new();
    assert!(queue.dequeue().is_none());
    queue.enqueue(1);
    queue.enqueue(2);
    queue.enqueue(3);
    assert_eq!(queue.dequeue().unwrap(), 1);
    assert_eq!(queue.dequeue().unwrap(), 2);
    assert_eq!(queue.dequeue().unwrap(), 3);
    assert!(queue.dequeue().is_none());
}

#[test]
fn new_queue_dequeues_none() {
    let mut queue: DoubleLink<u64> = DoubleLink::new();
    assert_eq!(queue.dequeue(), None);
    assert_eq!(queue.dequeue(), None);
}

#[test]
fn three_in_then_out_in_order() {
    let mut queue = DoubleLink::new();
    queue.enqueue(1u32);
    queue.enqueue(2u32);
    queue.enqueue(3u32);
    assert_eq!(queue.dequeue(), Some(1));
    assert_eq!(queue.dequeue(), Some(2));
    assert_eq!(queue.dequeue(), Some(3));
    assert_eq!(queue.dequeue(), None);
}

#[test]
fn fifo_with_interleaved_dequeues() {
    let mut queue = DoubleLink::new();
    let mut out = Vec::new();
    for i in 0..100u64 {
        queue.enqueue(i);
        if i % 3 == 0 {
            out.push(queue.dequeue().unwrap());
        }
    }
    while let Some(x) = queue.dequeue() {
        out.push(x);
    }
    assert_eq!(out, (0..100u64).collect::<Vec<_>>());
}

#[test]
fn two_ranges_drain_to_a_permutation() {
    let mut queue = DoubleLink::new();
    for i in 0..5000u64 {
        queue.enqueue(i);
        queue.enqueue(5000 + i);
    }
    let mut seen = vec![0u32; 10000];
    let mut count = 0usize;
    while let Some(x) = queue.dequeue() {
        seen[x as usize] += 1;
        count += 1;
    }
    assert_eq!(count, 10000);
    assert!(seen.iter().all(|&c| c == 1));
}

#[test]
fn tagged_items_each_seen_once() {
    let producers = 8u64;
    let per = 500u64;
    let mut queue = DoubleLink::new();
    let mut seen = vec![0u32; (producers * per) as usize];
    for round in 0..per {
        for p in 0..producers {
            queue.enqueue((p, round));
        }
        if round % 2 == 1 {
            let (p, r) = queue.dequeue().unwrap();
            seen[(p * per + r) as usize] += 1;
        }
    }
    while let Some((p, r)) = queue.dequeue() {
        seen[(p * per + r) as usize] += 1;
    }
    assert!(seen.iter().all(|&c| c == 1));
}

#[test]
fn cells_are_reused_across_cycles() {
    let mut queue = DoubleLink::new();
    for cycle in 0..1000u64 {
        queue.enqueue(cycle);
        queue.enqueue(cycle + 1);
        assert_eq!(queue.dequeue(), Some(cycle));
        assert_eq!(queue.dequeue(), Some(cycle + 1));
        assert_eq!(queue.dequeue(), None);
    }
}

#[test]
fn destroy_returns_what_was_left() {
    let mut queue = DoubleLink::new();
    queue.enqueue('a');
    queue.enqueue('b');
    queue.enqueue('c');
    assert_eq!(queue.dequeue(), Some('a'));
    assert_eq!(queue.destroy(), vec!['b', 'c']);
}

#[test]
fn destroy_empty_queue() {
    let queue: DoubleLink<String> = DoubleLink::new();
    assert!(queue.destroy().is_empty());
}

struct Counted(Rc<Cell<usize>>);

impl Drop for Counted {
    fn drop(&mut self) {
        self.0.set(self.0.get() + 1);
    }
}

#[test]
fn destroying_a_non_empty_queue_drops_each_item_once() {
    let drops = Rc::new(Cell::new(0usize));
    let mut queue = DoubleLink::new();
    for _ in 0..10 {
        queue.enqueue(Counted(drops.clone()));
    }
    drop(queue.dequeue());
    drop(queue.dequeue());
    assert_eq!(drops.get(), 2);
    drop(queue.destroy());
    assert_eq!(drops.get(), 10);
}

#[test]
fn dropping_a_non_empty_queue_drops_each_item_once() {
    let drops = Rc::new(Cell::new(0usize));
    let mut queue = DoubleLink::new();
    for _ in 0..7 {
        queue.enqueue(Counted(drops.clone()));
    }
    drop(queue.dequeue());
    drop(queue);
    assert_eq!(drops.get(), 7);
}
