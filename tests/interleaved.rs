use double_link::{PendingEnqueue, SharedQueue};

struct Lcg(u64);

impl Lcg {
    fn below(&mut self, n: u64) -> u64 {
        self.0 = self.0.wrapping_mul(6364136223846793005).wrapping_add(1442695040888963407);
        (self.0 >> 33) % n
    }
}

/// Producers each enqueue their values in order, one enqueue in progress per
/// producer; a scheduler picks which producer steps next, with dequeues mixed
/// in. Returns the values in the order their tail swings succeeded and the
/// values dequeued, in order, after a final drain.
fn interleave(producers: Vec<Vec<u64>>, seed: u64, dequeue_one_in: u64) -> (Vec<u64>, Vec<u64>) {
    let mut rng = Lcg(seed);
    let mut q: SharedQueue<u64> = SharedQueue::new();
    let mut next_index = vec![0usize; producers.len()];
    let mut current: Vec<Option<(u64, PendingEnqueue<u64>)>> = producers.iter().map(|_| None).collect();
    let mut swung = Vec::new();
    let mut out = Vec::new();
    loop {
        for p in 0..producers.len() {
            if current[p].is_none() && next_index[p] < producers[p].len() {
                let v = producers[p][next_index[p]];
                next_index[p] += 1;
                current[p] = Some((v, q.begin_enqueue(v)));
            }
        }
        let active: Vec<usize> = (0..producers.len()).filter(|&p| current[p].is_some()).collect();
        if active.is_empty() {
            break;
        }
        if dequeue_one_in > 0 && rng.below(dequeue_one_in) == 0 {
            if let Some(x) = q.dequeue() {
                out.push(x);
            }
            continue;
        }
        let p = active[rng.below(active.len() as u64) as usize];
        let (v, op) = current[p].as_mut().unwrap();
        let v = *v;
        if q.step(op) {
            swung.push(v);
        }
        if op.is_done() {
            current[p] = None;
        }
    }
    while let Some(x) = q.dequeue() {
        out.push(x);
    }
    (swung, out)
}

#[test]
fn empty_shared_queue_dequeues_none() {
    let mut q: SharedQueue<u64> = SharedQueue::new();
    assert_eq!(q.dequeue(), None);
}

#[test]
fn single_enqueue_steps_in_order() {
    let mut q = SharedQueue::new();
    let mut op = q.begin_enqueue(7u64);
    assert!(!q.step(&mut op));
    assert!(!q.step(&mut op));
    assert!(q.step(&mut op));
    assert!(!op.is_done());
    assert!(!q.step(&mut op));
    assert!(op.is_done());
    assert_eq!(q.dequeue(), Some(7));
    assert_eq!(q.dequeue(), None);
}

#[test]
fn three_enqueues_then_dequeues_in_order() {
    let mut q = SharedQueue::new();
    for v in [1u64, 2, 3] {
        let mut op = q.begin_enqueue(v);
        while !op.is_done() {
            q.step(&mut op);
        }
    }
    assert_eq!(q.dequeue(), Some(1));
    assert_eq!(q.dequeue(), Some(2));
    assert_eq!(q.dequeue(), Some(3));
    assert_eq!(q.dequeue(), None);
}

#[test]
fn racing_swing_fails_and_retries() {
    let mut q = SharedQueue::new();
    let mut a = q.begin_enqueue(1u64);
    let mut b = q.begin_enqueue(2u64);
    q.step(&mut a);
    q.step(&mut b);
    q.step(&mut a);
    q.step(&mut b);
    assert!(q.step(&mut a));
    assert!(!q.step(&mut b));
    // The swing succeeded but the forward link is still to come.
    assert_eq!(q.dequeue(), None);
    // b starts over; its help links the sentinel to a's cell.
    q.step(&mut b);
    q.step(&mut b);
    assert_eq!(q.dequeue(), Some(1));
    assert!(q.step(&mut b));
    q.step(&mut a);
    q.step(&mut b);
    assert!(a.is_done() && b.is_done());
    assert_eq!(q.dequeue(), Some(2));
    assert_eq!(q.dequeue(), None);
}

#[test]
fn two_producers_disjoint_ranges_drain_to_a_permutation() {
    let low: Vec<u64> = (0..5000).collect();
    let high: Vec<u64> = (5000..10000).collect();
    let (swung, out) = interleave(vec![low, high], 11, 0);
    assert_eq!(out.len(), 10000);
    assert_eq!(out, swung);
    let mut sorted = out.clone();
    sorted.sort();
    assert_eq!(sorted, (0..10000).collect::<Vec<u64>>());
}

#[test]
fn many_producers_with_dequeues_lose_and_duplicate_nothing() {
    let producers: Vec<Vec<u64>> = (0..16u64).map(|p| (0..200u64).map(|i| p * 1000 + i).collect()).collect();
    for seed in [1u64, 2, 3, 42] {
        let (swung, out) = interleave(producers.clone(), seed, 5);
        assert_eq!(out, swung);
        let mut seen = vec![0u32; 16000];
        for &x in &out {
            seen[x as usize] += 1;
        }
        for p in 0..16u64 {
            for i in 0..200u64 {
                assert_eq!(seen[(p * 1000 + i) as usize], 1);
            }
        }
        // Each producer's values come out in the order it enqueued them.
        for p in 0..16u64 {
            let mine: Vec<u64> = out.iter().copied().filter(|x| x / 1000 == p).collect();
            assert_eq!(mine, producers[p as usize]);
        }
    }
}
