//! The laws of whole runs, on runs that are written out.

use crossbeam_queue::ring::{Interleaving, Outcome};
use crossbeam_queue::{BoundedRingQueue, UnboundedSegmentQueue};

/// Sorts a copy, to compare two lists as multisets.
fn sorted(v: &[(usize, usize)]) -> Vec<(usize, usize)> {
    let mut v = v.to_vec();
    v.sort();
    v
}

/// The elements of `v` that producer `p` pushed, in the order of `v`.
fn of_producer(v: &[(usize, usize)], p: usize) -> Vec<(usize, usize)> {
    v.iter().copied().filter(|e| e.0 == p).collect()
}

/// A run of pushes, forced pushes and pops by three producers on a ring of
/// capacity 3, with what was accepted, what was popped, what was evicted,
/// and what is left.
struct Run {
    accepted: Vec<(usize, usize)>,
    departed: Vec<(usize, usize)>,
    popped: Vec<(usize, usize)>,
    evicted: Vec<(usize, usize)>,
    left: Vec<(usize, usize)>,
    longest: usize,
}

fn ring_run() -> Run {
    let mut q = BoundedRingQueue::new(3).unwrap();
    let mut run = Run {
        accepted: vec![],
        departed: vec![],
        popped: vec![],
        evicted: vec![],
        left: vec![],
        longest: 0,
    };
    let mut next = [0usize; 3];
    for round in 0..200usize {
        let p = round % 3;
        let element = (p, next[p]);
        match round % 7 {
            0 | 1 | 4 => {
                if q.push(element).is_ok() {
                    run.accepted.push(element);
                    next[p] += 1;
                }
            }
            2 | 5 => {
                if let Some(old) = q.force_push(element) {
                    run.evicted.push(old);
                    run.departed.push(old);
                }
                run.accepted.push(element);
                next[p] += 1;
            }
            _ => {
                if let Some(old) = q.pop() {
                    run.popped.push(old);
                    run.departed.push(old);
                }
            }
        }
        run.longest = run.longest.max(q.len());
    }
    run.left = q.drain();
    run
}

#[test]
fn fifo_per_producer() {
    let run = ring_run();
    assert!(run.accepted.len() > 100);
    for p in 0..3 {
        let mut out = of_producer(&run.departed, p);
        out.extend(of_producer(&run.left, p));
        assert_eq!(out, of_producer(&run.accepted, p));
        // Each producer numbered its elements 0, 1, 2, ...
        for (i, e) in out.iter().enumerate() {
            assert_eq!(*e, (p, i));
        }
    }
}

#[test]
fn conservation() {
    let run = ring_run();
    assert!(!run.popped.is_empty());
    assert!(!run.evicted.is_empty());
    assert!(!run.left.is_empty());
    let mut out = run.popped.clone();
    out.extend(run.evicted.iter().copied());
    out.extend(run.left.iter().copied());
    assert_eq!(sorted(&out), sorted(&run.accepted));
}

#[test]
fn bounded_occupancy() {
    let run = ring_run();
    assert_eq!(run.longest, 3);
    assert!(run.left.len() <= 3);
}

#[test]
fn no_loss_no_duplication() {
    let run = ring_run();
    // What left and what is left is, place by place, what was accepted.
    assert_eq!(run.accepted.len(), run.departed.len() + run.left.len());
    for (i, e) in run.accepted.iter().enumerate() {
        if i < run.departed.len() {
            assert_eq!(run.departed[i], *e);
        } else {
            assert_eq!(run.left[i - run.departed.len()], *e);
        }
    }
    // No element twice.
    let mut all = sorted(&run.accepted);
    let before = all.len();
    all.dedup();
    assert_eq!(all.len(), before);
}

#[test]
fn segment_queue_is_first_in_first_out_and_conserves() {
    let mut q = UnboundedSegmentQueue::new();
    let mut accepted = vec![];
    let mut popped = vec![];
    for round in 0..500usize {
        if round % 5 < 3 {
            q.push((round % 3, round)).unwrap();
            accepted.push((round % 3, round));
        } else if let Some(e) = q.pop() {
            popped.push(e);
        }
        assert_eq!(q.len(), accepted.len() - popped.len());
    }
    let left = q.drain();
    let mut out = popped.clone();
    out.extend(left.iter().copied());
    assert_eq!(out, accepted);
    for p in 0..3 {
        assert_eq!(of_producer(&out, p), of_producer(&accepted, p));
    }
}

#[test]
fn laws_hold_of_steps_in_any_order() {
    // Three producers and two consumers take turns step by step in an order
    // that a small generator makes up. The elements are listed in the order
    // in which their operations end, which need not be the order in which
    // they took effect; each producer's elements still come out in order.
    let mut state = 0x243F6A8885A308D3u64;
    let mut below = |n: usize| {
        state ^= state << 13;
        state ^= state >> 7;
        state ^= state << 17;
        (state % n as u64) as usize
    };
    let mut all = Interleaving::over(BoundedRingQueue::new(4).unwrap(), 5);
    let mut next = [0usize; 3];
    let mut accepted = vec![];
    let mut out: Vec<Vec<(usize, usize)>> = vec![vec![], vec![]];
    let mut evicted = vec![];
    for _ in 0..200_000 {
        let who = below(5);
        if all.is_idle(who) {
            if who < 3 {
                if who == 2 {
                    all.begin_force_push(who, (who, next[who])).unwrap();
                } else {
                    all.begin_push(who, (who, next[who])).unwrap();
                }
            } else {
                assert!(all.begin_pop(who));
            }
        }
        all.step(who);
        match all.finish(who) {
            Some(Outcome::Pushed) => {
                accepted.push((who, next[who]));
                next[who] += 1;
            }
            Some(Outcome::Evicted(e)) => {
                evicted.push(e);
                accepted.push((who, next[who]));
                next[who] += 1;
            }
            Some(Outcome::Rejected(e)) => assert_eq!(e, (who, next[who])),
            Some(Outcome::Popped(Some(e))) => out[who - 3].push(e),
            Some(Outcome::Popped(None)) => {}
            None => {}
        }
        assert!(all.len() <= 4);
    }
    // Let the operations under way come to their end, still taking turns:
    // one may be waiting for another.
    let mut under_way = 5;
    while under_way > 0 {
        under_way = 0;
        for who in 0..5 {
            if all.is_idle(who) {
                continue;
            }
            under_way += 1;
            all.step(who);
            match all.finish(who) {
                Some(Outcome::Pushed) => accepted.push((who, next[who])),
                Some(Outcome::Evicted(e)) => {
                    evicted.push(e);
                    accepted.push((who, next[who]));
                }
                Some(Outcome::Popped(Some(e))) => out[who - 3].push(e),
                _ => {}
            }
        }
    }
    let left = all.into_ring().drain();
    assert!(accepted.len() > 10_000);
    assert!(!evicted.is_empty());
    // Conservation, and no duplication.
    let mut every = out[0].clone();
    every.extend(out[1].iter().copied());
    every.extend(evicted.iter().copied());
    every.extend(left.iter().copied());
    assert_eq!(sorted(&every), sorted(&accepted));
    let mut once = sorted(&every);
    once.dedup();
    assert_eq!(once.len(), every.len());
    // Each consumer sees the elements of each producer in the order in
    // which that producer pushed them.
    for consumer in 0..2 {
        for p in 0..3 {
            let seen = of_producer(&out[consumer], p);
            for pair in seen.windows(2) {
                assert!(pair[0].1 < pair[1].1);
            }
        }
    }
}
