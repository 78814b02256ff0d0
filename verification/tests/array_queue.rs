//! The bounded queue under interleaved producers and consumers.
//!
//! Each producer and consumer is a small state machine; a pseudo-random
//! schedule decides whose call comes next.

use crossbeam_queue::ring::{Interleaving, Outcome};
use crossbeam_queue::storage::{granted, reserve};
use crossbeam_queue::{AllocationFailure, BoundedRingQueue};
use std::cell::Cell;
use std::rc::Rc;

/// A small deterministic generator for schedules and sizes.
struct Schedule(u64);

impl Schedule {
    fn next(&mut self) -> u64 {
        self.0 ^= self.0 << 13;
        self.0 ^= self.0 >> 7;
        self.0 ^= self.0 << 17;
        self.0
    }

    fn below(&mut self, n: usize) -> usize {
        (self.next() % n as u64) as usize
    }
}

/// Lets owner `who` make one step of its operation and returns what the
/// operation returned, if that step was its last.
fn turn<T>(all: &mut Interleaving<T>, who: usize) -> Option<Outcome<T>> {
    all.step(who);
    all.finish(who)
}

#[test]
fn spsc() {
    const COUNT: usize = 100_000;

    let mut schedule = Schedule(0x9E3779B97F4A7C15);
    let mut all = Interleaving::over(BoundedRingQueue::new(3).unwrap(), 2);
    let mut produced = 0;
    let mut consumed = 0;
    while produced < COUNT || consumed < COUNT {
        if schedule.below(2) == 0 {
            if produced < COUNT {
                if all.is_idle(0) {
                    all.begin_push(0, produced).unwrap();
                }
                match turn(&mut all, 0) {
                    Some(Outcome::Pushed) => produced += 1,
                    Some(Outcome::Rejected(i)) => assert_eq!(i, produced),
                    Some(other) => panic!("a push returned {:?}", other),
                    None => {}
                }
            }
        } else if consumed < COUNT {
            if all.is_idle(1) {
                assert!(all.begin_pop(1));
            }
            match turn(&mut all, 1) {
                Some(Outcome::Popped(Some(x))) => {
                    assert_eq!(x, consumed);
                    consumed += 1;
                }
                Some(Outcome::Popped(None)) => {}
                Some(other) => panic!("a pop returned {:?}", other),
                None => {}
            }
        }
    }
    let mut q = all.into_ring();
    assert!(q.pop().is_none());
}

#[test]
fn spsc_ring_buffer() {
    const COUNT: usize = 100_000;

    let mut schedule = Schedule(0xD1B54A32D192ED03);
    let mut t = 1;
    let mut all = Interleaving::over(BoundedRingQueue::<usize>::new(3).unwrap(), 2);
    let mut v = (0..COUNT).map(|_| 0usize).collect::<Vec<_>>();
    let mut produced = 0;
    let mut consumer_done = false;
    while t != 0 || !consumer_done {
        if schedule.below(2) == 0 {
            if produced < COUNT {
                if all.is_idle(0) {
                    all.begin_force_push(0, produced).unwrap();
                }
                match turn(&mut all, 0) {
                    Some(Outcome::Pushed) => produced += 1,
                    Some(Outcome::Evicted(n)) => {
                        v[n] += 1;
                        produced += 1;
                    }
                    Some(other) => panic!("a forced push returned {:?}", other),
                    None => {}
                }
                if produced == COUNT {
                    t -= 1;
                }
            }
        } else if !consumer_done {
            if all.is_idle(1) {
                if t == 0 && all.len() == 0 {
                    consumer_done = true;
                    continue;
                }
                assert!(all.begin_pop(1));
            }
            match turn(&mut all, 1) {
                Some(Outcome::Popped(Some(n))) => v[n] += 1,
                Some(Outcome::Popped(None)) => {}
                Some(other) => panic!("a pop returned {:?}", other),
                None => {}
            }
        }
    }
    for c in v.iter() {
        assert_eq!(*c, 1);
    }
}

#[test]
fn mpmc() {
    const COUNT: usize = 25_000;
    const THREADS: usize = 4;

    let mut schedule = Schedule(0xA0761D6478BD642F);
    let mut all = Interleaving::over(BoundedRingQueue::<usize>::new(3).unwrap(), 2 * THREADS);
    let mut v = (0..COUNT).map(|_| 0usize).collect::<Vec<_>>();
    let mut produced = [0usize; THREADS];
    let mut consumed = [0usize; THREADS];
    let mut running = 2 * THREADS;
    while running > 0 {
        let who = schedule.below(2 * THREADS);
        if who < THREADS {
            if consumed[who] < COUNT {
                if all.is_idle(who) {
                    assert!(all.begin_pop(who));
                }
                match turn(&mut all, who) {
                    Some(Outcome::Popped(Some(n))) => {
                        v[n] += 1;
                        consumed[who] += 1;
                        if consumed[who] == COUNT {
                            running -= 1;
                        }
                    }
                    Some(Outcome::Popped(None)) => {}
                    Some(other) => panic!("a pop returned {:?}", other),
                    None => {}
                }
            }
        } else {
            let i = who - THREADS;
            if produced[i] < COUNT {
                if all.is_idle(who) {
                    all.begin_push(who, produced[i]).unwrap();
                }
                match turn(&mut all, who) {
                    Some(Outcome::Pushed) => {
                        produced[i] += 1;
                        if produced[i] == COUNT {
                            running -= 1;
                        }
                    }
                    Some(Outcome::Rejected(n)) => assert_eq!(n, produced[i]),
                    Some(other) => panic!("a push returned {:?}", other),
                    None => {}
                }
            }
        }
    }
    for c in v {
        assert_eq!(c, THREADS);
    }
}

#[test]
fn mpmc_ring_buffer() {
    const COUNT: usize = 25_000;
    const THREADS: usize = 4;

    let mut schedule = Schedule(0xE7037ED1A0B428DB);
    let mut t = THREADS;
    let mut all = Interleaving::over(BoundedRingQueue::<usize>::new(3).unwrap(), 2 * THREADS);
    let mut v = (0..COUNT).map(|_| 0usize).collect::<Vec<_>>();
    let mut produced = [0usize; THREADS];
    let mut consumer_done = [false; THREADS];
    let mut running = 2 * THREADS;
    while running > 0 {
        let who = schedule.below(2 * THREADS);
        if who < THREADS {
            if !consumer_done[who] {
                if all.is_idle(who) {
                    if t == 0 && all.len() == 0 {
                        consumer_done[who] = true;
                        running -= 1;
                        continue;
                    }
                    assert!(all.begin_pop(who));
                }
                match turn(&mut all, who) {
                    Some(Outcome::Popped(Some(n))) => v[n] += 1,
                    Some(Outcome::Popped(None)) => {}
                    Some(other) => panic!("a pop returned {:?}", other),
                    None => {}
                }
            }
        } else {
            let i = who - THREADS;
            if produced[i] < COUNT {
                if all.is_idle(who) {
                    all.begin_force_push(who, produced[i]).unwrap();
                }
                let done = match turn(&mut all, who) {
                    Some(Outcome::Pushed) => true,
                    Some(Outcome::Evicted(n)) => {
                        v[n] += 1;
                        true
                    }
                    Some(other) => panic!("a forced push returned {:?}", other),
                    None => false,
                };
                if done {
                    produced[i] += 1;
                    if produced[i] == COUNT {
                        t -= 1;
                        running -= 1;
                    }
                }
            }
        }
    }
    for c in v {
        assert_eq!(c, THREADS);
    }
}

#[derive(Debug)]
struct DropCounter(Rc<Cell<usize>>);

impl PartialEq for DropCounter {
    fn eq(&self, _: &DropCounter) -> bool {
        true
    }
}

impl Drop for DropCounter {
    fn drop(&mut self) {
        self.0.set(self.0.get() + 1);
    }
}

#[test]
fn drops() {
    let runs: usize = 100;
    let steps: usize = 10_000;
    let additional: usize = 50;

    let drops = Rc::new(Cell::new(0usize));
    let mut rng = Schedule(0x8EBC6AF09C88C6E3);

    for _ in 0..runs {
        let steps = rng.below(steps);
        let additional = rng.below(additional);

        drops.set(0);
        let mut q = BoundedRingQueue::new(50).unwrap();

        let mut popped = 0;
        let mut pushed = 0;
        while popped < steps || pushed < steps {
            if rng.below(2) == 0 {
                if popped < steps && q.pop().is_some() {
                    popped += 1;
                }
            } else if pushed < steps {
                if q.push(DropCounter(drops.clone())).is_ok() {
                    pushed += 1;
                } else {
                    // The rejected element came back and was dropped here.
                    drops.set(drops.get() - 1);
                }
            }
        }

        for _ in 0..additional {
            q.push(DropCounter(drops.clone())).unwrap();
        }

        assert_eq!(drops.get(), steps);
        drop(q);
        assert_eq!(drops.get(), steps + additional);
    }
}

#[test]
fn linearizable() {
    const COUNT: usize = 25_000;
    const THREADS: usize = 4;

    let mut schedule = Schedule(0x589965CC75374CC3);
    let mut all = Interleaving::over(BoundedRingQueue::new(THREADS).unwrap(), THREADS);
    // Even owners push and then pop; odd owners force-push, and pop if
    // nothing was evicted. `owes_pop[i]` says that owner `i` has pushed and
    // will pop next.
    let mut rounds = [0usize; THREADS];
    let mut owes_pop = [false; THREADS];
    let mut running = THREADS;
    while running > 0 {
        let who = schedule.below(THREADS);
        if rounds[who] == COUNT {
            continue;
        }
        if all.is_idle(who) {
            if owes_pop[who] {
                assert!(all.begin_pop(who));
            } else if who % 2 == 0 {
                all.begin_push(who, 0).unwrap();
            } else {
                all.begin_force_push(who, 0).unwrap();
            }
        }
        match turn(&mut all, who) {
            Some(Outcome::Pushed) => owes_pop[who] = true,
            Some(Outcome::Rejected(_)) => {}
            Some(Outcome::Evicted(_)) => rounds[who] += 1,
            // The element that this owner pushed, or one like it, is still
            // in the queue when it pops: the pop finds one.
            Some(Outcome::Popped(x)) => {
                x.unwrap();
                owes_pop[who] = false;
                rounds[who] += 1;
            }
            None => {}
        }
        if rounds[who] == COUNT {
            running -= 1;
        }
        assert!(all.len() <= THREADS);
    }
    assert!(all.len() <= THREADS);
}

#[test]
fn a_pop_waits_for_the_stamp() {
    let mut all = Interleaving::over(BoundedRingQueue::new(2).unwrap(), 2);
    all.begin_push(0, 'a').unwrap();
    // Load the tail, load the stamp, move the tail: the slot is claimed but
    // holds nothing yet.
    assert!(all.step(0));
    assert!(all.step(0));
    assert!(all.step(0));
    assert_eq!(all.len(), 1);
    // A pop that comes now finds neither an element nor an empty queue, and
    // starts over.
    assert!(all.begin_pop(1));
    for _ in 0..9 {
        assert!(all.step(1));
        assert_eq!(all.finish(1), None);
    }
    // Write the value, stamp the slot.
    assert!(all.step(0));
    assert!(all.step(0));
    assert_eq!(all.finish(0), Some(Outcome::Pushed));
    // Now the pop gets it.
    let mut steps = 0;
    while !all.is_done(1) {
        assert!(all.step(1));
        steps += 1;
        assert!(steps < 10);
    }
    assert_eq!(all.finish(1), Some(Outcome::Popped(Some('a'))));
    assert_eq!(all.len(), 0);
}

#[test]
fn the_loser_of_a_race_for_the_tail_takes_the_next_slot() {
    let mut all = Interleaving::over(BoundedRingQueue::new(4).unwrap(), 3);
    all.begin_push(0, 10).unwrap();
    all.begin_push(1, 11).unwrap();
    // Both load the tail and the stamp of the same slot.
    for who in [0, 1, 0, 1] {
        assert!(all.step(who));
    }
    // Owner 1 moves the tail first; owner 0 fails to and looks again.
    assert!(all.step(1));
    assert!(all.step(0));
    while !all.is_done(0) {
        assert!(all.step(0));
    }
    while !all.is_done(1) {
        assert!(all.step(1));
    }
    assert_eq!(all.finish(0), Some(Outcome::Pushed));
    assert_eq!(all.finish(1), Some(Outcome::Pushed));
    let mut q = all.into_ring();
    assert_eq!(q.drain(), vec![11, 10]);
}

#[test]
fn a_full_queue_rejects_in_the_step_that_looks_at_the_head() {
    let mut q = BoundedRingQueue::new(1).unwrap();
    q.push(1).unwrap();
    q.pop().unwrap();
    let mut all = Interleaving::over(q, 2);
    all.begin_push(0, 2).unwrap();
    while !all.is_done(0) {
        assert!(all.step(0));
    }
    assert_eq!(all.finish(0), Some(Outcome::Pushed));
    all.begin_push(0, 3).unwrap();
    // Tail and stamp say that the slot is taken.
    assert!(all.step(0));
    assert!(all.step(0));
    // A pop empties the queue before the push looks at the head: the push
    // is not rejected but starts over, and gets in.
    assert!(all.begin_pop(1));
    while !all.is_done(1) {
        assert!(all.step(1));
    }
    assert_eq!(all.finish(1), Some(Outcome::Popped(Some(2))));
    while !all.is_done(0) {
        assert!(all.step(0));
    }
    assert_eq!(all.finish(0), Some(Outcome::Pushed));
    // The next push does find the queue full.
    all.begin_push(0, 4).unwrap();
    while !all.is_done(0) {
        assert!(all.step(0));
    }
    assert_eq!(all.finish(0), Some(Outcome::Rejected(4)));
}

#[test]
fn an_eviction_and_a_pop_take_different_elements() {
    let mut q = BoundedRingQueue::new(2).unwrap();
    let mut all = {
        // One push and one pop first, so that the slots are in their second
        // lap.
        let mut all = Interleaving::over(q, 2);
        for v in [0, 1, 2] {
            all.begin_push(0, v).unwrap();
            while !all.is_done(0) {
                all.step(0);
            }
            all.finish(0);
            if v == 0 {
                assert!(all.begin_pop(1));
                while !all.is_done(1) {
                    all.step(1);
                }
                assert_eq!(all.finish(1), Some(Outcome::Popped(Some(0))));
            }
        }
        all
    };
    assert_eq!(all.len(), 2);
    // The forced push evicts 1 by moving the head ...
    all.begin_force_push(0, 3).unwrap();
    assert!(all.step(0));
    assert!(all.step(0));
    assert!(all.step(0));
    assert_eq!(all.len(), 1);
    // ... and before it has moved the tail, a pop takes 2.
    assert!(all.begin_pop(1));
    while !all.is_done(1) {
        assert!(all.step(1));
    }
    assert_eq!(all.finish(1), Some(Outcome::Popped(Some(2))));
    assert_eq!(all.len(), 0);
    while !all.is_done(0) {
        assert!(all.step(0));
    }
    assert_eq!(all.finish(0), Some(Outcome::Evicted(1)));
    q = all.into_ring();
    assert_eq!(q.drain(), vec![3]);
}

#[test]
fn owners_out_of_range_and_busy_owners() {
    let mut all = Interleaving::over(BoundedRingQueue::new(2).unwrap(), 1);
    assert_eq!(all.owner_count(), 1);
    assert_eq!(all.begin_push(1, 5), Err(5));
    assert_eq!(all.begin_force_push(7, 6), Err(6));
    assert!(!all.begin_pop(1));
    assert!(!all.step(1));
    assert!(!all.step(0));
    assert_eq!(all.finish(0), None);
    assert!(all.is_idle(0));
    assert!(!all.is_idle(1));
    all.begin_push(0, 5).unwrap();
    assert_eq!(all.begin_push(0, 6), Err(6));
    assert!(!all.begin_pop(0));
    assert!(!all.is_idle(0));
    assert!(!all.is_done(0));
    let mut steps = 0;
    while all.step(0) {
        steps += 1;
    }
    // Load the tail, load the stamp, move the tail, write, stamp.
    assert_eq!(steps, 5);
    assert!(all.is_done(0));
    assert_eq!(all.finish(0), Some(Outcome::Pushed));
    assert!(all.is_idle(0));
}

#[test]
fn new_queue_is_empty() {
    let q = BoundedRingQueue::<u8>::new(5).unwrap();
    assert_eq!(q.capacity(), 5);
    assert_eq!(q.len(), 0);
    assert!(q.is_empty());
    assert!(!q.is_full());
}

#[test]
fn push_is_rejected_when_full() {
    let mut q = BoundedRingQueue::new(2).unwrap();
    assert_eq!(q.push('a'), Ok(()));
    assert_eq!(q.push('b'), Ok(()));
    assert!(q.is_full());
    assert_eq!(q.push('c'), Err('c'));
    assert_eq!(q.len(), 2);
    assert_eq!(q.pop(), Some('a'));
    assert_eq!(q.push('c'), Ok(()));
    assert_eq!(q.pop(), Some('b'));
    assert_eq!(q.pop(), Some('c'));
    assert_eq!(q.pop(), None);
    assert!(q.is_empty());
}

#[test]
fn force_push_evicts_the_oldest() {
    let mut q = BoundedRingQueue::new(3).unwrap();
    assert_eq!(q.force_push(1), None);
    assert_eq!(q.force_push(2), None);
    assert_eq!(q.force_push(3), None);
    assert_eq!(q.force_push(4), Some(1));
    assert_eq!(q.force_push(5), Some(2));
    assert_eq!(q.len(), 3);
    assert_eq!(q.drain(), vec![3, 4, 5]);
    assert_eq!(q.len(), 0);
}

#[test]
fn capacity_one() {
    let mut q = BoundedRingQueue::new(1).unwrap();
    for i in 0..1000u32 {
        assert!(q.is_empty());
        assert_eq!(q.push(i), Ok(()));
        assert!(q.is_full());
        assert_eq!(q.len(), 1);
        assert_eq!(q.push(i + 1), Err(i + 1));
        assert_eq!(q.force_push(i + 2), Some(i));
        assert_eq!(q.pop(), Some(i + 2));
        assert_eq!(q.pop(), None);
    }
}

#[test]
fn len_follows_pushes_and_pops_over_many_laps() {
    for cap in 1..10usize {
        let mut q = BoundedRingQueue::new(cap).unwrap();
        let mut next = 0usize;
        let mut oldest = 0usize;
        for round in 0..200usize {
            let burst = 1 + round % cap;
            for _ in 0..burst {
                if q.push(next).is_ok() {
                    next += 1;
                }
                assert_eq!(q.len(), next - oldest);
                assert!(q.len() <= q.capacity());
            }
            for _ in 0..(1 + round % 3) {
                if let Some(x) = q.pop() {
                    assert_eq!(x, oldest);
                    oldest += 1;
                }
                assert_eq!(q.len(), next - oldest);
            }
            assert_eq!(q.is_empty(), next == oldest);
            assert_eq!(q.is_full(), next - oldest == cap);
        }
    }
}

#[test]
fn drain_takes_everything_in_order() {
    let mut q = BoundedRingQueue::new(4).unwrap();
    for i in 0..6 {
        q.force_push(i);
    }
    assert_eq!(q.pop(), Some(2));
    assert_eq!(q.push(6), Ok(()));
    assert_eq!(q.drain(), vec![3, 4, 5, 6]);
    assert!(q.is_empty());
    assert_eq!(q.drain(), Vec::<i32>::new());
}

#[test]
fn allocation_refused() {
    assert_eq!(
        BoundedRingQueue::<u64>::with_storage(3, None).err(),
        Some(AllocationFailure)
    );
    assert!(BoundedRingQueue::<u64>::with_storage(3, Some(Vec::new())).is_ok());
    assert_eq!(BoundedRingQueue::<u64>::new(usize::MAX).err(), Some(AllocationFailure));
    assert_eq!(BoundedRingQueue::<u64>::new(usize::MAX / 2 + 1).err(), Some(AllocationFailure));
    assert_eq!(BoundedRingQueue::<u64>::new(usize::MAX / 2).err(), Some(AllocationFailure));
}

#[test]
fn every_element_is_dropped_once() {
    let drops = Rc::new(Cell::new(0usize));
    let mut q = BoundedRingQueue::new(3).unwrap();
    for _ in 0..3 {
        q.push(DropCounter(drops.clone())).unwrap();
    }
    // Rejected: comes back and is dropped by the caller.
    assert!(q.push(DropCounter(drops.clone())).is_err());
    assert_eq!(drops.get(), 1);
    // Evicted: comes back and is dropped by the caller.
    assert!(q.force_push(DropCounter(drops.clone())).is_some());
    assert_eq!(drops.get(), 2);
    drop(q.pop());
    assert_eq!(drops.get(), 3);
    drop(q);
    assert_eq!(drops.get(), 5);
}

#[test]
fn the_allocators_answer_decides() {
    let refusal = Vec::<u64>::new().try_reserve(usize::MAX);
    assert!(refusal.is_err());
    assert_eq!(granted(vec![1u8, 2], refusal), None);
    assert_eq!(granted(vec![1u8, 2], Ok(())), Some(vec![1u8, 2]));
    assert_eq!(reserve::<u64>(usize::MAX), None);
    assert_eq!(reserve::<u64>(4), Some(Vec::new()));
}
