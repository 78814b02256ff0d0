//! The unbounded queue under interleaved producers and consumers.

use crossbeam_queue::seg_queue::{Interleaving, Outcome, Segment, BLOCK_CAP};
use crossbeam_queue::UnboundedSegmentQueue;
use std::cell::Cell;
use std::rc::Rc;

struct Turns(u64);

impl Turns {
    fn next(&mut self) -> u64 {
        self.0 ^= self.0 << 13;
        self.0 ^= self.0 >> 7;
        self.0 ^= self.0 << 17;
        self.0
    }

    fn below(&mut self, n: usize) -> usize {
        (self.next() % n as u64) as usize
    }
}

/// Lets owner `who` make one step of its operation and returns what the
/// operation returned, if that step was its last.
fn turn<T>(all: &mut Interleaving<T>, who: usize) -> Option<Outcome<T>> {
    all.step(who);
    all.finish(who)
}

#[test]
fn loom_spsc() {
    const COUNT: usize = 100_000;

    let mut turns = Turns(0x2545F4914F6CDD1D);
    let mut all = Interleaving::over(UnboundedSegmentQueue::new(), 2);
    let mut produced = 0;
    let mut consumed = 0;
    while produced < COUNT || consumed < COUNT {
        if turns.below(2) == 0 {
            if produced < COUNT {
                if all.is_idle(0) {
                    all.begin_push(0, produced).unwrap();
                }
                match turn(&mut all, 0) {
                    Some(Outcome::Pushed) => produced += 1,
                    Some(other) => panic!("a push returned {:?}", other),
                    None => {}
                }
            }
        } else if consumed < COUNT {
            if all.is_idle(1) {
                assert!(all.begin_pop(1));
            }
            match turn(&mut all, 1) {
                Some(Outcome::Popped(Some(x))) => {
                    assert_eq!(x, consumed);
                    consumed += 1;
                }
                Some(Outcome::Popped(None)) => {}
                Some(other) => panic!("a pop returned {:?}", other),
                None => {}
            }
        }
    }
    let mut q = all.into_queue();
    assert!(q.pop().is_none());
}

#[test]
fn loom_mpmc() {
    const COUNT: usize = 25_000;
    const THREADS: usize = 4;

    let mut turns = Turns(0x9FB21C651E98DF25);
    let mut all = Interleaving::over(UnboundedSegmentQueue::<usize>::new(), 2 * THREADS);
    let mut v = (0..COUNT).map(|_| 0usize).collect::<Vec<_>>();
    let mut produced = [0usize; THREADS];
    let mut consumed = [0usize; THREADS];
    let mut running = 2 * THREADS;
    while running > 0 {
        let who = turns.below(2 * THREADS);
        if who < THREADS {
            if consumed[who] < COUNT {
                if all.is_idle(who) {
                    assert!(all.begin_pop(who));
                }
                match turn(&mut all, who) {
                    Some(Outcome::Popped(Some(n))) => {
                        v[n] += 1;
                        consumed[who] += 1;
                        if consumed[who] == COUNT {
                            running -= 1;
                        }
                    }
                    Some(Outcome::Popped(None)) => {}
                    Some(other) => panic!("a pop returned {:?}", other),
                    None => {}
                }
            }
        } else {
            let i = who - THREADS;
            if produced[i] < COUNT {
                if all.is_idle(who) {
                    all.begin_push(who, produced[i]).unwrap();
                }
                match turn(&mut all, who) {
                    Some(Outcome::Pushed) => {
                        produced[i] += 1;
                        if produced[i] == COUNT {
                            running -= 1;
                        }
                    }
                    Some(other) => panic!("a push returned {:?}", other),
                    None => {}
                }
            }
        }
    }
    for c in v {
        assert_eq!(c, THREADS);
    }
    assert_eq!(all.len(), 0);
}

/// Runs the operation of owner `who` to its end and returns what it
/// returned.
fn finish<T>(all: &mut Interleaving<T>, who: usize) -> Outcome<T> {
    let mut steps = 0;
    while !all.is_done(who) {
        assert!(all.step(who));
        steps += 1;
        assert!(steps < 20);
    }
    all.finish(who).unwrap()
}

#[test]
fn two_pushes_race_to_link_a_segment() {
    let mut all = Interleaving::over(UnboundedSegmentQueue::new(), 3);
    // Both load the tail, which is where the queue starts, and find no
    // segment linked.
    all.begin_push(0, 'a').unwrap();
    all.begin_push(1, 'b').unwrap();
    for who in [0, 1, 0, 1] {
        assert!(all.step(who));
    }
    // Owner 1 links a segment; owner 0 finds it linked and gives its own
    // back to the allocator. Owner 0 then moves the tail first.
    assert!(all.step(1));
    assert!(all.step(0));
    assert!(all.step(0));
    assert_eq!(all.len(), 1);
    assert_eq!(finish(&mut all, 1), Outcome::Pushed);
    assert_eq!(finish(&mut all, 0), Outcome::Pushed);
    assert_eq!(all.len(), 2);
    assert!(all.begin_pop(2));
    assert_eq!(finish(&mut all, 2), Outcome::Popped(Some('a')));
    assert!(all.begin_pop(2));
    assert_eq!(finish(&mut all, 2), Outcome::Popped(Some('b')));
    assert!(all.begin_pop(2));
    assert_eq!(finish(&mut all, 2), Outcome::Popped(None));
}

#[test]
fn a_pop_waits_for_the_cell_to_be_written() {
    let mut all = Interleaving::over(UnboundedSegmentQueue::new(), 2);
    all.begin_push(0, 1u8).unwrap();
    assert_eq!(finish(&mut all, 0), Outcome::Pushed);
    all.begin_push(0, 2u8).unwrap();
    // Load the tail, move the tail: the cell is claimed and empty.
    assert!(all.step(0));
    assert!(all.step(0));
    assert_eq!(all.len(), 2);
    assert!(all.begin_pop(1));
    assert_eq!(finish(&mut all, 1), Outcome::Popped(Some(1)));
    // The second pop claims the cell that is not written yet: the element
    // is out of the queue, but the pop cannot take it.
    assert!(all.begin_pop(1));
    assert!(all.step(1));
    assert!(all.step(1));
    assert!(all.step(1));
    assert_eq!(all.len(), 0);
    for _ in 0..5 {
        assert!(all.step(1));
        assert!(!all.is_done(1));
    }
    // Write the value, mark the cell written.
    assert_eq!(finish(&mut all, 0), Outcome::Pushed);
    assert_eq!(finish(&mut all, 1), Outcome::Popped(Some(2)));
}

#[test]
fn a_segment_outlives_the_head_while_a_reader_is_in_it() {
    let mut all = Interleaving::over(UnboundedSegmentQueue::new(), 3);
    for i in 0..(2 * BLOCK_CAP + 5) {
        all.begin_push(0, i).unwrap();
        assert_eq!(finish(&mut all, 0), Outcome::Pushed);
    }
    // Owner 1 moves the head off where the queue starts, claims the first
    // cell and stops before it takes the element.
    assert!(all.begin_pop(1));
    for _ in 0..6 {
        assert!(all.step(1));
    }
    assert!(!all.is_done(1));
    assert_eq!(all.len(), 2 * BLOCK_CAP + 4);
    // Owner 2 pops all the rest of the first segment and all of the second:
    // the head passes both, and the second segment is complete before the
    // first.
    for i in 1..(2 * BLOCK_CAP) {
        assert!(all.begin_pop(2));
        assert_eq!(finish(&mut all, 2), Outcome::Popped(Some(i)));
    }
    assert!(all.begin_pop(2));
    assert_eq!(finish(&mut all, 2), Outcome::Popped(Some(2 * BLOCK_CAP)));
    assert_eq!(all.len(), 4);
    // Owner 1 is the last to leave the first segment.
    assert_eq!(finish(&mut all, 1), Outcome::Popped(Some(0)));
    for i in (2 * BLOCK_CAP + 1)..(2 * BLOCK_CAP + 5) {
        assert!(all.begin_pop(1));
        assert_eq!(finish(&mut all, 1), Outcome::Popped(Some(i)));
    }
    assert_eq!(all.len(), 0);
    // The queue goes on as before.
    let mut q = all.into_queue();
    for i in 0..100 {
        q.push(i).unwrap();
    }
    assert_eq!(q.drain(), (0..100).collect::<Vec<_>>());
}

#[test]
fn segment_owners_out_of_range_and_busy_owners() {
    let mut all = Interleaving::over(UnboundedSegmentQueue::new(), 1);
    assert_eq!(all.owner_count(), 1);
    assert_eq!(all.begin_push(1, 5), Err(5));
    assert!(!all.begin_pop(1));
    assert!(!all.step(1));
    assert!(!all.step(0));
    assert_eq!(all.finish(0), None);
    assert!(all.is_idle(0));
    assert!(!all.is_idle(1));
    all.begin_push(0, 5).unwrap();
    assert_eq!(all.begin_push(0, 6), Err(6));
    assert!(!all.begin_pop(0));
    let mut steps = 0;
    while all.step(0) {
        steps += 1;
    }
    // Load the tail, load the link, link a segment, move the tail, write,
    // mark written.
    assert_eq!(steps, 6);
    assert_eq!(all.finish(0), Some(Outcome::Pushed));
    all.begin_push(0, 6).unwrap();
    let mut steps = 0;
    while all.step(0) {
        steps += 1;
    }
    // Load the tail, move the tail, write, mark written.
    assert_eq!(steps, 4);
    assert_eq!(all.finish(0), Some(Outcome::Pushed));
    assert!(all.begin_pop(0));
    let mut steps = 0;
    while all.step(0) {
        steps += 1;
    }
    // Load the head, load the tail, move the head off where the queue
    // starts; then load the head, load the tail, move the head, take the
    // element, mark the cell read, leave the cell.
    assert_eq!(steps, 9);
    assert_eq!(all.finish(0), Some(Outcome::Popped(Some(5))));
}

#[derive(Debug)]
struct DropCounter(Rc<Cell<usize>>);

impl PartialEq for DropCounter {
    fn eq(&self, _: &DropCounter) -> bool {
        true
    }
}

impl Drop for DropCounter {
    fn drop(&mut self) {
        self.0.set(self.0.get() + 1);
    }
}

#[test]
fn loom_drops() {
    let runs: usize = 100;
    let steps: usize = 10_000;
    let additional: usize = 1_000;

    let drops = Rc::new(Cell::new(0usize));
    let mut rng = Turns(0xC2B2AE3D27D4EB4F);

    for _ in 0..runs {
        let steps = rng.below(steps);
        let additional = rng.below(additional);

        drops.set(0);
        let mut q = UnboundedSegmentQueue::new();

        let mut popped = 0;
        let mut pushed = 0;
        while popped < steps || pushed < steps {
            if rng.below(2) == 0 {
                if popped < steps && q.pop().is_some() {
                    popped += 1;
                }
            } else if pushed < steps {
                q.push(DropCounter(drops.clone())).unwrap();
                pushed += 1;
            }
        }

        for _ in 0..additional {
            q.push(DropCounter(drops.clone())).unwrap();
        }

        assert_eq!(drops.get(), steps);
        drop(q);
        assert_eq!(drops.get(), steps + additional);
    }
}

#[test]
fn new_segment_queue_is_empty() {
    let mut q = UnboundedSegmentQueue::<String>::new();
    assert_eq!(q.len(), 0);
    assert!(q.is_empty());
    assert_eq!(q.pop(), None);
    assert_eq!(q.len(), 0);
}

#[test]
fn len_across_segment_borders() {
    let mut q = UnboundedSegmentQueue::new();
    for i in 0..200usize {
        assert_eq!(q.len(), i);
        q.push(i).unwrap();
        assert!(!q.is_empty());
    }
    for i in 0..200usize {
        assert_eq!(q.len(), 200 - i);
        assert_eq!(q.pop(), Some(i));
    }
    assert!(q.is_empty());
    assert_eq!(q.len(), 0);
    assert_eq!(q.pop(), None);
}

#[test]
fn queue_runs_empty_at_every_offset() {
    // Push and pop bursts of every length around the segment size, so that
    // the queue becomes empty with head and tail at every index.
    let mut q = UnboundedSegmentQueue::new();
    let mut next = 0usize;
    let mut oldest = 0usize;
    for burst in 1..(3 * BLOCK_CAP + 2) {
        for _ in 0..burst {
            q.push(next).unwrap();
            next += 1;
            assert_eq!(q.len(), next - oldest);
        }
        for _ in 0..burst {
            assert_eq!(q.pop(), Some(oldest));
            oldest += 1;
            assert_eq!(q.len(), next - oldest);
        }
        assert!(q.is_empty());
        assert_eq!(q.pop(), None);
    }
}

#[test]
fn push_reports_a_refused_segment() {
    let mut q = UnboundedSegmentQueue::new();
    // The very first push needs a segment.
    assert_eq!(q.push_with(7usize, None), Err(7));
    assert!(q.is_empty());
    assert_eq!(q.push_with(7, Segment::allocate()), Ok(()));
    // The following pushes fit in the first segment, whatever the allocator
    // says.
    for i in 1..BLOCK_CAP {
        assert_eq!(q.push_with(7 + i, None), Ok(()));
    }
    assert_eq!(q.len(), BLOCK_CAP);
    // The segment is used up: the next push needs a new one.
    assert_eq!(q.push_with(1000, None), Err(1000));
    assert_eq!(q.len(), BLOCK_CAP);
    assert_eq!(q.push_with(1000, Segment::allocate()), Ok(()));
    assert_eq!(q.len(), BLOCK_CAP + 1);
    for i in 0..BLOCK_CAP {
        assert_eq!(q.pop(), Some(7 + i));
    }
    assert_eq!(q.pop(), Some(1000));
    assert_eq!(q.pop(), None);
}

#[test]
fn an_unneeded_segment_is_given_back() {
    let mut q = UnboundedSegmentQueue::new();
    q.push(1u8).unwrap();
    assert_eq!(q.push_with(2, Segment::allocate()), Ok(()));
    assert_eq!(q.drain(), vec![1, 2]);
}

#[test]
fn segment_queue_drain() {
    let mut q = UnboundedSegmentQueue::new();
    for i in 0..100u16 {
        q.push(i).unwrap();
    }
    for i in 0..40u16 {
        assert_eq!(q.pop(), Some(i));
    }
    assert_eq!(q.drain(), (40..100u16).collect::<Vec<_>>());
    assert!(q.is_empty());
    q.push(5).unwrap();
    assert_eq!(q.drain(), vec![5]);
}

#[test]
fn segment_queue_drops_each_element_once() {
    let drops = Rc::new(Cell::new(0usize));
    let mut q = UnboundedSegmentQueue::new();
    for _ in 0..70 {
        q.push(DropCounter(drops.clone())).unwrap();
    }
    for _ in 0..33 {
        drop(q.pop());
    }
    assert_eq!(drops.get(), 33);
    drop(q);
    assert_eq!(drops.get(), 70);
}

#[test]
fn a_segment_is_built_in_the_storage_that_was_given() {
    assert!(Segment::<u8>::in_storage(None).is_none());
    let segment = Segment::<u8>::in_storage(Some(Vec::new()));
    assert!(segment.is_some());
    // The segment serves as any fresh one does.
    let mut q = UnboundedSegmentQueue::new();
    assert_eq!(q.push_with(9, segment), Ok(()));
    assert_eq!(q.pop(), Some(9));
}
