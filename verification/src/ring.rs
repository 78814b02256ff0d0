//! The bounded queue: a ring of slots, each with a stamp.
//!
//! `head` and `tail` are packed positions (see [`crate::position`]). A slot's
//! stamp says whose turn it is: a producer at position `t` may write when the
//! stamp is `t`, and leaves `t + 1`; a consumer at position `h` may read when
//! the stamp is `h + 1`, and leaves `h` moved one lap on. Whether a slot holds
//! an element is read off its stamp alone; the slot's storage is an `Option`
//! that the invariant keeps in step with the stamp.
//!
//! An operation is a short run of steps, and a step makes one access to the
//! ring: it loads a counter or a stamp, moves a counter by compare-exchange,
//! or writes to a slot that the operation has claimed. [`Op`] is what an
//! operation remembers between its steps, and [`BoundedRingQueue::step`]
//! makes the next step. `push`, `pop` and `force_push` run one operation from
//! its first step to its last. Operations of different owners may also take
//! turns step by step, in any order: every step keeps the ring's invariant
//! and what each other operation relies on, and the queue's contents change
//! in exactly one step of each operation.
use crate::history::{
    accepted,
    bounded_step,
    departed,
    evicted,
    is_bounded_run,
    lemma_bounded_is_run,
    lemma_bounded_occupancy,
    lemma_conservation,
    lemma_first_in_first_out,
    lemma_first_in_first_out_per_producer,
    popped,
    Call,
};
use crate::position::{
    advance,
    aligned,
    index_of,
    is_one_lap_for,
    is_stride,
    lap_of,
    lemma_join,
    lemma_next_lap,
    lemma_prev_lap,
    lemma_split,
    lemma_stride,
    next_lap,
    one_lap_for,
    prev_lap,
    word_count,
    word_index,
    word_lap,
};
use crate::primitive::{fence, AtomicUsize, MemOrder, UnsafeCell};
use crate::storage::{reserve, AllocationFailure};
use vstd::arithmetic::div_mod::lemma_mod_multiples_basic;
use vstd::prelude::*;

verus! {

/// One place in the ring.
pub struct Slot<T> {
    stamp: AtomicUsize,
    value: UnsafeCell<Option<T>>,
}

impl<T> Slot<T> {
    /// An empty slot that waits for the producer at position `stamp`.
    fn new(stamp: usize) -> (slot: Self)
        ensures
            slot.stamp@ == stamp,
            slot.value@ is None,
    {
        Slot { stamp: AtomicUsize::new(stamp), value: UnsafeCell::new(None) }
    }

    /// Moves `value` into the slot's storage.
    fn write(&mut self, value: T)
        ensures
            final(self).value@ == Some(value),
            final(self).stamp@ == old(self).stamp@,
    {
        let ghost v = value;
        let put = |p: &mut Option<T>|
            ensures
                *final(p) == Some(v),
            { *p = Some(value); };
        self.value.with_mut(put)
    }

    /// Moves the element, if any, out of the slot's storage.
    fn read(&mut self) -> (r: Option<T>)
        ensures
            r == old(self).value@,
            final(self).value@ is None,
            final(self).stamp@ == old(self).stamp@,
    {
        let take = |p: &mut Option<T>| -> (r: Option<T>)
            ensures
                r == *old(p),
                *final(p) is None,
            { p.take() };
        self.value.with_mut(take)
    }
}

/// How far a slot is in its lap.
pub enum Phase {
    /// Empty; the next producer to come to it may claim it.
    Free,
    /// Claimed by the push of this owner, which has not stamped it yet.
    Writing(int),
    /// Holds an element that no consumer has claimed.
    Full,
    /// Claimed by the pop, or the eviction, of this owner, which has not
    /// stamped it yet.
    Reading(int),
    /// Claimed twice over by the forced push of this owner: it has evicted
    /// the slot's element and claimed the slot again for its own value, and
    /// has not stamped it yet.
    Replacing(int),
}

impl Phase {
    /// The owner of the operation that has claimed the slot, if one has.
    pub open spec fn owner(self) -> Option<int> {
        match self {
            Phase::Writing(who) => Some(who),
            Phase::Reading(who) => Some(who),
            Phase::Replacing(who) => Some(who),
            _ => None,
        }
    }
}

/// What the proofs keep beside the ring: each slot's phase and element, and
/// how often each counter has moved.
pub struct Ledger<T> {
    pub phases: Seq<Phase>,
    pub elements: Seq<T>,
    pub pushes: nat,
    pub pops: nat,
}

/// What an operation remembers between two steps.
pub enum Op<T> {
    /// No operation.
    Idle,
    /// A push that has not looked at the ring yet. With `force`, it does not
    /// take a full queue for an answer.
    Push { value: T, force: bool },
    /// A push that has loaded the tail.
    PushTail { value: T, force: bool, tail: usize, seen: Ghost<nat> },
    /// A push that has loaded the tail and the stamp of the tail's slot.
    PushStamp { value: T, force: bool, tail: usize, stamp: usize, seen: Ghost<nat> },
    /// A push that has moved the tail and so claimed the slot at `tail`.
    PushClaimed { value: T, tail: usize },
    /// A push that has written its value to the slot it claimed.
    PushWritten { tail: usize, value: Ghost<T> },
    /// A push that is done: its value is in the queue.
    Pushed { value: Ghost<T> },
    /// A push that is done: the queue was full, the value comes back.
    Rejected { value: T },
    /// A forced push that has moved the head off the oldest element, whose
    /// slot is the one at `tail`.
    ForceEvicting { value: T, tail: usize, element: Ghost<T> },
    /// A forced push that has evicted and has moved the tail on: the slot at
    /// `tail` is claimed for its value.
    ForceMoved { value: T, tail: usize, element: Ghost<T> },
    /// A forced push that has put its value in the place of the evicted
    /// element.
    ForceSwapped { tail: usize, taken: T, value: Ghost<T>, element: Ghost<T> },
    /// A forced push that is done: its value is in the queue, and the
    /// element that made room for it comes back.
    Evicted { result: T, value: Ghost<T> },
    /// A pop that has not looked at the ring yet.
    Pop,
    /// A pop that has loaded the head.
    PopHead { head: usize, seen: Ghost<nat> },
    /// A pop that has loaded the head and the stamp of the head's slot.
    PopStamp { head: usize, stamp: usize, seen: Ghost<nat> },
    /// A pop that has moved the head and so claimed the slot at `head`.
    PopClaimed { head: usize, element: Ghost<T> },
    /// A pop that has read the element out of the slot it claimed.
    PopTaken { head: usize, taken: T, element: Ghost<T> },
    /// A pop that is done, with what it returns.
    Popped { result: Option<T> },
}

impl<T> Op<T> {
    /// The operation is where a step that only loads leaves it: before its
    /// claim, or done without one.
    pub open spec fn loaded(self) -> bool {
        self is Idle || self is Push || self is PushTail || self is PushStamp || self is Rejected
            || self is Pop
            || self is PopHead || self is PopStamp || (self matches Op::Popped { result }
            && result is None)
    }

    /// A bound on the number of steps that the operation still makes when
    /// no other operation takes a step in between.
    pub open spec fn rank(self) -> nat {
        match self {
            Op::Push { .. } => 6,
            Op::PushTail { .. } => 5,
            Op::PushStamp { .. } => 4,
            Op::ForceEvicting { .. } => 3,
            Op::PushClaimed { .. } => 2,
            Op::ForceMoved { .. } => 2,
            Op::PushWritten { .. } => 1,
            Op::ForceSwapped { .. } => 1,
            Op::Pop => 5,
            Op::PopHead { .. } => 4,
            Op::PopStamp { .. } => 3,
            Op::PopClaimed { .. } => 2,
            Op::PopTaken { .. } => 1,
            _ => 0,
        }
    }

    /// The operation is a push of `v`, forced or not as `f` says.
    pub open spec fn pushes(self, v: T, f: bool) -> bool {
        match self {
            Op::Push { value, force } => value == v && force == f,
            Op::PushTail { value, force, .. } => value == v && force == f,
            Op::PushStamp { value, force, .. } => value == v && force == f,
            Op::PushClaimed { value, .. } => value == v,
            Op::PushWritten { value, .. } => value@ == v,
            Op::Pushed { value } => value@ == v,
            Op::Rejected { value } => value == v && !f,
            Op::ForceEvicting { value, .. } => value == v && f,
            Op::ForceMoved { value, .. } => value == v && f,
            Op::ForceSwapped { value, .. } => value@ == v && f,
            Op::Evicted { value, .. } => value@ == v && f,
            _ => false,
        }
    }

    /// The operation is a pop.
    pub open spec fn pops(self) -> bool {
        self is Pop || self is PopHead || self is PopStamp || self is PopClaimed
            || self is PopTaken || self is Popped
    }

    /// The operation has made its last step.
    pub open spec fn is_done(self) -> bool {
        self is Pushed || self is Rejected || self is Evicted || self is Popped
    }

    /// The calls that the operation has taken effect as, so far: none before
    /// the step in which it takes effect, one from then on. A forced push
    /// that evicts takes effect twice: as the pop of the oldest element when
    /// it moves the head, and as a push when it moves the tail.
    pub open spec fn calls(self) -> Seq<Call<T>> {
        match self {
            Op::PushClaimed { value, .. } => seq![Call::Push { value, accepted: true }],
            Op::PushWritten { value, .. } => seq![Call::Push { value: value@, accepted: true }],
            Op::Pushed { value } => seq![Call::Push { value: value@, accepted: true }],
            Op::Rejected { value } => seq![Call::Push { value, accepted: false }],
            Op::ForceEvicting { element, .. } => seq![Call::Pop { taken: Some(element@) }],
            Op::ForceMoved { value, element, .. } => seq![
                Call::Pop { taken: Some(element@) },
                Call::Push { value, accepted: true },
            ],
            Op::ForceSwapped { value, element, .. } => seq![
                Call::Pop { taken: Some(element@) },
                Call::Push { value: value@, accepted: true },
            ],
            Op::Evicted { result, value } => seq![
                Call::Pop { taken: Some(result) },
                Call::Push { value: value@, accepted: true },
            ],
            Op::PopClaimed { element, .. } => seq![Call::Pop { taken: Some(element@) }],
            Op::PopTaken { element, .. } => seq![Call::Pop { taken: Some(element@) }],
            Op::Popped { result } => seq![Call::Pop { taken: result }],
            _ => Seq::empty(),
        }
    }
}

/// A queue of at most `capacity()` elements.
pub struct BoundedRingQueue<T> {
    head: AtomicUsize,
    tail: AtomicUsize,
    buffer: Vec<Slot<T>>,
    cap: usize,
    one_lap: usize,
    ledger: Ghost<Ledger<T>>,
}

impl<T> View for BoundedRingQueue<T> {
    type V = Seq<T>;

    /// The elements in the queue, oldest first. An element is in the queue
    /// from the step in which its push moves the tail to the step in which a
    /// pop moves the head past it.
    closed spec fn view(&self) -> Seq<T> {
        Seq::new(self.count() as nat, |k: int| self.ledger@.elements[self.slot_at(k)])
    }
}

impl<T> BoundedRingQueue<T> {
    spec fn h(&self) -> int {
        word_index(self.head@, self.one_lap)
    }

    spec fn t(&self) -> int {
        word_index(self.tail@, self.one_lap)
    }

    spec fn lh(&self) -> int {
        word_lap(self.head@, self.one_lap)
    }

    spec fn lt(&self) -> int {
        word_lap(self.tail@, self.one_lap)
    }

    /// The slot at index `i` belongs to a position between head and tail.
    spec fn occupied(&self, i: int) -> bool {
        if self.lt() != self.lh() {
            i >= self.h() || i < self.t()
        } else {
            self.h() <= i < self.t()
        }
    }

    /// The lap of the position that the slot at index `i` serves: the head's
    /// lap from the head's index on, the lap after it below.
    spec fn turn_lap(&self, i: int) -> int {
        if i >= self.h() {
            self.lh()
        } else {
            next_lap(self.lh(), self.one_lap as int)
        }
    }

    spec fn phase(&self, i: int) -> Phase {
        self.ledger@.phases[i]
    }

    spec fn slot_ok(&self, i: int) -> bool {
        let stamp = self.buffer[i].stamp@;
        let value = self.buffer[i].value@;
        match self.phase(i) {
            Phase::Free => !self.occupied(i) && stamp == self.turn_lap(i) + i && value is None,
            Phase::Writing(_) => self.occupied(i) && stamp == self.turn_lap(i) + i,
            Phase::Full => self.occupied(i) && stamp == self.turn_lap(i) + i + 1 && value == Some(
                self.ledger@.elements[i],
            ),
            Phase::Reading(_) => !self.occupied(i) && stamp == prev_lap(
                self.turn_lap(i),
                self.one_lap as int,
            ) + i + 1,
            Phase::Replacing(_) => self.occupied(i) && stamp == prev_lap(
                self.turn_lap(i),
                self.one_lap as int,
            ) + i + 1,
        }
    }

    spec fn count(&self) -> int {
        if self.lt() != self.lh() {
            self.cap - self.h() + self.t()
        } else {
            self.t() - self.h()
        }
    }

    /// The index of the slot of the `k`-th oldest element.
    spec fn slot_at(&self, k: int) -> int {
        if self.h() + k < self.cap {
            self.h() + k
        } else {
            self.h() + k - self.cap
        }
    }

    /// The invariant of the ring, which every step keeps: the counters are in
    /// range and no more than one lap apart, and every slot's stamp and
    /// storage fit its phase.
    pub closed spec fn inv(&self) -> bool {
        &&& 1 <= self.cap <= usize::MAX / 2
        &&& is_one_lap_for(self.one_lap as int, self.cap as int)
        &&& self.buffer.len() == self.cap
        &&& self.ledger@.phases.len() == self.cap
        &&& self.ledger@.elements.len() == self.cap
        &&& self.h() < self.cap
        &&& self.t() < self.cap
        &&& (self.lt() == self.lh() ==> self.h() <= self.t())
        &&& (self.lt() != self.lh() ==> self.lt() == next_lap(self.lh(), self.one_lap as int)
            && self.t() <= self.h())
        &&& self.ledger@.pushes == self.ledger@.pops + self.count()
        &&& forall|i: int| 0 <= i < self.cap ==> #[trigger] self.slot_ok(i)
    }

    /// No operation is under way: no slot is claimed.
    pub closed spec fn settled(&self) -> bool {
        forall|i: int| 0 <= i < self.cap ==> (#[trigger] self.phase(i)).owner() is None
    }

    /// The invariant of the ring between operations.
    pub open spec fn wf(&self) -> bool {
        self.inv() && self.settled()
    }

    /// The capacity the queue was made with.
    pub closed spec fn spec_capacity(&self) -> usize {
        self.cap
    }

    /// How often the tail has moved: the number of elements that the queue
    /// has taken.
    pub closed spec fn tail_moves(&self) -> nat {
        self.ledger@.pushes
    }

    /// How often the head has moved: the number of elements that have left
    /// the queue.
    pub closed spec fn head_moves(&self) -> nat {
        self.ledger@.pops
    }

    /// What the counters hold, spelled out: each is its lap plus its index,
    /// the laps are aligned, and the laps next to the head's are known.
    proof fn lemma_counters(&self)
        requires
            self.inv(),
        ensures
            is_stride(self.one_lap as int),
            2 <= self.one_lap,
            self.cap < self.one_lap,
            2 * self.one_lap <= word_count(),
            self.head@ == self.lh() + self.h(),
            self.tail@ == self.lt() + self.t(),
            0 <= self.h() < self.cap,
            0 <= self.t() < self.cap,
            aligned(self.lh(), self.one_lap as int),
            aligned(self.lt(), self.one_lap as int),
            0 <= self.lh() <= word_count() - self.one_lap,
            0 <= self.lt() <= word_count() - self.one_lap,
            0 <= self.count() <= self.cap,
            self@.len() == self.count(),
            aligned(next_lap(self.lh(), self.one_lap as int), self.one_lap as int),
            0 <= next_lap(self.lh(), self.one_lap as int) <= word_count() - self.one_lap,
            next_lap(self.lh(), self.one_lap as int) != self.lh(),
            next_lap(self.lh(), self.one_lap as int) == (if self.lh() == word_count()
                - self.one_lap {
                0
            } else {
                self.lh() + self.one_lap
            }),
            aligned(prev_lap(self.lh(), self.one_lap as int), self.one_lap as int),
            0 <= prev_lap(self.lh(), self.one_lap as int) <= word_count() - self.one_lap,
            prev_lap(self.lh(), self.one_lap as int) != self.lh(),
            next_lap(prev_lap(self.lh(), self.one_lap as int), self.one_lap as int) == self.lh(),
            prev_lap(next_lap(self.lh(), self.one_lap as int), self.one_lap as int) == self.lh(),
    {
        lemma_stride(self.one_lap as int);
        lemma_split(self.head@, self.one_lap);
        lemma_split(self.tail@, self.one_lap);
        lemma_next_lap(self.lh(), self.one_lap as int);
        lemma_prev_lap(self.lh(), self.one_lap as int);
    }

    /// A queue never holds more than its capacity.
    pub proof fn lemma_len_bounded(&self)
        requires
            self.inv(),
        ensures
            self@.len() <= self.spec_capacity(),
            self.tail_moves() == self.head_moves() + self@.len(),
    {
        self.lemma_counters();
    }

    /// A new, empty queue of capacity `cap`, or the allocator's refusal.
    pub fn new(cap: usize) -> (r: Result<Self, AllocationFailure>)
        requires
            cap >= 1,
        ensures
            cap > usize::MAX / 2 ==> r is Err,
            r matches Ok(q) ==> q.wf() && q.spec_capacity() == cap && q@ == Seq::<T>::empty(),
    {
        let storage = if cap <= usize::MAX / 2 {
            reserve::<Slot<T>>(cap)
        } else {
            None
        };
        Self::with_storage(cap, storage)
    }

    /// Builds the queue in the storage that the allocator gave, or reports
    /// that it gave none. A capacity above half the word range cannot be
    /// packed and counts as refused.
    pub fn with_storage(cap: usize, storage: Option<Vec<Slot<T>>>) -> (r: Result<
        Self,
        AllocationFailure,
    >)
        requires
            cap >= 1,
            storage matches Some(v) ==> v@.len() == 0,
        ensures
            r is Ok <==> storage is Some && cap <= usize::MAX / 2,
            r matches Ok(q) ==> q.wf() && q.spec_capacity() == cap && q@ == Seq::<T>::empty(),
    {
        if cap > usize::MAX / 2 {
            return Err(AllocationFailure);
        }
        let mut buffer = match storage {
            Some(v) => v,
            None => { return Err(AllocationFailure); },
        };
        let one_lap = one_lap_for(cap);
        let mut i: usize = 0;
        while i < cap
            invariant
                i <= cap,
                buffer.len() == i,
                forall|j: int|
                    0 <= j < i ==> (#[trigger] buffer[j]).stamp@ == j && buffer[j].value@ is None,
            decreases cap - i,
        {
            buffer.push(Slot::new(i));
            i += 1;
        }
        let ghost ledger = Ledger::<T> {
            phases: Seq::new(cap as nat, |i: int| Phase::Free),
            elements: Seq::new(cap as nat, |i: int| arbitrary()),
            pushes: 0,
            pops: 0,
        };
        let q = BoundedRingQueue {
            head: AtomicUsize::new(0),
            tail: AtomicUsize::new(0),
            buffer,
            cap,
            one_lap,
            ledger: Ghost(ledger),
        };
        proof {
            lemma_stride(one_lap as int);
            lemma_mod_multiples_basic(0, one_lap as int);
            lemma_join(0, 0, one_lap);
            assert forall|i: int| 0 <= i < q.cap implies #[trigger] q.slot_ok(i) by {}
            assert(q@ =~= Seq::<T>::empty());
        }
        Ok(q)
    }

    /// The capacity the queue was made with.
    #[verifier::when_used_as_spec(spec_capacity)]
    pub fn capacity(&self) -> (c: usize)
        ensures
            c == self.spec_capacity(),
    {
        self.cap
    }

    /// The number of elements in the queue.
    pub fn len(&self) -> (n: usize)
        requires
            self.inv(),
        ensures
            n == self@.len(),
            n <= self.capacity(),
    {
        loop
            invariant
                self.inv(),
            decreases 0nat,
        {
            let tail = self.tail.load(MemOrder::SeqCst);
            let head = self.head.load(MemOrder::SeqCst);
            // The two counters belong together if the tail has not moved
            // meanwhile; if it has, look again.
            if self.tail.load(MemOrder::SeqCst) == tail {
                proof {
                    self.lemma_counters();
                }
                let hix = index_of(head, self.one_lap);
                let tix = index_of(tail, self.one_lap);
                return if hix < tix {
                    tix - hix
                } else if hix > tix {
                    self.cap - hix + tix
                } else if tail == head {
                    0
                } else {
                    self.cap
                };
            }
        }
    }

    /// Whether the queue holds no element.
    pub fn is_empty(&self) -> (b: bool)
        requires
            self.inv(),
        ensures
            b <==> self@.len() == 0,
    {
        let head = self.head.load(MemOrder::SeqCst);
        let tail = self.tail.load(MemOrder::SeqCst);
        proof {
            self.lemma_counters();
        }
        tail == head
    }

    /// Whether the queue holds as many elements as it can.
    pub fn is_full(&self) -> (b: bool)
        requires
            self.inv(),
        ensures
            b <==> self@.len() == self.capacity(),
    {
        let tail = self.tail.load(MemOrder::SeqCst);
        let head = self.head.load(MemOrder::SeqCst);
        proof {
            self.lemma_counters();
        }
        head.wrapping_add(self.one_lap) == tail
    }

    /// The position after `word` in this ring.
    fn next_position(&self, word: usize) -> (next: usize)
        requires
            self.inv(),
            word_index(word, self.one_lap) < self.cap,
        ensures
            next == advance(word, self.cap, self.one_lap),
    {
        proof {
            self.lemma_counters();
            lemma_split(word, self.one_lap);
        }
        let index = index_of(word, self.one_lap);
        let lap = lap_of(word, self.one_lap);
        if index + 1 < self.cap {
            // Same lap, next index.
            word + 1
        } else {
            // Index zero of the next lap.
            lap.wrapping_add(self.one_lap)
        }
    }

    spec fn stamp_at(&self, word: usize) -> usize {
        self.buffer[word_index(word, self.one_lap)].stamp@
    }

    /// The owner `who` has no slot claimed.
    spec fn owns_nothing(&self, who: int) -> bool {
        forall|i: int| 0 <= i < self.cap ==> (#[trigger] self.phase(i)).owner() != Some(who)
    }

    /// The owner `who` has no slot claimed but the one at index `i`.
    spec fn owns_only(&self, who: int, i: int) -> bool {
        forall|j: int|
            0 <= j < self.cap && j != i ==> (#[trigger] self.phase(j)).owner() != Some(who)
    }

    /// What the operation `op` of owner `who` relies on between its steps.
    /// Before its claim it owns no slot, and what it has loaded is still true
    /// as long as the counter that it loaded has not moved. After its claim
    /// exactly one slot is in its hands.
    spec fn op_ok(&self, who: int, op: Op<T>) -> bool {
        let l = self.one_lap;
        let ledger = self.ledger@;
        match op {
            Op::PushTail { value, force, tail, seen } => {
                &&& self.owns_nothing(who)
                &&& word_index(tail, l) < self.cap
                &&& seen@ <= ledger.pushes
                &&& (seen@ == ledger.pushes ==> tail == self.tail@)
            },
            Op::PushStamp { value, force, tail, stamp, seen } => {
                &&& self.owns_nothing(who)
                &&& word_index(tail, l) < self.cap
                &&& seen@ <= ledger.pushes
                &&& (seen@ == ledger.pushes ==> tail == self.tail@)
                &&& (seen@ == ledger.pushes && stamp == tail ==> self.phase(self.t())
                    == Phase::Free)
                &&& (seen@ == ledger.pops + self.cap && next_lap(stamp as int, l as int) == tail
                    + 1 ==> self.phase(self.t()) == Phase::Full)
            },
            Op::ForceEvicting { value, tail, element } => {
                let i = word_index(tail, l);
                &&& i < self.cap
                &&& self.owns_only(who, i)
                &&& self.phase(i) == Phase::Reading(who)
                &&& tail == self.tail@
                &&& self.buffer[i].value@ == Some(element@)
            },
            Op::ForceMoved { value, tail, element } => {
                let i = word_index(tail, l);
                &&& i < self.cap
                &&& self.owns_only(who, i)
                &&& self.phase(i) == Phase::Replacing(who)
                &&& next_lap(self.buffer[i].stamp@ as int, l as int) == tail + 1
                &&& ledger.elements[i] == value
                &&& self.buffer[i].value@ == Some(element@)
            },
            Op::ForceSwapped { tail, taken, value, element } => {
                let i = word_index(tail, l);
                &&& i < self.cap
                &&& self.owns_only(who, i)
                &&& self.phase(i) == Phase::Replacing(who)
                &&& next_lap(self.buffer[i].stamp@ as int, l as int) == tail + 1
                &&& ledger.elements[i] == value@
                &&& self.buffer[i].value@ == Some(value@)
                &&& taken == element@
            },
            Op::PushClaimed { value, tail } => {
                let i = word_index(tail, l);
                &&& i < self.cap
                &&& self.owns_only(who, i)
                &&& self.phase(i) == Phase::Writing(who)
                &&& self.buffer[i].stamp@ == tail
                &&& ledger.elements[i] == value
            },
            Op::PushWritten { tail, value } => {
                let i = word_index(tail, l);
                &&& i < self.cap
                &&& self.owns_only(who, i)
                &&& self.phase(i) == Phase::Writing(who)
                &&& self.buffer[i].stamp@ == tail
                &&& ledger.elements[i] == value@
                &&& self.buffer[i].value@ == Some(value@)
            },
            Op::PopHead { head, seen } => {
                &&& self.owns_nothing(who)
                &&& word_index(head, l) < self.cap
                &&& seen@ <= ledger.pops
                &&& (seen@ == ledger.pops ==> head == self.head@)
            },
            Op::PopStamp { head, stamp, seen } => {
                &&& self.owns_nothing(who)
                &&& word_index(head, l) < self.cap
                &&& seen@ <= ledger.pops
                &&& (seen@ == ledger.pops ==> head == self.head@)
                &&& (seen@ == ledger.pops && stamp == head + 1 ==> self.phase(self.h())
                    == Phase::Full)
            },
            Op::PopClaimed { head, element } => {
                let i = word_index(head, l);
                &&& i < self.cap
                &&& self.owns_only(who, i)
                &&& self.phase(i) == Phase::Reading(who)
                &&& self.buffer[i].stamp@ == head + 1
                &&& self.buffer[i].value@ == Some(element@)
            },
            Op::PopTaken { head, taken, element } => {
                let i = word_index(head, l);
                &&& i < self.cap
                &&& self.owns_only(who, i)
                &&& self.phase(i) == Phase::Reading(who)
                &&& self.buffer[i].stamp@ == head + 1
                &&& self.buffer[i].value@ is None
                &&& taken == element@
            },
            _ => self.owns_nothing(who),
        }
    }

    /// The counter words are long enough for `op`: where a word that the
    /// operation loaded earlier equals a counter now, the counter has not
    /// gone round the whole word in between.
    spec fn fresh(&self, op: Op<T>) -> bool {
        let l = self.one_lap as int;
        let ledger = self.ledger@;
        match op {
            Op::PushStamp { value, force, tail, stamp, seen } => {
                &&& self.tail@ == tail ==> seen@ == ledger.pushes
                &&& next_lap(self.head@ as int, l) == tail ==> seen@ == ledger.pops + self.cap
            },
            Op::PopStamp { head, stamp, seen } => {
                &&& self.head@ == head ==> seen@ == ledger.pops
                &&& self.tail@ == head ==> seen@ == ledger.pushes
            },
            _ => true,
        }
    }

    /// What `op` is after its next step on this ring.
    spec fn stepped(&self, op: Op<T>) -> Op<T> {
        let l = self.one_lap as int;
        let ledger = self.ledger@;
        match op {
            Op::Push { value, force } => Op::PushTail {
                value,
                force,
                tail: self.tail@,
                seen: Ghost(ledger.pushes),
            },
            Op::PushTail { value, force, tail, seen } => Op::PushStamp {
                value,
                force,
                tail,
                stamp: self.stamp_at(tail),
                seen,
            },
            Op::PushStamp { value, force, tail, stamp, seen } => if stamp == tail {
                if self.tail@ == tail {
                    Op::PushClaimed { value, tail }
                } else {
                    Op::PushTail { value, force, tail: self.tail@, seen: Ghost(ledger.pushes) }
                }
            } else if next_lap(stamp as int, l) == tail + 1 && next_lap(self.head@ as int, l)
                == tail {
                if force {
                    Op::ForceEvicting {
                        value,
                        tail,
                        element: Ghost(ledger.elements[word_index(tail, self.one_lap)]),
                    }
                } else {
                    Op::Rejected { value }
                }
            } else {
                Op::Push { value, force }
            },
            Op::ForceEvicting { value, tail, element } => Op::ForceMoved { value, tail, element },
            Op::ForceMoved { value, tail, element } => Op::ForceSwapped {
                tail,
                taken: element@,
                value: Ghost(value),
                element,
            },
            Op::ForceSwapped { tail, taken, value, element } => Op::Evicted {
                result: taken,
                value,
            },
            Op::PushClaimed { value, tail } => Op::PushWritten { tail, value: Ghost(value) },
            Op::PushWritten { tail, value } => Op::Pushed { value },
            Op::Pop => Op::PopHead { head: self.head@, seen: Ghost(ledger.pops) },
            Op::PopHead { head, seen } => Op::PopStamp {
                head,
                stamp: self.stamp_at(head),
                seen,
            },
            Op::PopStamp { head, stamp, seen } => if stamp == head + 1 {
                if self.head@ == head {
                    Op::PopClaimed {
                        head,
                        element: Ghost(ledger.elements[word_index(head, self.one_lap)]),
                    }
                } else {
                    Op::PopHead { head: self.head@, seen: Ghost(ledger.pops) }
                }
            } else if stamp == head && self.tail@ == head {
                Op::Popped { result: None }
            } else {
                Op::Pop
            },
            Op::PopClaimed { head, element } => Op::PopTaken { head, taken: element@, element },
            Op::PopTaken { head, taken, element } => Op::Popped { result: Some(taken) },
            done => done,
        }
    }

    /// What one step of `op`, owned by `who`, makes of the ring `pre`: the
    /// ring `post` and the operation `next`.
    spec fn step_post(pre: Self, post: Self, who: int, op: Op<T>, next: Op<T>) -> bool {
        &&& post.inv()
        &&& post.spec_capacity() == pre.spec_capacity()
        &&& next == pre.stepped(op)
        &&& post.op_ok(who, next)
        // What every other operation relies on still holds.
        &&& forall|w: int, o: Op<T>| w != who && #[trigger] pre.op_ok(w, o) ==> post.op_ok(w, o)
        // No slot changes hands but to or from `who`.
        &&& pre.untouched_but(post, who)
        // A step that only loads leaves the ring as it is.
        &&& (next.loaded() ==> post.same_as(pre))
        // A forced push evicts only from a full queue.
        &&& (op is PushStamp && next is ForceEvicting ==> pre@.len() == pre.spec_capacity())
        // The counters move when a slot is claimed, and only then.
        &&& post.tail_moves() == pre.tail_moves() + (if next is PushClaimed && op is PushStamp
            || op is ForceEvicting {
            1nat
        } else {
            0nat
        })
        &&& post.head_moves() == pre.head_moves() + (if next is PopClaimed && op is PopStamp
            || next is ForceEvicting && op is PushStamp {
            1nat
        } else {
            0nat
        })
        // The queue's contents change in the step in which the operation
        // takes effect, as that call says, and in no other.
        &&& if next.calls() == op.calls() {
            post@ == pre@
        } else {
            &&& next.calls() == op.calls().push(next.calls().last())
            &&& bounded_step(pre.spec_capacity() as nat, pre@, next.calls().last(), post@)
        }
    }

    /// The two rings hold the same counters, slots and ledger.
    spec fn same_as(&self, pre: Self) -> bool {
        &&& self.head@ == pre.head@
        &&& self.tail@ == pre.tail@
        &&& self.cap == pre.cap
        &&& self.one_lap == pre.one_lap
        &&& self.buffer@ == pre.buffer@
        &&& self.ledger@ == pre.ledger@
    }

    /// Every slot has in `post` the phase it has in `self`, or has been
    /// claimed by `who`, or has been let go by `who`.
    spec fn untouched_but(&self, post: Self, who: int) -> bool {
        forall|i: int|
            0 <= i < self.cap ==> #[trigger] post.phase(i) == self.phase(i) || post.phase(
                i,
            ).owner() == Some(who) || (self.phase(i).owner() == Some(who) && post.phase(
                i,
            ).owner() is None)
    }

    /// Makes the next step of the operation `op`, owned by `who`, and returns
    /// what the operation is after it. A step of an operation that is done
    /// does nothing.
    fn step(&mut self, who: usize, op: Op<T>) -> (next: Op<T>)
        requires
            old(self).inv(),
            old(self).op_ok(who as int, op),
            old(self).fresh(op),
        ensures
            Self::step_post(*old(self), *final(self), who as int, op, next),
    {
        match op {
            Op::Push { value, force } => self.push_load_tail(who, value, force),
            Op::PushTail { value, force, tail, seen } => self.push_load_stamp(
                who,
                value,
                force,
                tail,
                seen,
            ),
            Op::PushStamp { value, force, tail, stamp, seen } => self.push_claim(
                who,
                value,
                force,
                tail,
                stamp,
                seen,
            ),
            Op::ForceEvicting { value, tail, element } => self.force_move_tail(
                who,
                value,
                tail,
                element,
            ),
            Op::ForceMoved { value, tail, element } => self.force_swap(who, value, tail, element),
            Op::ForceSwapped { tail, taken, value, element } => self.force_commit(
                who,
                tail,
                taken,
                value,
                element,
            ),
            Op::PushClaimed { value, tail } => self.push_write(who, value, tail),
            Op::PushWritten { tail, value } => self.push_commit(who, tail, value),
            Op::Pop => self.pop_load_head(who),
            Op::PopHead { head, seen } => self.pop_load_stamp(who, head, seen),
            Op::PopStamp { head, stamp, seen } => self.pop_claim(who, head, stamp, seen),
            Op::PopClaimed { head, element } => self.pop_read(who, head, element),
            Op::PopTaken { head, taken, element } => self.pop_release(who, head, taken, element),
            done => {
                proof {
                    self.lemma_same_ring(*old(self), who as int);
                }
                done
            },
        }
    }

    /// A ring with the same counters, slots and ledger keeps what every
    /// operation relies on.
    proof fn lemma_same_ring(&self, pre: Self, who: int)
        requires
            pre.inv(),
            self.head@ == pre.head@,
            self.tail@ == pre.tail@,
            self.cap == pre.cap,
            self.one_lap == pre.one_lap,
            self.ledger@ == pre.ledger@,
            self.buffer@ == pre.buffer@,
        ensures
            self.inv(),
            self@ == pre@,
            pre.untouched_but(*self, who),
            forall|w: int, o: Op<T>| #[trigger] pre.op_ok(w, o) ==> self.op_ok(w, o),
    {
        assert forall|i: int| 0 <= i < self.cap implies #[trigger] self.slot_ok(i) by {
            assert(pre.slot_ok(i));
        }
        assert(self@ =~= pre@);
        assert forall|w: int, o: Op<T>| #[trigger] pre.op_ok(w, o) implies self.op_ok(w, o) by {
            self.lemma_same_ring_op(pre, w, o);
        }
    }

    proof fn lemma_same_ring_op(&self, pre: Self, w: int, o: Op<T>)
        requires
            pre.op_ok(w, o),
            self.head@ == pre.head@,
            self.tail@ == pre.tail@,
            self.cap == pre.cap,
            self.one_lap == pre.one_lap,
            self.ledger@ == pre.ledger@,
            self.buffer@ == pre.buffer@,
        ensures
            self.op_ok(w, o),
    {
        assert forall|i: int| 0 <= i < self.cap implies (#[trigger] self.phase(i)).owner()
            != Some(w) || pre.phase(i).owner() == Some(w) by {}
        assert(forall|i: int| self.phase(i) == pre.phase(i));
    }

    /// The first step of a push: load the tail.
    fn push_load_tail(&mut self, who: usize, value: T, force: bool) -> (next: Op<T>)
        requires
            old(self).inv(),
            old(self).op_ok(who as int, Op::Push { value, force }),
        ensures
            Self::step_post(*old(self), *final(self), who as int, Op::Push { value, force }, next),
    {
        let tail = self.tail.load(MemOrder::Relaxed);
        proof {
            self.lemma_counters();
            self.lemma_same_ring(*old(self), who as int);
        }
        Op::PushTail { value, force, tail, seen: Ghost(self.ledger@.pushes) }
    }

    /// The second step of a push: load the stamp of the tail's slot.
    fn push_load_stamp(
        &mut self,
        who: usize,
        value: T,
        force: bool,
        tail: usize,
        seen: Ghost<nat>,
    ) -> (next: Op<T>)
        requires
            old(self).inv(),
            old(self).op_ok(who as int, Op::PushTail { value, force, tail, seen }),
        ensures
            Self::step_post(
                *old(self),
                *final(self),
                who as int,
                Op::PushTail { value, force, tail, seen },
                next,
            ),
    {
        proof {
            self.lemma_counters();
        }
        let index = index_of(tail, self.one_lap);
        let stamp = self.buffer[index].stamp.load(MemOrder::Acquire);
        proof {
            self.lemma_same_ring(*old(self), who as int);
            assert(self.slot_ok(self.t()));
        }
        Op::PushStamp { value, force, tail, stamp, seen }
    }

    /// The third step of a push. If the stamp says that the slot is free,
    /// claim the slot by moving the tail. If it says that the slot still
    /// holds the element of the lap before, look at the head: when the head
    /// is a whole lap behind, the queue is full, and a forced push evicts
    /// the oldest element by moving the head off it.
    #[verifier::rlimit(60)]
    fn push_claim(
        &mut self,
        who: usize,
        value: T,
        force: bool,
        tail: usize,
        stamp: usize,
        seen: Ghost<nat>,
    ) -> (next: Op<T>)
        requires
            old(self).inv(),
            old(self).op_ok(who as int, Op::PushStamp { value, force, tail, stamp, seen }),
            old(self).fresh(Op::PushStamp { value, force, tail, stamp, seen }),
        ensures
            Self::step_post(
                *old(self),
                *final(self),
                who as int,
                Op::PushStamp { value, force, tail, stamp, seen },
                next,
            ),
    {
        proof {
            self.lemma_counters();
            lemma_split(tail, self.one_lap);
            lemma_next_lap(self.lt(), self.one_lap as int);
            assert(self.slot_ok(self.t()));
        }
        if tail == stamp {
            let new_tail = self.next_position(tail);
            match self.tail.compare_exchange_weak(
                tail,
                new_tail,
                MemOrder::SeqCst,
                MemOrder::Relaxed,
            ) {
                Ok(_) => {
                    proof {
                        let pre = *old(self);
                        let i = pre.t();
                        self.ledger@ = Ledger {
                            phases: pre.ledger@.phases.update(i, Phase::Writing(who as int)),
                            elements: pre.ledger@.elements.update(i, value),
                            pushes: pre.ledger@.pushes + 1,
                            pops: pre.ledger@.pops,
                        };
                        self.lemma_tail_moved(pre, who as int, value);
                    }
                    Op::PushClaimed { value, tail }
                },
                Err(current) => {
                    proof {
                        self.lemma_same_ring(*old(self), who as int);
                    }
                    Op::PushTail { value, force, tail: current, seen: Ghost(self.ledger@.pushes) }
                },
            }
        } else if stamp.wrapping_add(self.one_lap) == tail + 1 {
            fence(MemOrder::SeqCst);
            if force {
                let new_tail = self.next_position(tail);
                let head = tail.wrapping_sub(self.one_lap);
                let new_head = new_tail.wrapping_sub(self.one_lap);
                match self.head.compare_exchange_weak(
                    head,
                    new_head,
                    MemOrder::SeqCst,
                    MemOrder::Relaxed,
                ) {
                    Ok(_) => {
                        proof {
                            let pre = *old(self);
                            let i = pre.h();
                            self.ledger@ = Ledger {
                                phases: pre.ledger@.phases.update(i, Phase::Reading(who as int)),
                                elements: pre.ledger@.elements,
                                pushes: pre.ledger@.pushes,
                                pops: pre.ledger@.pops + 1,
                            };
                            self.lemma_head_moved(pre, who as int);
                        }
                        Op::ForceEvicting {
                            value,
                            tail,
                            element: Ghost(self.ledger@.elements[word_index(tail, self.one_lap)]),
                        }
                    },
                    Err(_) => {
                        proof {
                            self.lemma_same_ring(*old(self), who as int);
                        }
                        Op::Push { value, force }
                    },
                }
            } else {
                let head = self.head.load(MemOrder::Relaxed);
                proof {
                    self.lemma_same_ring(*old(self), who as int);
                }
                if head.wrapping_add(self.one_lap) == tail {
                    Op::Rejected { value }
                } else {
                    Op::Push { value, force }
                }
            }
        } else {
            proof {
                self.lemma_same_ring(*old(self), who as int);
            }
            Op::Push { value, force }
        }
    }

    /// The tail has moved on from a slot that was free, or that `who` was
    /// reading, and `who` has claimed the slot for `value`: the ring's
    /// invariant holds, the value is at the back of the queue, and every
    /// other operation can still rely on what it relied on.
    #[verifier::rlimit(60)]
    proof fn lemma_tail_moved(&self, pre: Self, who: int, value: T)
        requires
            pre.inv(),
            pre.phase(pre.t()) == Phase::Free || pre.phase(pre.t()) == Phase::Reading(who),
            self.tail@ == advance(pre.tail@, pre.cap, pre.one_lap),
            self.head@ == pre.head@,
            self.cap == pre.cap,
            self.one_lap == pre.one_lap,
            self.buffer@ == pre.buffer@,
            self.ledger@.phases == pre.ledger@.phases.update(
                pre.t(),
                if pre.phase(pre.t()) == Phase::Free {
                    Phase::Writing(who)
                } else {
                    Phase::Replacing(who)
                },
            ),
            self.ledger@.elements == pre.ledger@.elements.update(pre.t(), value),
            self.ledger@.pushes == pre.ledger@.pushes + 1,
            self.ledger@.pops == pre.ledger@.pops,
        ensures
            self.inv(),
            pre@.len() < pre.cap,
            self@ == pre@.push(value),
            pre.untouched_but(*self, who),
            pre.owns_only(who, pre.t()) ==> self.owns_only(who, pre.t()),
            forall|w: int, o: Op<T>| w != who && #[trigger] pre.op_ok(w, o) ==> self.op_ok(w, o),
    {
        let i = pre.t();
        pre.lemma_counters();
        lemma_next_lap(pre.lt(), self.one_lap as int);
        assert(pre.slot_ok(i));
        if pre.t() + 1 < pre.cap {
            lemma_join(pre.lt(), pre.t() + 1, self.one_lap);
        } else {
            lemma_join(next_lap(pre.lt(), self.one_lap as int), 0, self.one_lap);
        }
        assert forall|j: int| 0 <= j < self.cap implies #[trigger] self.phase(j) == pre.phase(j)
            || j == i by {}
        assert forall|j: int| 0 <= j < self.cap implies #[trigger] self.slot_ok(j) by {
            assert(pre.slot_ok(j));
        }
        assert forall|k: int| 0 <= k < pre.count() implies pre.slot_at(k) != i by {
            assert(pre.slot_ok(pre.slot_at(k)));
        }
        assert(self@ =~= pre@.push(value));
        assert forall|w: int, o: Op<T>| w != who && #[trigger] pre.op_ok(w, o) implies self.op_ok(
            w,
            o,
        ) by {
            self.lemma_claim_keeps(pre, who, i, w, o);
        }
    }

    /// The head has moved on from a slot that was full, and `who` has
    /// claimed the slot to read it: the ring's invariant holds, the oldest
    /// element has left the queue, and every other operation can still rely
    /// on what it relied on.
    #[verifier::rlimit(60)]
    proof fn lemma_head_moved(&self, pre: Self, who: int)
        requires
            pre.inv(),
            pre.phase(pre.h()) == Phase::Full,
            self.head@ == advance(pre.head@, pre.cap, pre.one_lap),
            self.tail@ == pre.tail@,
            self.cap == pre.cap,
            self.one_lap == pre.one_lap,
            self.buffer@ == pre.buffer@,
            self.ledger@.phases == pre.ledger@.phases.update(pre.h(), Phase::Reading(who)),
            self.ledger@.elements == pre.ledger@.elements,
            self.ledger@.pushes == pre.ledger@.pushes,
            self.ledger@.pops == pre.ledger@.pops + 1,
        ensures
            self.inv(),
            pre@.len() > 0,
            pre@[0] == pre.ledger@.elements[pre.h()],
            pre.buffer[pre.h()].value@ == Some(pre@[0]),
            self@ == pre@.subrange(1, pre@.len() as int),
            pre.untouched_but(*self, who),
            pre.owns_only(who, pre.h()) ==> self.owns_only(who, pre.h()),
            forall|w: int, o: Op<T>| w != who && #[trigger] pre.op_ok(w, o) ==> self.op_ok(w, o),
    {
        let i = pre.h();
        pre.lemma_counters();
        assert(pre.slot_ok(i));
        if pre.h() + 1 < pre.cap {
            lemma_join(pre.lh(), pre.h() + 1, self.one_lap);
        } else {
            lemma_join(next_lap(pre.lh(), self.one_lap as int), 0, self.one_lap);
        }
        lemma_next_lap(self.lh(), self.one_lap as int);
        assert forall|j: int| 0 <= j < self.cap implies #[trigger] self.phase(j) == pre.phase(j)
            || j == i by {}
        assert forall|j: int| 0 <= j < self.cap implies #[trigger] self.slot_ok(j) by {
            assert(pre.slot_ok(j));
        }
        assert(self@ =~= pre@.subrange(1, pre@.len() as int));
        assert forall|w: int, o: Op<T>| w != who && #[trigger] pre.op_ok(w, o) implies self.op_ok(
            w,
            o,
        ) by {
            self.lemma_claim_keeps(pre, who, i, w, o);
        }
    }

    /// After `who` has claimed the slot at `i` by moving a counter, every
    /// other operation can still rely on what it relied on.
    #[verifier::rlimit(60)]
    proof fn lemma_claim_keeps(&self, pre: Self, who: int, i: int, w: int, o: Op<T>)
        requires
            pre.inv(),
            self.inv(),
            w != who,
            pre.op_ok(w, o),
            0 <= i < pre.cap,
            self.cap == pre.cap,
            self.one_lap == pre.one_lap,
            self.buffer@ == pre.buffer@,
            self.ledger@.phases =~= pre.ledger@.phases.update(i, self.phase(i)),
            self.phase(i).owner() == Some(who),
            pre.phase(i).owner() is None || pre.phase(i).owner() == Some(who),
            forall|j: int| 0 <= j < pre.cap && j != i ==> self.ledger@.elements[j]
                == pre.ledger@.elements[j],
            // A push has moved the tail from the slot, which was free or which
            // `who` was reading, or a pop has moved the head from the slot,
            // which was full.
            ({
                &&& pre.phase(i) == Phase::Free
                &&& i == pre.t()
                &&& self.head@ == pre.head@
                &&& self.ledger@.pushes == pre.ledger@.pushes + 1
                &&& self.ledger@.pops == pre.ledger@.pops
            }) || ({
                &&& pre.phase(i) == Phase::Reading(who)
                &&& i == pre.t()
                &&& self.head@ == pre.head@
                &&& self.ledger@.pushes == pre.ledger@.pushes + 1
                &&& self.ledger@.pops == pre.ledger@.pops
            }) || ({
                &&& pre.phase(i) == Phase::Full
                &&& i == pre.h()
                &&& self.tail@ == pre.tail@
                &&& self.ledger@.pushes == pre.ledger@.pushes
                &&& self.ledger@.pops == pre.ledger@.pops + 1
            }),
        ensures
            self.op_ok(w, o),
    {
        assert forall|j: int| 0 <= j < self.cap implies (#[trigger] self.phase(j)).owner()
            != Some(w) || pre.phase(j).owner() == Some(w) by {}
        assert(pre.slot_ok(pre.t()));
        assert(pre.slot_ok(pre.h()));
        assert(pre.phase(i).owner() != Some(w));
    }

    /// The fourth step of a push: write the value to the claimed slot.
    fn push_write(&mut self, who: usize, value: T, tail: usize) -> (next: Op<T>)
        requires
            old(self).inv(),
            old(self).op_ok(who as int, Op::PushClaimed { value, tail }),
        ensures
            Self::step_post(
                *old(self),
                *final(self),
                who as int,
                Op::PushClaimed { value, tail },
                next,
            ),
    {
        proof {
            self.lemma_counters();
        }
        let index = index_of(tail, self.one_lap);
        self.buffer[index].write(value);
        proof {
            let pre = *old(self);
            assert forall|j: int| 0 <= j < self.cap implies #[trigger] self.phase(j) == pre.phase(
                j,
            ) || j == index by {}
            assert forall|j: int| 0 <= j < self.cap implies #[trigger] self.slot_ok(j) by {
                assert(pre.slot_ok(j));
            }
            assert(self@ =~= pre@);
            assert forall|w: int, o: Op<T>|
                w != who && #[trigger] pre.op_ok(w, o) implies self.op_ok(w, o) by {
                self.lemma_owned_keeps(pre, who as int, index as int, w, o);
            }
        }
        Op::PushWritten { tail, value: Ghost(value) }
    }

    /// After `who` has written to, stamped or given up the slot at `i`,
    /// which it had claimed, every other operation can still rely on what it
    /// relied on.
    #[verifier::rlimit(60)]
    proof fn lemma_owned_keeps(&self, pre: Self, who: int, i: int, w: int, o: Op<T>)
        requires
            pre.inv(),
            self.inv(),
            w != who,
            pre.op_ok(w, o),
            0 <= i < pre.cap,
            self.cap == pre.cap,
            self.one_lap == pre.one_lap,
            self.head@ == pre.head@,
            self.tail@ == pre.tail@,
            self.buffer@.len() == pre.buffer@.len(),
            forall|j: int| 0 <= j < pre.cap && j != i ==> self.buffer[j] == pre.buffer[j],
            pre.phase(i).owner() == Some(who),
            self.ledger@.phases =~= pre.ledger@.phases.update(i, self.phase(i)),
            self.phase(i) == pre.phase(i) || self.phase(i).owner() is None,
            self.ledger@.elements == pre.ledger@.elements,
            self.ledger@.pushes == pre.ledger@.pushes,
            self.ledger@.pops == pre.ledger@.pops,
        ensures
            self.op_ok(w, o),
    {
        assert forall|j: int| 0 <= j < self.cap implies (#[trigger] self.phase(j)).owner()
            != Some(w) || pre.phase(j).owner() == Some(w) by {}
        assert(pre.slot_ok(pre.t()));
        assert(pre.slot_ok(pre.h()));
        assert(pre.phase(i).owner() != Some(w));
    }

    /// The last step of a push: stamp the slot, which hands the element to
    /// the consumers.
    fn push_commit(&mut self, who: usize, tail: usize, value: Ghost<T>) -> (next: Op<T>)
        requires
            old(self).inv(),
            old(self).op_ok(who as int, Op::PushWritten { tail, value }),
        ensures
            Self::step_post(
                *old(self),
                *final(self),
                who as int,
                Op::PushWritten { tail, value },
                next,
            ),
    {
        proof {
            self.lemma_counters();
            lemma_split(tail, self.one_lap);
        }
        let index = index_of(tail, self.one_lap);
        self.buffer[index].stamp.store(tail + 1, MemOrder::Release);
        proof {
            let pre = *old(self);
            self.ledger@ = Ledger {
                phases: pre.ledger@.phases.update(index as int, Phase::Full),
                ..pre.ledger@
            };
            assert forall|j: int| 0 <= j < self.cap implies #[trigger] self.phase(j) == pre.phase(
                j,
            ) || j == index by {}
            assert forall|j: int| 0 <= j < self.cap implies #[trigger] self.slot_ok(j) by {
                assert(pre.slot_ok(j));
            }
            assert(self@ =~= pre@);
            assert forall|w: int, o: Op<T>|
                w != who && #[trigger] pre.op_ok(w, o) implies self.op_ok(w, o) by {
                self.lemma_owned_keeps(pre, who as int, index as int, w, o);
            }
        }
        Op::Pushed { value }
    }

    /// The first step of a pop: load the head.
    fn pop_load_head(&mut self, who: usize) -> (next: Op<T>)
        requires
            old(self).inv(),
            old(self).op_ok(who as int, Op::Pop),
        ensures
            Self::step_post(*old(self), *final(self), who as int, Op::Pop, next),
    {
        let head = self.head.load(MemOrder::Relaxed);
        proof {
            self.lemma_counters();
            self.lemma_same_ring(*old(self), who as int);
        }
        Op::PopHead { head, seen: Ghost(self.ledger@.pops) }
    }

    /// The second step of a pop: load the stamp of the head's slot.
    fn pop_load_stamp(&mut self, who: usize, head: usize, seen: Ghost<nat>) -> (next: Op<T>)
        requires
            old(self).inv(),
            old(self).op_ok(who as int, Op::PopHead { head, seen }),
        ensures
            Self::step_post(
                *old(self),
                *final(self),
                who as int,
                Op::PopHead { head, seen },
                next,
            ),
    {
        proof {
            self.lemma_counters();
        }
        let index = index_of(head, self.one_lap);
        let stamp = self.buffer[index].stamp.load(MemOrder::Acquire);
        proof {
            self.lemma_same_ring(*old(self), who as int);
            assert(self.slot_ok(self.h()));
        }
        Op::PopStamp { head, stamp, seen }
    }

    /// The third step of a pop. If the stamp says that the slot holds an
    /// element, claim the slot by moving the head. If it says that the slot
    /// is free, look at the tail: when the tail is where the head is, the
    /// queue is empty.
    #[verifier::rlimit(60)]
    fn pop_claim(&mut self, who: usize, head: usize, stamp: usize, seen: Ghost<nat>) -> (next:
        Op<T>)
        requires
            old(self).inv(),
            old(self).op_ok(who as int, Op::PopStamp { head, stamp, seen }),
            old(self).fresh(Op::PopStamp { head, stamp, seen }),
        ensures
            Self::step_post(
                *old(self),
                *final(self),
                who as int,
                Op::PopStamp { head, stamp, seen },
                next,
            ),
    {
        proof {
            self.lemma_counters();
            lemma_split(head, self.one_lap);
            assert(self.slot_ok(self.h()));
        }
        if head + 1 == stamp {
            let new_head = self.next_position(head);
            match self.head.compare_exchange_weak(
                head,
                new_head,
                MemOrder::SeqCst,
                MemOrder::Relaxed,
            ) {
                Ok(_) => {
                    proof {
                        let pre = *old(self);
                        let i = pre.h();
                        self.ledger@ = Ledger {
                            phases: pre.ledger@.phases.update(i, Phase::Reading(who as int)),
                            elements: pre.ledger@.elements,
                            pushes: pre.ledger@.pushes,
                            pops: pre.ledger@.pops + 1,
                        };
                        self.lemma_head_moved(pre, who as int);
                    }
                    Op::PopClaimed {
                        head,
                        element: Ghost(self.ledger@.elements[word_index(head, self.one_lap)]),
                    }
                },
                Err(current) => {
                    proof {
                        self.lemma_same_ring(*old(self), who as int);
                    }
                    Op::PopHead { head: current, seen: Ghost(self.ledger@.pops) }
                },
            }
        } else if stamp == head {
            fence(MemOrder::SeqCst);
            let tail = self.tail.load(MemOrder::Relaxed);
            proof {
                self.lemma_same_ring(*old(self), who as int);
            }
            if tail == head {
                Op::Popped { result: None }
            } else {
                Op::Pop
            }
        } else {
            proof {
                self.lemma_same_ring(*old(self), who as int);
            }
            Op::Pop
        }
    }

    /// The fourth step of a pop: read the element out of the claimed slot.
    fn pop_read(&mut self, who: usize, head: usize, element: Ghost<T>) -> (next: Op<T>)
        requires
            old(self).inv(),
            old(self).op_ok(who as int, Op::PopClaimed { head, element }),
        ensures
            Self::step_post(
                *old(self),
                *final(self),
                who as int,
                Op::PopClaimed { head, element },
                next,
            ),
    {
        proof {
            self.lemma_counters();
        }
        let index = index_of(head, self.one_lap);
        let taken = self.buffer[index].read().unwrap();
        proof {
            let pre = *old(self);
            assert forall|j: int| 0 <= j < self.cap implies #[trigger] self.phase(j) == pre.phase(
                j,
            ) || j == index by {}
            assert forall|j: int| 0 <= j < self.cap implies #[trigger] self.slot_ok(j) by {
                assert(pre.slot_ok(j));
            }
            assert(self@ =~= pre@);
            assert forall|w: int, o: Op<T>|
                w != who && #[trigger] pre.op_ok(w, o) implies self.op_ok(w, o) by {
                self.lemma_owned_keeps(pre, who as int, index as int, w, o);
            }
        }
        Op::PopTaken { head, taken, element }
    }

    /// The last step of a pop: stamp the slot for the producer of the next
    /// lap.
    fn pop_release(&mut self, who: usize, head: usize, taken: T, element: Ghost<T>) -> (next:
        Op<T>)
        requires
            old(self).inv(),
            old(self).op_ok(who as int, Op::PopTaken { head, taken, element }),
        ensures
            Self::step_post(
                *old(self),
                *final(self),
                who as int,
                Op::PopTaken { head, taken, element },
                next,
            ),
    {
        proof {
            self.lemma_counters();
            lemma_split(head, self.one_lap);
            lemma_next_lap(word_lap(head, self.one_lap), self.one_lap as int);
        }
        let index = index_of(head, self.one_lap);
        self.buffer[index].stamp.store(head.wrapping_add(self.one_lap), MemOrder::Release);
        proof {
            let pre = *old(self);
            self.ledger@ = Ledger {
                phases: pre.ledger@.phases.update(index as int, Phase::Free),
                ..pre.ledger@
            };
            assert(pre.slot_ok(index as int));
            assert forall|j: int| 0 <= j < self.cap implies #[trigger] self.phase(j) == pre.phase(
                j,
            ) || j == index by {}
            assert forall|j: int| 0 <= j < self.cap implies #[trigger] self.slot_ok(j) by {
                assert(pre.slot_ok(j));
            }
            assert(self@ =~= pre@);
            assert forall|w: int, o: Op<T>|
                w != who && #[trigger] pre.op_ok(w, o) implies self.op_ok(w, o) by {
                self.lemma_owned_keeps(pre, who as int, index as int, w, o);
            }
        }
        Op::Popped { result: Some(taken) }
    }

    /// The step of a forced push after the eviction: move the tail on, which
    /// claims the evicted element's slot for the new value. No other
    /// operation can have moved the tail meanwhile, because none could claim
    /// this slot.
    #[verifier::rlimit(60)]
    fn force_move_tail(&mut self, who: usize, value: T, tail: usize, element: Ghost<T>) -> (next:
        Op<T>)
        requires
            old(self).inv(),
            old(self).op_ok(who as int, Op::ForceEvicting { value, tail, element }),
        ensures
            Self::step_post(
                *old(self),
                *final(self),
                who as int,
                Op::ForceEvicting { value, tail, element },
                next,
            ),
    {
        proof {
            self.lemma_counters();
            lemma_next_lap(self.lt(), self.one_lap as int);
            lemma_prev_lap(self.lt(), self.one_lap as int);
            assert(self.slot_ok(self.t()));
        }
        let new_tail = self.next_position(tail);
        self.tail.store(new_tail, MemOrder::SeqCst);
        proof {
            let pre = *old(self);
            let i = pre.t();
            self.ledger@ = Ledger {
                phases: pre.ledger@.phases.update(i, Phase::Replacing(who as int)),
                elements: pre.ledger@.elements.update(i, value),
                pushes: pre.ledger@.pushes + 1,
                pops: pre.ledger@.pops,
            };
            self.lemma_tail_moved(pre, who as int, value);
            lemma_next_lap(prev_lap(pre.lt(), self.one_lap as int), self.one_lap as int);
            assert(Op::ForceMoved { value, tail, element }.calls() =~= Op::ForceEvicting {
                value,
                tail,
                element,
            }.calls().push(Call::Push { value, accepted: true }));
        }
        Op::ForceMoved { value, tail, element }
    }

    /// The step of a forced push after its second claim: take the evicted
    /// element out of the slot and put the new value in.
    fn force_swap(&mut self, who: usize, value: T, tail: usize, element: Ghost<T>) -> (next: Op<T>)
        requires
            old(self).inv(),
            old(self).op_ok(who as int, Op::ForceMoved { value, tail, element }),
        ensures
            Self::step_post(
                *old(self),
                *final(self),
                who as int,
                Op::ForceMoved { value, tail, element },
                next,
            ),
    {
        proof {
            self.lemma_counters();
        }
        let index = index_of(tail, self.one_lap);
        let taken = self.buffer[index].read().unwrap();
        self.buffer[index].write(value);
        proof {
            let pre = *old(self);
            assert forall|j: int| 0 <= j < self.cap implies #[trigger] self.phase(j) == pre.phase(
                j,
            ) || j == index by {}
            assert forall|j: int| 0 <= j < self.cap implies #[trigger] self.slot_ok(j) by {
                assert(pre.slot_ok(j));
            }
            assert(self@ =~= pre@);
            assert forall|w: int, o: Op<T>|
                w != who && #[trigger] pre.op_ok(w, o) implies self.op_ok(w, o) by {
                self.lemma_owned_keeps(pre, who as int, index as int, w, o);
            }
        }
        Op::ForceSwapped { tail, taken, value: Ghost(value), element }
    }

    /// The last step of a forced push: stamp the slot, which hands the new
    /// element to the consumers.
    fn force_commit(
        &mut self,
        who: usize,
        tail: usize,
        taken: T,
        value: Ghost<T>,
        element: Ghost<T>,
    ) -> (next: Op<T>)
        requires
            old(self).inv(),
            old(self).op_ok(who as int, Op::ForceSwapped { tail, taken, value, element }),
        ensures
            Self::step_post(
                *old(self),
                *final(self),
                who as int,
                Op::ForceSwapped { tail, taken, value, element },
                next,
            ),
    {
        proof {
            self.lemma_counters();
            lemma_split(tail, self.one_lap);
        }
        let index = index_of(tail, self.one_lap);
        self.buffer[index].stamp.store(tail + 1, MemOrder::Release);
        proof {
            let pre = *old(self);
            self.ledger@ = Ledger {
                phases: pre.ledger@.phases.update(index as int, Phase::Full),
                ..pre.ledger@
            };
            assert(pre.slot_ok(index as int));
            lemma_prev_lap(pre.turn_lap(index as int), self.one_lap as int);
            assert forall|j: int| 0 <= j < self.cap implies #[trigger] self.phase(j) == pre.phase(
                j,
            ) || j == index by {}
            assert forall|j: int| 0 <= j < self.cap implies #[trigger] self.slot_ok(j) by {
                assert(pre.slot_ok(j));
            }
            assert(self@ =~= pre@);
            assert forall|w: int, o: Op<T>|
                w != who && #[trigger] pre.op_ok(w, o) implies self.op_ok(w, o) by {
                self.lemma_owned_keeps(pre, who as int, index as int, w, o);
            }
        }
        Op::Evicted { result: taken, value }
    }

    /// The operation `op` of `who` is the only one under way, and what it
    /// has loaded is what the ring holds now.
    spec fn alone(&self, who: int, op: Op<T>) -> bool {
        &&& forall|i: int|
            0 <= i < self.cap ==> (#[trigger] self.phase(i)).owner() is None || self.phase(
                i,
            ).owner() == Some(who)
        &&& match op {
            Op::PushTail { seen, .. } => seen@ == self.ledger@.pushes,
            Op::PushStamp { tail, stamp, seen, .. } => seen@ == self.ledger@.pushes && stamp
                == self.stamp_at(tail),
            Op::PopHead { seen, .. } => seen@ == self.ledger@.pops,
            Op::PopStamp { head, stamp, seen } => seen@ == self.ledger@.pops && stamp
                == self.stamp_at(head),
            _ => true,
        }
    }

    /// An operation that is alone makes its next step on words that are as
    /// fresh as can be, and the step brings it nearer to its end.
    proof fn lemma_alone(&self, who: int, op: Op<T>)
        requires
            self.inv(),
            self.op_ok(who, op),
            self.alone(who, op),
            !op.is_done(),
        ensures
            self.fresh(op),
            op is Idle || self.stepped(op).rank() < op.rank(),
            !(op is Idle) ==> !(self.stepped(op) is Idle),
            forall|v: T, f: bool| op.pushes(v, f) ==> self.stepped(op).pushes(v, f),
            op.pops() ==> self.stepped(op).pops(),
    {
        self.lemma_counters();
        lemma_next_lap(self.lt(), self.one_lap as int);
        assert(self.slot_ok(self.t()));
        assert(self.slot_ok(self.h()));
    }

    /// A step keeps an operation's kind and value, and adds no more than one
    /// call to those that the operation has taken effect as.
    proof fn lemma_step_kind(&self, who: int, op: Op<T>)
        requires
            self.op_ok(who, op),
        ensures
            forall|v: T, f: bool| op.pushes(v, f) ==> self.stepped(op).pushes(v, f),
            op.pops() ==> self.stepped(op).pops(),
            op.calls().is_prefix_of(self.stepped(op).calls()),
            self.stepped(op).calls().len() <= op.calls().len() + 1,
    {
        assert(op.calls() =~= self.stepped(op).calls().take(op.calls().len() as int));
    }

    /// When the only operation under way has made a step, it is still alone.
    proof fn lemma_still_alone(&self, pre: Self, who: int, op: Op<T>, next: Op<T>)
        requires
            pre.inv(),
            pre.op_ok(who, op),
            pre.alone(who, op),
            Self::step_post(pre, *self, who, op, next),
        ensures
            self.alone(who, next),
            next.is_done() ==> self.settled(),
    {
        assert forall|i: int| 0 <= i < self.cap implies (#[trigger] self.phase(i)).owner()
            is None || self.phase(i).owner() == Some(who) by {
            assert(pre.phase(i).owner() is None || pre.phase(i).owner() == Some(who));
        }
    }

    /// Runs the operation `first`, alone, from where it is to its end.
    #[verifier::rlimit(60)]
    fn run(&mut self, first: Op<T>) -> (done: Op<T>)
        requires
            old(self).inv(),
            old(self).op_ok(0, first),
            old(self).alone(0, first),
            first is Push || first is Pop,
        ensures
            final(self).wf(),
            final(self).capacity() == old(self).capacity(),
            done.is_done(),
            forall|v: T, f: bool| first.pushes(v, f) ==> done.pushes(v, f),
            first.pops() ==> done.pops(),
            1 <= done.calls().len() <= 2,
            done.calls().len() == 1 ==> bounded_step(
                old(self).capacity() as nat,
                old(self)@,
                done.calls()[0],
                final(self)@,
            ),
            done.calls().len() == 2 ==> old(self)@.len() == old(self).capacity() && exists|
                mid: Seq<T>,
            |
                {
                    &&& bounded_step(
                        old(self).capacity() as nat,
                        old(self)@,
                        done.calls()[0],
                        mid,
                    )
                    &&& #[trigger] bounded_step(
                        old(self).capacity() as nat,
                        mid,
                        done.calls()[1],
                        final(self)@,
                    )
                },
    {
        let ghost mut mid = self@;
        let mut op = first;
        loop
            invariant
                self.inv(),
                self.capacity() == old(self).capacity(),
                self.op_ok(0, op),
                self.alone(0, op),
                forall|v: T, f: bool| first.pushes(v, f) ==> op.pushes(v, f),
                first.pops() ==> op.pops(),
                op.calls().len() <= 2,
                op.calls().len() == 0 ==> self@ == old(self)@ && !op.is_done(),
                !(op is Idle),
                op.calls().len() == 1 ==> bounded_step(
                    old(self).capacity() as nat,
                    old(self)@,
                    op.calls()[0],
                    self@,
                ),
                op.calls().len() == 2 ==> old(self)@.len() == old(self).capacity() && bounded_step(
                    old(self).capacity() as nat,
                    old(self)@,
                    op.calls()[0],
                    mid,
                ) && bounded_step(old(self).capacity() as nat, mid, op.calls()[1], self@),
                op is ForceEvicting ==> old(self)@.len() == old(self).capacity(),
                op.is_done() ==> self.settled(),
            decreases op.rank(),
        {
            op =
            match op {
                Op::Pushed { value } => { return Op::Pushed { value }; },
                Op::Rejected { value } => { return Op::Rejected { value }; },
                Op::Evicted { result, value } => { return Op::Evicted { result, value }; },
                Op::Popped { result } => { return Op::Popped { result }; },
                other => {
                    let ghost pre = *self;
                    proof {
                        self.lemma_alone(0, other);
                    }
                    let next = self.step(0, other);
                    proof {
                        self.lemma_still_alone(pre, 0, other, next);
                        if next.calls() != other.calls() && other.calls().len() == 1 {
                            mid = pre@;
                        }
                    }
                    next
                },
            };
        }
    }

    /// Puts `value` at the back of the queue, or hands it back if the queue
    /// is full.
    pub fn push(&mut self, value: T) -> (r: Result<(), T>)
        requires
            old(self).wf(),
        ensures
            final(self).wf(),
            final(self).capacity() == old(self).capacity(),
            old(self)@.len() < old(self).capacity() ==> r is Ok && final(self)@ == old(self)@.push(
                value,
            ),
            old(self)@.len() >= old(self).capacity() ==> r == Err::<(), T>(value) && final(self)@
                == old(self)@,
            bounded_step(
                old(self).capacity() as nat,
                old(self)@,
                (Call::Push { value, accepted: r is Ok }),
                final(self)@,
            ),
    {
        let ghost v = value;
        let done = self.run(Op::Push { value, force: false });
        proof {
            assert(Op::Push { value: v, force: false }.pushes(v, false));
        }
        match done {
            Op::Rejected { value } => Err(value),
            _ => Ok(()),
        }
    }

    /// Takes the oldest element out of the queue, if there is one.
    pub fn pop(&mut self) -> (r: Option<T>)
        requires
            old(self).wf(),
        ensures
            final(self).wf(),
            final(self).capacity() == old(self).capacity(),
            old(self)@.len() == 0 ==> r is None && final(self)@ == old(self)@,
            old(self)@.len() > 0 ==> r == Some(old(self)@[0]) && final(self)@ == old(
                self,
            )@.subrange(1, old(self)@.len() as int),
            bounded_step(
                old(self).capacity() as nat,
                old(self)@,
                (Call::Pop { taken: r }),
                final(self)@,
            ),
    {
        match self.run(Op::Pop) {
            Op::Popped { result } => result,
            _ => None,
        }
    }

    /// Puts `value` at the back of the queue. If the queue is full, the
    /// oldest element makes room and is returned.
    pub fn force_push(&mut self, value: T) -> (r: Option<T>)
        requires
            old(self).wf(),
        ensures
            final(self).wf(),
            final(self).capacity() == old(self).capacity(),
            old(self)@.len() < old(self).capacity() ==> r is None && final(self)@ == old(
                self,
            )@.push(value),
            old(self)@.len() >= old(self).capacity() ==> r == Some(old(self)@[0]) && final(self)@
                == old(self)@.subrange(1, old(self)@.len() as int).push(value),
            bounded_step(
                old(self).capacity() as nat,
                old(self)@,
                (Call::ForcePush { value, evicted: r }),
                final(self)@,
            ),
    {
        let ghost v = value;
        let done = self.run(Op::Push { value, force: true });
        proof {
            assert(Op::Push { value: v, force: true }.pushes(v, true));
        }
        match done {
            Op::Evicted { result, .. } => Some(result),
            _ => None,
        }
    }

    /// Takes every element out of the queue, oldest first.
    pub fn drain(&mut self) -> (taken: Vec<T>)
        requires
            old(self).wf(),
        ensures
            final(self).wf(),
            final(self).capacity() == old(self).capacity(),
            taken@ == old(self)@,
            final(self)@ == Seq::<T>::empty(),
    {
        let mut taken: Vec<T> = Vec::new();
        loop
            invariant
                self.wf(),
                self.capacity() == old(self).capacity(),
                taken@ + self@ == old(self)@,
            ensures
                self@.len() == 0,
            decreases self@.len(),
        {
            match self.pop() {
                Some(element) => {
                    taken.push(element);
                },
                None => {
                    break ;
                },
            }
        }
        assert(taken@ =~= old(self)@);
        assert(self@ =~= Seq::<T>::empty());
        taken
    }
}

/// What an operation returned.
#[derive(Debug, PartialEq, Eq)]
pub enum Outcome<T> {
    /// The push put its value into the queue.
    Pushed,
    /// The push found the queue full; its value comes back.
    Rejected(T),
    /// The forced push put its value into the queue in the place of this
    /// element.
    Evicted(T),
    /// The pop took this element, or found the queue empty.
    Popped(Option<T>),
}

/// What an operation that is done returns.
pub open spec fn outcome_of<T>(op: Op<T>) -> Option<Outcome<T>> {
    match op {
        Op::Pushed { .. } => Some(Outcome::Pushed),
        Op::Rejected { value } => Some(Outcome::Rejected(value)),
        Op::Evicted { result, .. } => Some(Outcome::Evicted(result)),
        Op::Popped { result } => Some(Outcome::Popped(result)),
        _ => None,
    }
}

/// A ring with the operations that its owners have under way: one for each
/// owner at most, each between two of its steps.
///
/// Whoever holds the interleaving decides whose step comes next, so it can
/// make the operations take turns in any order. It keeps the list of the
/// calls in the order in which they took effect, which is a run in the
/// sense of [`crate::history`] whatever the order of the steps was.
pub struct Interleaving<T> {
    ring: BoundedRingQueue<T>,
    ops: Vec<Op<T>>,
    seen: Vec<u64>,
    tail_moves: u64,
    head_moves: u64,
    origin: Ghost<nat>,
    log: Ghost<Seq<Call<T>>>,
    states: Ghost<Seq<Seq<T>>>,
}

impl<T> View for Interleaving<T> {
    type V = Seq<T>;

    /// The elements in the queue, oldest first.
    closed spec fn view(&self) -> Seq<T> {
        self.ring@
    }
}

impl<T> Interleaving<T> {
    /// What is kept for the owner `w` fits the ring: the ring keeps what the
    /// owner's operation relies on, and the count noted when the operation
    /// loaded a counter is the one that the operation remembers.
    spec fn owner_ok(&self, w: int) -> bool {
        &&& self.ring.op_ok(w, self.ops[w])
        &&& match self.ops[w] {
            Op::PushTail { seen, .. } => seen@ == self.origin@ + self.seen[w],
            Op::PushStamp { seen, .. } => seen@ == self.origin@ + self.seen[w],
            Op::PopHead { seen, .. } => seen@ == self.origin@ + self.seen[w],
            Op::PopStamp { seen, .. } => seen@ == self.origin@ + self.seen[w],
            _ => true,
        }
    }

    /// The invariant: the ring's invariant holds, every operation under way
    /// can rely on what it relies on, and the calls listed are a run that
    /// ends with what the queue holds.
    pub closed spec fn inv(&self) -> bool {
        &&& self.ring.inv()
        &&& self.seen.len() == self.ops.len()
        &&& self.ring.ledger@.pushes == self.origin@ + self.tail_moves
        &&& self.ring.ledger@.pops == self.origin@ + self.head_moves
        &&& forall|w: int| 0 <= w < self.ops.len() ==> #[trigger] self.owner_ok(w)
        &&& forall|i: int|
            0 <= i < self.ring.cap ==> ((#[trigger] self.ring.phase(i)).owner() matches Some(w)
                ==> 0 <= w < self.ops.len())
        &&& is_bounded_run(self.ring.cap as nat, self.states@, self.log@)
        &&& self.states@.last() == self.ring@
    }

    /// The number of owners.
    pub closed spec fn owners(&self) -> nat {
        self.ops.len() as nat
    }

    /// The capacity of the ring.
    pub closed spec fn capacity(&self) -> nat {
        self.ring.cap as nat
    }

    /// The operation of owner `who`.
    pub closed spec fn op(&self, who: int) -> Op<T> {
        self.ops[who]
    }

    /// The calls that have taken effect, in the order in which they did.
    pub closed spec fn log(&self) -> Seq<Call<T>> {
        self.log@
    }

    /// What the queue held at first and after each call of the log.
    pub closed spec fn states(&self) -> Seq<Seq<T>> {
        self.states@
    }

    /// How often a counter of the ring has moved since the interleaving was
    /// made.
    pub closed spec fn moves(&self) -> nat {
        self.tail_moves as nat + self.head_moves as nat
    }

    /// The counts of moves have not reached the end of their range.
    pub closed spec fn in_range(&self) -> bool {
        self.tail_moves < u64::MAX && self.head_moves < u64::MAX
    }

    /// The words that the operation of owner `who` has loaded can be told
    /// from the counters as they are now: where one of them equals a counter
    /// now, the counter has not gone round the whole word in between.
    pub closed spec fn told(&self, who: int) -> bool {
        self.ring.fresh(self.ops[who])
    }

    /// What the operation of owner `who` is after its next step.
    pub closed spec fn after_step(&self, who: int) -> Op<T> {
        self.ring.stepped(self.ops[who])
    }

    /// The operation of owner `who` can make a step: the owner has an
    /// operation that is not done, and the step can be judged.
    pub open spec fn can_step(&self, who: int) -> bool {
        &&& 0 <= who < self.owners()
        &&& !(self.op(who) is Idle)
        &&& !self.op(who).is_done()
        &&& self.in_range()
        &&& self.told(who)
    }

    /// The counts are in range as long as the counters have moved less often
    /// than a count can tell.
    pub proof fn lemma_in_range(&self)
        requires
            self.moves() < u64::MAX,
        ensures
            self.in_range(),
    {
    }

    /// The order of an operation's steps: where each step leaves the
    /// operation. A step keeps the operation's kind and value, and adds no
    /// more than one call to those that the operation has taken effect as.
    pub proof fn lemma_after_step(&self, who: int)
        requires
            self.inv(),
            0 <= who < self.owners(),
        ensures
            forall|v: T, f: bool|
                self.op(who).pushes(v, f) ==> self.after_step(who).pushes(v, f),
            self.op(who).pops() ==> self.after_step(who).pops(),
            self.op(who).calls().is_prefix_of(self.after_step(who).calls()),
            self.after_step(who).calls().len() <= self.op(who).calls().len() + 1,
            self.op(who) is Idle || self.op(who).is_done() ==> self.after_step(who) == self.op(
                who,
            ),
            self.op(who) is Push ==> self.after_step(who) is PushTail,
            self.op(who) is PushTail ==> self.after_step(who) is PushStamp,
            self.op(who) is PushStamp ==> self.after_step(who) is PushClaimed || self.after_step(
                who,
            ) is PushTail || self.after_step(who) is Rejected || self.after_step(who)
                is ForceEvicting || self.after_step(who) is Push,
            self.op(who) is PushClaimed ==> self.after_step(who) is PushWritten,
            self.op(who) is PushWritten ==> self.after_step(who) is Pushed,
            self.op(who) is ForceEvicting ==> self.after_step(who) is ForceMoved,
            self.op(who) is ForceMoved ==> self.after_step(who) is ForceSwapped,
            self.op(who) is ForceSwapped ==> self.after_step(who) is Evicted,
            self.op(who) is Pop ==> self.after_step(who) is PopHead,
            self.op(who) is PopHead ==> self.after_step(who) is PopStamp,
            self.op(who) is PopStamp ==> self.after_step(who) is PopClaimed || self.after_step(
                who,
            ) is PopHead || self.after_step(who) is Popped || self.after_step(who) is Pop,
            self.op(who) is PopClaimed ==> self.after_step(who) is PopTaken,
            self.op(who) is PopTaken ==> self.after_step(who) is Popped,
    {
        assert(self.owner_ok(who));
        self.ring.lemma_step_kind(who, self.ops[who]);
    }

    /// An operation that is not between the load of a stamp and the
    /// compare-exchange that follows it has no word to be told.
    pub proof fn lemma_told(&self, who: int)
        requires
            !(self.op(who) is PushStamp),
            !(self.op(who) is PopStamp),
        ensures
            self.told(who),
    {
    }

    /// The calls that have taken effect are a run on a queue of this
    /// capacity, whatever the order of the steps was, and the run ends with
    /// what the queue holds. The laws of [`crate::history`] hold of it.
    pub proof fn lemma_log_is_run(&self)
        requires
            self.inv(),
        ensures
            is_bounded_run(self.capacity(), self.states(), self.log()),
            self.states().last() == self@,
    {
    }

    /// The laws of [`crate::history`] for the calls in the order in which
    /// they took effect, whatever the order of the steps was. A forced push
    /// that evicts is listed as the pop of the evicted element and the push
    /// of its value.
    ///
    /// * First in, first out: what has left the queue, followed by what the
    ///   queue holds, is what the queue took, in that order; and so for the
    ///   elements of each producer.
    /// * Conservation: what was popped and what the queue holds are
    ///   together, as multisets, what the queue took.
    /// * Bounded occupancy: the queue never held more than its capacity.
    pub proof fn lemma_laws(&self, from: spec_fn(T) -> bool)
        requires
            self.inv(),
        ensures
            departed(self.log()) + self@ == accepted(self.log()),
            departed(self.log()).filter(from) + self@.filter(from) == accepted(self.log()).filter(
                from,
            ),
            popped(self.log()).to_multiset().add(evicted(self.log()).to_multiset()).add(
                self@.to_multiset(),
            ) == accepted(self.log()).to_multiset(),
            forall|i: int|
                0 <= i < self.states().len() ==> (#[trigger] self.states()[i]).len()
                    <= self.capacity(),
    {
        lemma_bounded_is_run(self.capacity(), self.states(), self.log());
        lemma_first_in_first_out(self.states(), self.log());
        lemma_first_in_first_out_per_producer(self.states(), self.log(), from);
        lemma_conservation(self.states(), self.log());
        lemma_bounded_occupancy(self.capacity(), self.states(), self.log());
    }

    /// An interleaving over an empty ring, for `owners` owners, none of which
    /// has an operation under way.
    pub fn over(ring: BoundedRingQueue<T>, owners: usize) -> (all: Self)
        requires
            ring.wf(),
            ring@.len() == 0,
        ensures
            all.inv(),
            all.owners() == owners,
            all.capacity() == ring.capacity(),
            all@ == ring@,
            all.log() == Seq::<Call<T>>::empty(),
            all.states() == seq![ring@],
            all.moves() == 0,
            forall|w: int| 0 <= w < owners ==> all.op(w) == Op::<T>::Idle,
    {
        let mut ops: Vec<Op<T>> = Vec::new();
        let mut seen: Vec<u64> = Vec::new();
        let mut w: usize = 0;
        while w < owners
            invariant
                w <= owners,
                ops.len() == w,
                seen.len() == w,
                forall|j: int| 0 <= j < w ==> ops[j] == Op::<T>::Idle,
            decreases owners - w,
        {
            ops.push(Op::Idle);
            seen.push(0);
            w += 1;
        }
        let ghost origin = ring.ledger@.pushes;
        let ghost states = seq![ring@];
        let all = Interleaving {
            ring,
            ops,
            seen,
            tail_moves: 0,
            head_moves: 0,
            origin: Ghost(origin),
            log: Ghost(Seq::empty()),
            states: Ghost(states),
        };
        proof {
            all.ring.lemma_counters();
            assert(all.states@[0] =~= Seq::<T>::empty());
            assert forall|w: int| 0 <= w < all.ops.len() implies #[trigger] all.owner_ok(w) by {
                assert(all.ops[w] == Op::<T>::Idle);
            }
        }
        all
    }

    /// The number of owners.
    pub fn owner_count(&self) -> (n: usize)
        ensures
            n == self.owners(),
    {
        self.ops.len()
    }

    /// The number of elements in the queue.
    pub fn len(&self) -> (n: usize)
        requires
            self.inv(),
        ensures
            n == self@.len(),
            n <= self.capacity(),
    {
        self.ring.len()
    }

    /// Whether owner `who` has no operation.
    pub fn is_idle(&self, who: usize) -> (b: bool)
        ensures
            b <==> who < self.owners() && self.op(who as int) is Idle,
    {
        if who >= self.ops.len() {
            return false;
        }
        match &self.ops[who] {
            Op::Idle => true,
            _ => false,
        }
    }

    /// Whether the operation of owner `who` has made its last step.
    pub fn is_done(&self, who: usize) -> (b: bool)
        ensures
            b <==> who < self.owners() && self.op(who as int).is_done(),
    {
        if who >= self.ops.len() {
            return false;
        }
        match &self.ops[who] {
            Op::Pushed { .. } => true,
            Op::Rejected { .. } => true,
            Op::Evicted { .. } => true,
            Op::Popped { .. } => true,
            _ => false,
        }
    }

    /// Gives owner `who`, if it has no operation, the operation `first`,
    /// which has made no step yet.
    fn begin(&mut self, who: usize, first: Op<T>) -> (r: Result<(), Op<T>>)
        requires
            old(self).inv(),
            first is Push || first is Pop,
        ensures
            final(self).inv(),
            final(self).owners() == old(self).owners(),
            final(self).capacity() == old(self).capacity(),
            final(self)@ == old(self)@,
            final(self).log() == old(self).log(),
            final(self).states() == old(self).states(),
            final(self).moves() == old(self).moves(),
            forall|w: int|
                0 <= w < old(self).owners() && w != who ==> final(self).op(w) == old(self).op(w),
            r is Ok <==> who < old(self).owners() && old(self).op(who as int) is Idle,
            r is Ok ==> final(self).op(who as int) == first,
            r matches Err(back) ==> back == first && (who < old(self).owners() ==> final(self).op(
                who as int,
            ) == old(self).op(who as int)),
    {
        if !self.is_idle(who) {
            return Err(first);
        }
        proof {
            assert(self.owner_ok(who as int));
        }
        self.ops[who] = first;
        proof {
            let pre = *old(self);
            assert forall|w: int| 0 <= w < self.ops.len() implies #[trigger] self.owner_ok(w) by {
                assert(pre.owner_ok(w));
            }
        }
        Ok(())
    }

    /// Owner `who` starts a push of `value`. The value comes back if the
    /// owner is unknown or has an operation already.
    pub fn begin_push(&mut self, who: usize, value: T) -> (r: Result<(), T>)
        requires
            old(self).inv(),
        ensures
            final(self).inv(),
            final(self).owners() == old(self).owners(),
            final(self).capacity() == old(self).capacity(),
            final(self)@ == old(self)@,
            final(self).log() == old(self).log(),
            final(self).states() == old(self).states(),
            final(self).moves() == old(self).moves(),
            forall|w: int|
                0 <= w < old(self).owners() && w != who ==> final(self).op(w) == old(self).op(w),
            r is Ok <==> who < old(self).owners() && old(self).op(who as int) is Idle,
            r is Ok ==> final(self).op(who as int) == (Op::Push { value, force: false }),
            r is Err ==> r == Err::<(), T>(value) && (who < old(self).owners() ==> final(self).op(
                who as int,
            ) == old(self).op(who as int)),
    {
        match self.begin(who, Op::Push { value, force: false }) {
            Ok(_) => Ok(()),
            Err(Op::Push { value, .. }) => Err(value),
            Err(_) => Ok(()),
        }
    }

    /// Owner `who` starts a forced push of `value`. The value comes back if
    /// the owner is unknown or has an operation already.
    pub fn begin_force_push(&mut self, who: usize, value: T) -> (r: Result<(), T>)
        requires
            old(self).inv(),
        ensures
            final(self).inv(),
            final(self).owners() == old(self).owners(),
            final(self).capacity() == old(self).capacity(),
            final(self)@ == old(self)@,
            final(self).log() == old(self).log(),
            final(self).states() == old(self).states(),
            final(self).moves() == old(self).moves(),
            forall|w: int|
                0 <= w < old(self).owners() && w != who ==> final(self).op(w) == old(self).op(w),
            r is Ok <==> who < old(self).owners() && old(self).op(who as int) is Idle,
            r is Ok ==> final(self).op(who as int) == (Op::Push { value, force: true }),
            r is Err ==> r == Err::<(), T>(value) && (who < old(self).owners() ==> final(self).op(
                who as int,
            ) == old(self).op(who as int)),
    {
        match self.begin(who, Op::Push { value, force: true }) {
            Ok(_) => Ok(()),
            Err(Op::Push { value, .. }) => Err(value),
            Err(_) => Ok(()),
        }
    }

    /// Owner `who` starts a pop. Returns whether it did: not if the owner is
    /// unknown or has an operation already.
    pub fn begin_pop(&mut self, who: usize) -> (started: bool)
        requires
            old(self).inv(),
        ensures
            final(self).inv(),
            final(self).owners() == old(self).owners(),
            final(self).capacity() == old(self).capacity(),
            final(self)@ == old(self)@,
            final(self).log() == old(self).log(),
            final(self).states() == old(self).states(),
            final(self).moves() == old(self).moves(),
            forall|w: int|
                0 <= w < old(self).owners() && w != who ==> final(self).op(w) == old(self).op(w),
            started <==> who < old(self).owners() && old(self).op(who as int) is Idle,
            started ==> final(self).op(who as int) == Op::<T>::Pop,
            !started && who < old(self).owners() ==> final(self).op(who as int) == old(self).op(
                who as int,
            ),
    {
        self.begin(who, Op::Pop).is_ok()
    }

    /// Takes the result of the operation of owner `who`, if that operation
    /// is done. The owner is then without an operation.
    pub fn finish(&mut self, who: usize) -> (r: Option<Outcome<T>>)
        requires
            old(self).inv(),
        ensures
            final(self).inv(),
            final(self).owners() == old(self).owners(),
            final(self).capacity() == old(self).capacity(),
            final(self)@ == old(self)@,
            final(self).log() == old(self).log(),
            final(self).states() == old(self).states(),
            final(self).moves() == old(self).moves(),
            forall|w: int|
                0 <= w < old(self).owners() && w != who ==> final(self).op(w) == old(self).op(w),
            r is Some <==> who < old(self).owners() && old(self).op(who as int).is_done(),
            r is Some ==> r == outcome_of(old(self).op(who as int)) && final(self).op(who as int)
                is Idle,
            r is None && who < old(self).owners() ==> final(self).op(who as int) == old(self).op(
                who as int,
            ),
    {
        if !self.is_done(who) {
            return None;
        }
        proof {
            assert(self.owner_ok(who as int));
        }
        let mut op = Op::Idle;
        core::mem::swap(&mut self.ops[who], &mut op);
        proof {
            let pre = *old(self);
            assert forall|w: int| 0 <= w < self.ops.len() implies #[trigger] self.owner_ok(w) by {
                assert(pre.owner_ok(w));
            }
        }
        match op {
            Op::Pushed { .. } => Some(Outcome::Pushed),
            Op::Rejected { value } => Some(Outcome::Rejected(value)),
            Op::Evicted { result, .. } => Some(Outcome::Evicted(result)),
            Op::Popped { result } => Some(Outcome::Popped(result)),
            _ => None,
        }
    }

    /// Whether the words that the operation `op` has loaded can be told from
    /// the counters as they are now, whenever they are older.
    #[verifier::rlimit(60)]
    fn can_tell(&self, who: usize, op: &Op<T>) -> (b: bool)
        requires
            self.inv(),
            who < self.ops.len(),
            self.ring.op_ok(who as int, *op),
            match *op {
                Op::PushStamp { seen, .. } => seen@ == self.origin@ + self.seen[who as int],
                Op::PopStamp { seen, .. } => seen@ == self.origin@ + self.seen[who as int],
                _ => true,
            },
        ensures
            b <==> self.ring.fresh(*op),
    {
        proof {
            self.ring.lemma_counters();
        }
        let noted = self.seen[who];
        match op {
            Op::PushStamp { tail, .. } => {
                let at_tail = self.ring.tail.load(MemOrder::Relaxed) == *tail;
                let lap_behind = self.ring.head.load(MemOrder::Relaxed).wrapping_add(
                    self.ring.one_lap,
                ) == *tail;
                (!at_tail || noted == self.tail_moves) && (!lap_behind || noted as u128
                    == self.head_moves as u128 + self.ring.cap as u128)
            },
            Op::PopStamp { head, .. } => {
                let at_head = self.ring.head.load(MemOrder::Relaxed) == *head;
                let at_tail = self.ring.tail.load(MemOrder::Relaxed) == *head;
                (!at_head || noted == self.head_moves) && (!at_tail || noted == self.tail_moves)
            },
            _ => true,
        }
    }

    /// Makes the next step of the operation of owner `who`. Returns whether
    /// a step was made. None is made if the owner is unknown, has no
    /// operation or one that is done, or if the step cannot be judged: a
    /// word that the operation loaded earlier equals a counter that has gone
    /// round the whole word since, or a count of moves has reached the end
    /// of its range.
    #[verifier::rlimit(60)]
    pub fn step(&mut self, who: usize) -> (moved: bool)
        requires
            old(self).inv(),
        ensures
            final(self).inv(),
            final(self).owners() == old(self).owners(),
            final(self).capacity() == old(self).capacity(),
            forall|w: int|
                0 <= w < old(self).owners() && w != who ==> final(self).op(w) == old(self).op(w),
            // A step is made exactly where one can be made, and makes of the
            // operation what its next step makes of it.
            moved <==> old(self).can_step(who as int),
            moved ==> final(self).op(who as int) == old(self).after_step(who as int),
            !moved ==> final(self)@ == old(self)@ && final(self).log() == old(self).log()
                && final(self).states() == old(self).states() && final(self).moves() == old(
                self,
            ).moves() && (who < old(self).owners() ==> final(self).op(who as int) == old(self).op(
                who as int,
            )),
            final(self).moves() <= old(self).moves() + 1,
            // The queue's contents change in the step in which the operation
            // takes effect, as that call says, and in no other.
            moved && final(self).op(who as int).calls().len() == old(self).op(
                who as int,
            ).calls().len() ==> final(self)@ == old(self)@ && final(self).states() == old(
                self,
            ).states(),
            moved && final(self).op(who as int).calls().len() > old(self).op(
                who as int,
            ).calls().len() ==> final(self).states() == old(self).states().push(final(self)@)
                && bounded_step(
                old(self).capacity(),
                old(self)@,
                final(self).op(who as int).calls().last(),
                final(self)@,
            ),
            // The log grows by the calls that the step made the operation
            // take effect as: none or one.
            moved ==> final(self).log() == old(self).log() + final(self).op(
                who as int,
            ).calls().skip(old(self).op(who as int).calls().len() as int),
            moved ==> old(self).op(who as int).calls().is_prefix_of(
                final(self).op(who as int).calls(),
            ),
            moved ==> old(self).op(who as int).calls().len() <= final(self).op(
                who as int,
            ).calls().len() <= old(self).op(who as int).calls().len() + 1,
            // An operation keeps its kind and its value.
            moved ==> (forall|v: T, f: bool|
                old(self).op(who as int).pushes(v, f) ==> final(self).op(who as int).pushes(v, f)),
            moved ==> (old(self).op(who as int).pops() ==> final(self).op(who as int).pops()),
    {
        if who >= self.ops.len() || self.is_idle(who) || self.is_done(who) {
            return false;
        }
        if self.tail_moves == u64::MAX || self.head_moves == u64::MAX {
            return false;
        }
        proof {
            assert(self.owner_ok(who as int));
        }
        if !self.can_tell(who, &self.ops[who]) {
            return false;
        }
        let mut op = Op::Idle;
        core::mem::swap(&mut self.ops[who], &mut op);
        let at_push_stamp = match &op {
            Op::PushStamp { .. } => true,
            _ => false,
        };
        let at_pop_stamp = match &op {
            Op::PopStamp { .. } => true,
            _ => false,
        };
        let evicting = match &op {
            Op::ForceEvicting { .. } => true,
            _ => false,
        };
        let ghost before = op;
        let ghost pre = *old(self);
        let next = self.ring.step(who, op);
        match &next {
            Op::PushClaimed { .. } => {
                if at_push_stamp {
                    self.tail_moves = self.tail_moves + 1;
                }
            },
            Op::ForceMoved { .. } => {
                if evicting {
                    self.tail_moves = self.tail_moves + 1;
                }
            },
            Op::PopClaimed { .. } => {
                if at_pop_stamp {
                    self.head_moves = self.head_moves + 1;
                }
            },
            Op::ForceEvicting { .. } => {
                if at_push_stamp {
                    self.head_moves = self.head_moves + 1;
                }
            },
            Op::PushTail { .. } => {
                self.seen[who] = self.tail_moves;
            },
            Op::PopHead { .. } => {
                self.seen[who] = self.head_moves;
            },
            _ => {},
        }
        proof {
            pre.ring.lemma_step_kind(who as int, before);
            if next.calls() != before.calls() {
                self.log@ = pre.log@.push(next.calls().last());
                self.states@ = pre.states@.push(self.ring@);
                assert(next.calls().skip(before.calls().len() as int) =~= seq![
                    next.calls().last(),
                ]);
                assert(self.log@ =~= pre.log@ + next.calls().skip(before.calls().len() as int));
                assert forall|i: int| 0 <= i < self.log@.len() implies bounded_step(
                    self.ring.cap as nat,
                    #[trigger] self.states@[i],
                    self.log@[i],
                    self.states@[i + 1],
                ) by {
                    if i < pre.log@.len() {
                        assert(bounded_step(
                            pre.ring.cap as nat,
                            pre.states@[i],
                            pre.log@[i],
                            pre.states@[i + 1],
                        ));
                    }
                }
            } else {
                assert(next.calls().skip(before.calls().len() as int) =~= Seq::<Call<T>>::empty());
                assert(self.log@ =~= pre.log@ + next.calls().skip(before.calls().len() as int));
            }
        }
        self.ops[who] = next;
        proof {
            assert forall|w: int| 0 <= w < self.ops.len() implies #[trigger] self.owner_ok(w) by {
                assert(pre.owner_ok(w));
            }
        }
        true
    }

    /// Gives the ring back. Where no owner has an operation, the ring is
    /// between operations.
    pub fn into_ring(self) -> (ring: BoundedRingQueue<T>)
        requires
            self.inv(),
        ensures
            ring.inv(),
            ring@ == self@,
            ring.capacity() == self.capacity(),
            (forall|w: int| 0 <= w < self.owners() ==> self.op(w) is Idle) ==> ring.wf(),
    {
        proof {
            if forall|w: int| 0 <= w < self.owners() ==> self.op(w) is Idle {
                assert forall|i: int| 0 <= i < self.ring.cap implies (#[trigger] self.ring.phase(
                    i,
                )).owner() is None by {
                    if let Some(w) = self.ring.phase(i).owner() {
                        assert(self.owner_ok(w));
                        assert(self.op(w) is Idle);
                    }
                }
            }
        }
        self.ring
    }
}

} // verus!
