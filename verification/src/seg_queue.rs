//! The unbounded queue: a chain of fixed-size segments.
//!
//! A position is a packed word: the address of a segment in the high bits,
//! the index of a cell in the low bits, and one flag. The index runs from
//! zero to [`BLOCK_CAP`]; at [`BLOCK_CAP`] the segment is used up and the
//! position waits to move to the next segment. A segment's address is its
//! position word with index zero, and addresses are handed out in order, so
//! the chain's links and the positions speak of segments in the same way.
//! Before the first push, head and tail stand at the end of a segment that
//! does not exist, whose link is kept in the queue itself.
//!
//! Each cell carries state bits that say how far it is in its life: empty,
//! written, read. Each segment carries a completion word with one bit for
//! each cell whose reader has left and one bit that says that the head has
//! moved past the segment; whoever sets the last of these bits frees the
//! segment.
//!
//! As in [`crate::ring`], an operation is a short run of steps with one
//! access to the queue each, [`Op`] is what it remembers between its steps,
//! and the operations of different owners may take turns step by step.
use crate::history::{
    accepted,
    departed,
    evicted,
    is_run,
    lemma_conservation,
    lemma_first_in_first_out,
    lemma_first_in_first_out_per_producer,
    popped,
    step,
    Call,
};
use crate::position::{
    aligned,
    index_of,
    is_stride,
    lap_of,
    lemma_join,
    lemma_next_lap,
    lemma_prev_lap,
    lemma_split,
    lemma_stride,
    next_lap,
    prev_lap,
    word_count,
    word_index,
    word_lap,
};
use crate::primitive::{fence, AtomicPtr, AtomicUsize, MemOrder, UnsafeCell, NULL};
use crate::storage::reserve;
use vstd::arithmetic::div_mod::lemma_mod_multiples_basic;
use vstd::arithmetic::power2::lemma2_to64;
use vstd::prelude::*;

verus! {

/// The number of cells in a segment.
pub const BLOCK_CAP: usize = 31;

/// The index sits above this many flag bits.
pub const SHIFT: usize = 1;

/// Flag of the head position: the tail is known to be in a later segment, so
/// the queue cannot be empty.
pub const HAS_NEXT: usize = 1;

/// The distance between the addresses of two neighbouring segments.
pub const STRIDE: usize = 64;

/// State bit of a cell: an element has been written to it.
pub const WRITE: usize = 1;

/// State bit of a cell: its element has been read out.
pub const READ: usize = 2;

/// State bit of a cell: its reader is about to leave, the cell may go with
/// its segment.
pub const DESTROY: usize = 4;

/// Bit of a segment's completion word: the head has moved past the segment.
pub const PASSED: usize = 0x8000_0000;

/// A segment's completion word when every cell's reader has left and the head
/// has moved past it.
pub const COMPLETE: usize = 0xFFFF_FFFF;

/// The most segments a chain can have, so that no two of them share an
/// address.
pub open spec fn max_segments() -> int {
    (usize::MAX / 64) as int
}

/// Bit `j` of `x` is set.
pub open spec fn has_bit(x: usize, j: usize) -> bool {
    x & (1usize << j) != 0
}

/// The address of the segment `k` places after the one at `base`.
pub open spec fn base_at(base: int, k: int) -> int {
    if base + 64 * k >= word_count() {
        base + 64 * k - word_count()
    } else {
        base + 64 * k
    }
}

/// The number of places from the segment at `origin` to the one at `base`.
pub open spec fn places(origin: int, base: int) -> int {
    if base >= origin {
        (base - origin) / 64
    } else {
        (base - origin + word_count()) / 64
    }
}

/// Sixty-four is a stride.
pub proof fn lemma_segment_stride()
    ensures
        is_stride(STRIDE as int),
        64 * max_segments() + 64 == word_count(),
{
    lemma2_to64();
    assert(vstd::arithmetic::power2::pow2(6) == 64);
    lemma_stride(64);
}

/// Setting a bit of a completion word sets that bit and no other, and keeps
/// the word in its range.
proof fn lemma_set_bit(x: usize, j: usize)
    requires
        j < 32,
        x <= 0xFFFF_FFFF,
    ensures
        has_bit(x | (1usize << j), j),
        forall|i: usize| i < 32 && i != j ==> has_bit(x | (1usize << j), i) == #[trigger] has_bit(
            x,
            i,
        ),
        x | (1usize << j) <= 0xFFFF_FFFF,
        x | (1usize << j) == COMPLETE ==> forall|i: usize|
            i < 32 && i != j ==> #[trigger] has_bit(x, i),
        !has_bit(0, j),
        (1usize << 31) == PASSED,
{
    assert(x & (1usize << j) != 0 || (x | (1usize << j)) & (1usize << j) != 0) by (bit_vector)
        requires
            j < 32,
    ;
    assert((x | (1usize << j)) & (1usize << j) != 0) by (bit_vector)
        requires
            j < 32,
    ;
    assert forall|i: usize| i < 32 && i != j implies has_bit(x | (1usize << j), i)
        == #[trigger] has_bit(x, i) by {
        assert(((x | (1usize << j)) & (1usize << i) != 0) == (x & (1usize << i) != 0))
            by (bit_vector)
            requires
                i < 32,
                j < 32,
                i != j,
        ;
    }
    assert(x | (1usize << j) <= 0xFFFF_FFFF) by (bit_vector)
        requires
            j < 32,
            x <= 0xFFFF_FFFF,
    ;
    assert forall|i: usize|
        x | (1usize << j) == COMPLETE && i < 32 && i != j implies #[trigger] has_bit(x, i) by {
        assert(x & (1usize << i) != 0) by (bit_vector)
            requires
                i < 32,
                j < 32,
                i != j,
                x | (1usize << j) == 0xFFFF_FFFFusize,
        ;
    }
    assert(0usize & (1usize << j) == 0) by (bit_vector);
    assert((1usize << 31) == 0x8000_0000usize) by (bit_vector);
}

/// Every bit of a complete completion word is set.
proof fn lemma_complete(j: usize)
    requires
        j < 32,
    ensures
        has_bit(COMPLETE, j),
{
    assert(0xFFFF_FFFFusize & (1usize << j) != 0) by (bit_vector)
        requires
            j < 32,
    ;
}

/// One place for an element.
pub struct Cell<T> {
    value: UnsafeCell<Option<T>>,
    state: AtomicUsize,
}

impl<T> Cell<T> {
    /// An empty cell.
    fn new() -> (cell: Self)
        ensures
            cell.state@ == 0,
            cell.value@ is None,
    {
        Cell { value: UnsafeCell::new(None), state: AtomicUsize::new(0) }
    }

    /// Moves `value` into the cell's storage.
    fn write(&mut self, value: T)
        ensures
            final(self).value@ == Some(value),
            final(self).state@ == old(self).state@,
    {
        let ghost v = value;
        let put = |p: &mut Option<T>|
            ensures
                *final(p) == Some(v),
            { *p = Some(value); };
        self.value.with_mut(put)
    }

    /// Moves the element, if any, out of the cell's storage.
    fn read(&mut self) -> (r: Option<T>)
        ensures
            r == old(self).value@,
            final(self).value@ is None,
            final(self).state@ == old(self).state@,
    {
        let take = |p: &mut Option<T>| -> (r: Option<T>)
            ensures
                r == *old(p),
                *final(p) is None,
            { p.take() };
        self.value.with_mut(take)
    }
}

/// A block of [`BLOCK_CAP`] cells with a link to the block after it.
pub struct Segment<T> {
    cells: Vec<Cell<T>>,
    next: AtomicPtr,
    done: AtomicUsize,
}

impl<T> Segment<T> {
    /// The segment is as the allocator hands it out: all cells empty, no
    /// successor, nobody gone.
    pub closed spec fn is_fresh(&self) -> bool {
        &&& self.cells@.len() == BLOCK_CAP
        &&& self.next@ == NULL
        &&& self.done@ == 0
        &&& forall|j: int|
            0 <= j < BLOCK_CAP ==> (#[trigger] self.cells@[j]).state@ == 0 && self.cells@[j].value@
                is None
    }

    /// A fresh segment, or `None` if the allocator refused.
    pub fn allocate() -> (r: Option<Self>)
        ensures
            r matches Some(s) ==> s.is_fresh(),
    {
        Self::in_storage(reserve::<Cell<T>>(BLOCK_CAP))
    }

    /// Builds a fresh segment in the storage that the allocator gave, or
    /// reports that it gave none.
    pub fn in_storage(storage: Option<Vec<Cell<T>>>) -> (r: Option<Self>)
        requires
            storage matches Some(v) ==> v@.len() == 0,
        ensures
            r is Some <==> storage is Some,
            r matches Some(s) ==> s.is_fresh(),
    {
        let mut cells = match storage {
            Some(v) => v,
            None => { return None; },
        };
        let mut j: usize = 0;
        while j < BLOCK_CAP
            invariant
                j <= BLOCK_CAP,
                cells@.len() == j,
                forall|i: int|
                    0 <= i < j ==> (#[trigger] cells@[i]).state@ == 0 && cells@[i].value@ is None,
            decreases BLOCK_CAP - j,
        {
            cells.push(Cell::new());
            j += 1;
        }
        Some(Segment { cells, next: AtomicPtr::new(NULL), done: AtomicUsize::new(0) })
    }
}

/// How far the reader of a cell is.
pub enum Stage {
    /// No pop is at work on the cell.
    Quiet,
    /// The pop of this owner has claimed the cell and not taken its element.
    Waiting(int),
    /// The pop of this owner has taken the cell's element and not marked the
    /// cell read.
    Taken(int),
    /// The pop of this owner has marked the cell read and not left it.
    Marked(int),
}

impl Stage {
    /// The owner of the pop that is at work on the cell, if one is.
    pub open spec fn owner(self) -> Option<int> {
        match self {
            Stage::Quiet => None,
            Stage::Waiting(who) => Some(who),
            Stage::Taken(who) => Some(who),
            Stage::Marked(who) => Some(who),
        }
    }
}

/// What the proofs keep for one segment of the chain.
pub struct Page<T> {
    /// For each cell, the owner of the push that has claimed it and not
    /// marked it written.
    pub writers: Seq<Option<int>>,
    /// For each cell, how far its reader is.
    pub readers: Seq<Stage>,
    /// The element that each cell has been claimed for.
    pub elements: Seq<T>,
    /// The owner of the pop that has moved the head off this segment and not
    /// recorded it in the completion word.
    pub passing: Option<int>,
}

/// What the proofs keep beside the queue.
pub struct Ledger<T> {
    /// One page for each place in the chain.
    pub pages: Seq<Page<T>>,
    /// The place of the head's segment in the chain; -1 before the head has
    /// come to the first segment.
    pub head_at: int,
    /// The place of the tail's segment in the chain; -1 before the tail has
    /// come to the first segment.
    pub tail_at: int,
    /// How often the tail has moved to a cell.
    pub pushes: nat,
    /// How often the head has moved off a cell.
    pub pops: nat,
    /// How often the head has moved at all: off a cell, or from the end of
    /// a segment to the next.
    pub head_moves: nat,
}

/// What an operation remembers between two steps.
pub enum Op<T> {
    /// No operation.
    Idle,
    /// A push that has not looked at the queue yet.
    Push { value: T },
    /// A push that has loaded the tail.
    PushTail { value: T, tail: usize, seen: Ghost<nat> },
    /// A push that has found the tail at the end of its segment and has
    /// loaded that segment's link: `linked` says that there is a next
    /// segment.
    PushNext { value: T, tail: usize, linked: bool, seen: Ghost<nat> },
    /// A push that has moved the tail and so claimed the cell at `at`.
    PushClaimed { value: T, at: usize },
    /// A push that has written its value to the cell it claimed.
    PushWritten { at: usize, value: Ghost<T> },
    /// A push that is done: its value is in the queue.
    Pushed { value: Ghost<T> },
    /// A push that is done: it needed a new segment and the allocator
    /// refused; the value comes back.
    Failed { value: T },
    /// A pop that has not looked at the queue yet.
    Pop,
    /// A pop that has loaded the head.
    PopHead { head: usize, seen: Ghost<nat>, popped: Ghost<nat> },
    /// A pop that has loaded the head and knows that the tail was further
    /// on; with `mark`, that it was in a later segment.
    PopReady { head: usize, mark: bool, seen: Ghost<nat> },
    /// A pop that has moved the head from the end of the segment at `left`
    /// to the next segment.
    PopPassed { left: usize },
    /// A pop that has moved the head and so claimed the cell at `at`.
    PopClaimed { at: usize, element: Ghost<T> },
    /// A pop that has read the element out of the cell it claimed.
    PopTaken { at: usize, taken: T, element: Ghost<T> },
    /// A pop that has marked its cell read.
    PopMarked { at: usize, taken: T, element: Ghost<T> },
    /// A pop that is done, with what it returns.
    Popped { result: Option<T> },
}

impl<T> Op<T> {
    /// The operation is a push of `v`.
    pub open spec fn pushes(self, v: T) -> bool {
        match self {
            Op::Push { value } => value == v,
            Op::PushTail { value, .. } => value == v,
            Op::PushNext { value, .. } => value == v,
            Op::PushClaimed { value, .. } => value == v,
            Op::PushWritten { value, .. } => value@ == v,
            Op::Pushed { value } => value@ == v,
            Op::Failed { value } => value == v,
            _ => false,
        }
    }

    /// The operation is a push that has not claimed a cell yet.
    pub open spec fn pushes_still(self) -> bool {
        self is Push || self is PushTail || self is PushNext
    }

    /// The operation is a pop.
    pub open spec fn pops(self) -> bool {
        self is Pop || self is PopHead || self is PopReady || self is PopPassed
            || self is PopClaimed || self is PopTaken || self is PopMarked || self is Popped
    }

    /// The operation has made its last step.
    pub open spec fn is_done(self) -> bool {
        self is Pushed || self is Failed || self is Popped
    }

    /// The calls that the operation has taken effect as, so far: none before
    /// the step in which it takes effect, one from then on.
    pub open spec fn calls(self) -> Seq<Call<T>> {
        match self {
            Op::PushClaimed { value, .. } => seq![Call::Push { value, accepted: true }],
            Op::PushWritten { value, .. } => seq![Call::Push { value: value@, accepted: true }],
            Op::Pushed { value } => seq![Call::Push { value: value@, accepted: true }],
            Op::Failed { value } => seq![Call::Push { value, accepted: false }],
            Op::PopClaimed { element, .. } => seq![Call::Pop { taken: Some(element@) }],
            Op::PopTaken { element, .. } => seq![Call::Pop { taken: Some(element@) }],
            Op::PopMarked { element, .. } => seq![Call::Pop { taken: Some(element@) }],
            Op::Popped { result } => seq![Call::Pop { taken: result }],
            _ => Seq::empty(),
        }
    }
}

/// A queue without a bound on its length.
pub struct UnboundedSegmentQueue<T> {
    head: AtomicUsize,
    tail: AtomicUsize,
    /// The link of the segment that does not exist: the address of the first
    /// segment, once there is one.
    first: AtomicPtr,
    /// The segments from the oldest that is not freed to the newest; a
    /// segment that is freed before an older one leaves a gap.
    chain: Vec<Option<Segment<T>>>,
    /// The address of the segment at the front of the chain.
    origin: usize,
    ledger: Ghost<Ledger<T>>,
}

/// The word at which head and tail stand before the first push: the end of
/// the segment before address zero.
pub const START: usize = usize::MAX - 1;

impl<T> View for UnboundedSegmentQueue<T> {
    type V = Seq<T>;

    /// The elements in the queue, oldest first. An element is in the queue
    /// from the step in which its push moves the tail to the step in which a
    /// pop moves the head past it.
    closed spec fn view(&self) -> Seq<T> {
        Seq::new(self.count() as nat, |n: int| self.item(n))
    }
}

impl<T> UnboundedSegmentQueue<T> {
    /// The number of places in the chain.
    spec fn n(&self) -> int {
        self.chain@.len() as int
    }

    spec fn hk(&self) -> int {
        self.ledger@.head_at
    }

    spec fn tk(&self) -> int {
        self.ledger@.tail_at
    }

    /// The index of the cell that the head is at.
    spec fn hi(&self) -> int {
        word_index(self.head@, STRIDE) / 2
    }

    /// Whether the head carries [`HAS_NEXT`].
    spec fn hflag(&self) -> bool {
        word_index(self.head@, STRIDE) % 2 == 1
    }

    /// The index of the cell that the tail is at.
    spec fn ti(&self) -> int {
        word_index(self.tail@, STRIDE) / 2
    }

    /// The address of the segment at place `k` of the chain.
    spec fn address(&self, k: int) -> int {
        if k == -1 {
            prev_lap(self.origin as int, 64)
        } else {
            base_at(self.origin as int, k)
        }
    }

    /// The place in the chain of the segment at address `base`.
    spec fn place(&self, base: int) -> int {
        places(self.origin as int, base)
    }

    /// The number of cells before cell `j` of the segment at place `k`.
    spec fn pos(k: int, j: int) -> int {
        31 * k + j
    }

    spec fn head_pos(&self) -> int {
        Self::pos(self.hk(), self.hi())
    }

    spec fn tail_pos(&self) -> int {
        Self::pos(self.tk(), self.ti())
    }

    spec fn count(&self) -> int {
        self.tail_pos() - self.head_pos()
    }

    /// The `n`-th oldest element.
    spec fn item(&self, n: int) -> T {
        self.ledger@.pages[(self.head_pos() + n) / 31].elements[(self.head_pos() + n) % 31]
    }

    spec fn writer(&self, k: int, j: int) -> Option<int> {
        self.ledger@.pages[k].writers[j]
    }

    spec fn reader(&self, k: int, j: int) -> Stage {
        self.ledger@.pages[k].readers[j]
    }

    spec fn passing(&self, k: int) -> Option<int> {
        self.ledger@.pages[k].passing
    }

    spec fn element(&self, k: int, j: int) -> T {
        self.ledger@.pages[k].elements[j]
    }

    spec fn cell_ok(&self, k: int, j: int) -> bool {
        let segment = self.chain@[k]->0;
        let state = segment.cells@[j].state@;
        let value = segment.cells@[j].value@;
        let left = has_bit(segment.done@, j as usize);
        let pushed = Self::pos(k, j) < self.tail_pos();
        let popped = Self::pos(k, j) < self.head_pos();
        &&& self.reader(k, j) != Stage::Quiet ==> popped
        &&& if self.writer(k, j) is Some {
            &&& pushed
            &&& state == 0
            &&& !left
            &&& if popped {
                self.reader(k, j) is Waiting
            } else {
                self.reader(k, j) == Stage::Quiet
            }
        } else if !pushed {
            &&& state == 0
            &&& value is None
            &&& !left
            &&& self.reader(k, j) == Stage::Quiet
        } else {
            match self.reader(k, j) {
                Stage::Quiet => if popped {
                    state == 7 && value is None && left
                } else {
                    state == WRITE && value == Some(self.element(k, j)) && !left
                },
                Stage::Waiting(_) => state == WRITE && value == Some(self.element(k, j)) && !left,
                Stage::Taken(_) => state == WRITE && value is None && !left,
                Stage::Marked(_) => state == 7 && value is None && !left,
            }
        }
    }

    spec fn page_ok(&self, k: int) -> bool {
        let page = self.ledger@.pages[k];
        &&& page.writers.len() == BLOCK_CAP
        &&& page.readers.len() == BLOCK_CAP
        &&& page.elements.len() == BLOCK_CAP
        &&& page.passing is Some ==> k < self.hk()
        &&& match self.chain@[k] {
            None => {
                &&& k < self.hk()
                &&& page.passing is None
                &&& forall|j: int|
                    0 <= j < BLOCK_CAP ==> (#[trigger] page.writers[j]) is None && page.readers[j]
                        == Stage::Quiet
            },
            Some(segment) => {
                &&& segment.cells@.len() == BLOCK_CAP
                &&& segment.next@ == (if k + 1 < self.n() {
                    self.address(k + 1)
                } else {
                    NULL as int
                })
                &&& segment.done@ <= COMPLETE
                &&& has_bit(segment.done@, 31) == (k < self.hk() && page.passing is None)
                &&& forall|j: int| 0 <= j < BLOCK_CAP ==> #[trigger] self.cell_ok(k, j)
            },
        }
    }

    /// The invariant of the chain, which every step keeps: head and tail are
    /// in range and in order, the links follow the chain, and every cell's
    /// state bits and storage fit what has been done to it.
    pub closed spec fn inv(&self) -> bool {
        &&& self.n() <= max_segments()
        &&& self.ledger@.pages.len() == self.n()
        &&& aligned(self.origin as int, 64)
        &&& -1 <= self.hk() <= self.tk() <= self.n() - 1 <= self.tk() + 1
        &&& word_lap(self.head@, STRIDE) == self.address(self.hk())
        &&& word_lap(self.tail@, STRIDE) == self.address(self.tk())
        &&& word_index(self.tail@, STRIDE) % 2 == 0
        &&& self.hi() <= BLOCK_CAP
        &&& 1 <= self.ti() <= BLOCK_CAP
        &&& (self.hk() == -1 ==> self.hi() == BLOCK_CAP && self.origin == 0)
        &&& (self.tk() == -1 ==> self.ti() == BLOCK_CAP)
        &&& self.head_pos() <= self.tail_pos()
        &&& (self.hflag() ==> self.hk() < self.tk())
        &&& self.ledger@.pushes == self.ledger@.pops + self.count()
        &&& (self.first@ == NULL <==> self.n() == 0)
        &&& forall|k: int| 0 <= k < self.n() ==> #[trigger] self.page_ok(k)
    }

    /// No operation is under way: nobody is at work on a cell or a segment.
    pub closed spec fn settled(&self) -> bool {
        &&& forall|k: int, j: int|
            0 <= k < self.n() && 0 <= j < BLOCK_CAP ==> (#[trigger] self.writer(k, j)) is None
        &&& forall|k: int, j: int|
            0 <= k < self.n() && 0 <= j < BLOCK_CAP ==> (#[trigger] self.reader(k, j))
                == Stage::Quiet
        &&& forall|k: int| 0 <= k < self.n() ==> (#[trigger] self.passing(k)) is None
    }

    /// The invariant of the chain between operations.
    pub open spec fn wf(&self) -> bool {
        self.inv() && self.settled()
    }

    /// The chain has a segment behind the tail's segment, to which the tail
    /// has not moved yet.
    pub closed spec fn spare(&self) -> bool {
        self.n() - 1 == self.tk() + 1
    }

    /// The tail is at the end of its segment, or where the queue starts:
    /// the next push goes to another segment.
    pub closed spec fn at_end(&self) -> bool {
        self.ti() == BLOCK_CAP
    }

    /// The chain can take one more segment without two segments sharing an
    /// address.
    pub closed spec fn can_grow(&self) -> bool {
        self.n() < max_segments()
    }

    /// What the positions hold, spelled out.
    proof fn lemma_positions(&self)
        requires
            self.inv(),
        ensures
            is_stride(STRIDE as int),
            64 * max_segments() + 64 == word_count(),
            self.head@ == self.address(self.hk()) + 2 * self.hi() + (if self.hflag() {
                1int
            } else {
                0int
            }),
            self.tail@ == self.address(self.tk()) + 2 * self.ti(),
            0 <= self.hi() <= 31,
            0 <= self.ti() <= 31,
            0 <= self.n() <= max_segments(),
            0 <= self.origin <= word_count() - 64,
            aligned(self.origin as int, 64),
            aligned(self.address(self.hk()), 64),
            aligned(self.address(self.tk()), 64),
            0 <= self.address(self.hk()) <= word_count() - 64,
            0 <= self.address(self.tk()) <= word_count() - 64,
            prev_lap(self.origin as int, 64) == (if self.origin == 0 {
                word_count() - 64
            } else {
                self.origin - 64
            }),
            0 <= self.count(),
            self@.len() == self.count(),
    {
        lemma_segment_stride();
        lemma_split(self.head@, STRIDE);
        lemma_split(self.tail@, STRIDE);
        lemma_prev_lap(self.origin as int, 64);
        crate::position::lemma_aligned_below(self.origin as int, word_count(), 64);
    }

    /// A new, empty queue. No segment is allocated before the first push.
    pub fn new() -> (q: Self)
        ensures
            q.wf(),
            q@ == Seq::<T>::empty(),
    {
        let ghost ledger = Ledger::<T> {
            pages: Seq::empty(),
            head_at: -1,
            tail_at: -1,
            pushes: 0,
            pops: 0,
            head_moves: 0,
        };
        let q = UnboundedSegmentQueue {
            head: AtomicUsize::new(START),
            tail: AtomicUsize::new(START),
            first: AtomicPtr::new(NULL),
            chain: Vec::new(),
            origin: 0,
            ledger: Ghost(ledger),
        };
        proof {
            lemma_segment_stride();
            lemma_mod_multiples_basic(0, 64);
            lemma_prev_lap(0, 64);
            lemma_join(word_count() - 64, 62, STRIDE);
            assert(q@ =~= Seq::<T>::empty());
        }
        q
    }

    /// The number of elements in the queue.
    pub fn len(&self) -> (n: usize)
        requires
            self.inv(),
        ensures
            n == self@.len(),
    {
        loop
            invariant
                self.inv(),
            decreases 0nat,
        {
            let tail = self.tail.load(MemOrder::SeqCst);
            let head = self.head.load(MemOrder::SeqCst);
            // The two positions belong together if the tail has not moved
            // meanwhile; if it has, look again.
            if self.tail.load(MemOrder::SeqCst) == tail {
                proof {
                    self.lemma_positions();
                }
                let head_field = index_of(head, STRIDE);
                let tail_field = index_of(tail, STRIDE);
                proof {
                    assert(head_field >> 1 == head_field / 2) by (bit_vector);
                    assert(tail_field >> 1 == tail_field / 2) by (bit_vector);
                }
                let head_offset = head_field >> SHIFT;
                let tail_offset = tail_field >> SHIFT;
                // The number of segment borders between the two positions.
                let span = lap_of(tail, STRIDE).wrapping_sub(lap_of(head, STRIDE)) / STRIDE;
                return span * BLOCK_CAP + tail_offset - head_offset;
            }
        }
    }

    /// Whether the queue holds no element.
    pub fn is_empty(&self) -> (b: bool)
        requires
            self.inv(),
        ensures
            b <==> self@.len() == 0,
    {
        let head = self.head.load(MemOrder::SeqCst);
        let tail = self.tail.load(MemOrder::SeqCst);
        proof {
            self.lemma_positions();
            assert(head >> 1 == head / 2) by (bit_vector);
            assert(tail >> 1 == tail / 2) by (bit_vector);
        }
        head >> SHIFT == tail >> SHIFT
    }

    /// The place in the chain of the segment at address `base`, if the chain
    /// holds one there.
    fn find(&self, base: usize) -> (r: Option<usize>)
        requires
            self.inv(),
            aligned(base as int, 64),
        ensures
            r matches Some(k) ==> k == self.place(base as int) && k < self.n() && self.chain@[k as int]
                is Some && base == self.address(k as int),
            r is None ==> !(0 <= self.place(base as int) < self.n()) || self.chain@[self.place(
                base as int,
            )] is None,
    {
        proof {
            self.lemma_positions();
            Self::lemma_place(self.origin as int, base as int);
        }
        let k = base.wrapping_sub(self.origin) / STRIDE;
        if k < self.chain.len() {
            if self.chain[k].is_some() {
                Some(k)
            } else {
                None
            }
        } else {
            None
        }
    }

    /// An address is that of its place.
    proof fn lemma_place(origin: int, base: int)
        requires
            aligned(origin, 64),
            aligned(base, 64),
            0 <= origin <= usize::MAX,
            0 <= base <= usize::MAX,
        ensures
            0 <= places(origin, base) <= max_segments(),
            base_at(origin, places(origin, base)) == base,
            places(origin, base) == (if base >= origin {
                base - origin
            } else {
                base - origin + word_count()
            }) / 64,
            64 * places(origin, base) == (if base >= origin {
                base - origin
            } else {
                base - origin + word_count()
            }),
    {
        lemma_segment_stride();
        let d = if base >= origin {
            base - origin
        } else {
            base - origin + word_count()
        };
        vstd::arithmetic::div_mod::lemma_fundamental_div_mod(base, 64);
        vstd::arithmetic::div_mod::lemma_fundamental_div_mod(origin, 64);
        let q = if base >= origin {
            base / 64 - origin / 64
        } else {
            base / 64 - origin / 64 + max_segments() + 1
        };
        assert(d == q * 64 + 0);
        vstd::arithmetic::div_mod::lemma_fundamental_div_mod_converse(d, 64, q, 0);
        assert(places(origin, base) == q);
    }

    /// The place of the segment of the cell at the position `at`.
    spec fn at_place(&self, at: usize) -> int {
        self.place(word_lap(at, STRIDE))
    }

    /// The index of the cell at the position `at`.
    spec fn at_index(at: usize) -> int {
        word_index(at, STRIDE) / 2
    }

    /// Of the cells, the owner `who` is at work on none but cell `j` of the
    /// segment at place `k`; of the segments, it is recording the head's
    /// passing of none but the one at place `p`.
    spec fn owns_only(&self, who: int, k: int, j: int, p: int) -> bool {
        &&& forall|a: int, b: int|
            0 <= a < self.n() && 0 <= b < BLOCK_CAP && !(a == k && b == j) ==> (
            #[trigger] self.writer(a, b)) != Some(who)
        &&& forall|a: int, b: int|
            0 <= a < self.n() && 0 <= b < BLOCK_CAP && !(a == k && b == j) ==> (
            #[trigger] self.reader(a, b)).owner() != Some(who)
        &&& forall|a: int| 0 <= a < self.n() && a != p ==> (#[trigger] self.passing(a)) != Some(who)
    }

    /// The owner `who` is at work on nothing.
    spec fn owns_nothing(&self, who: int) -> bool {
        self.owns_only(who, -2, -2, -2)
    }

    /// The position `at` is one of a cell of a segment that the chain holds.
    spec fn holds(&self, at: usize) -> bool {
        &&& 0 <= self.at_place(at) < self.n()
        &&& self.chain@[self.at_place(at)] is Some
        &&& 0 <= Self::at_index(at) < BLOCK_CAP
        &&& word_index(at, STRIDE) % 2 == 0
        &&& word_lap(at, STRIDE) == self.address(self.at_place(at))
    }

    /// What the operation `op` of owner `who` relies on between its steps.
    /// Before its claim it is at work on nothing, and what it has loaded is
    /// still true as long as the counter that it loaded has not moved. After
    /// its claim exactly one cell is in its hands.
    spec fn op_ok(&self, who: int, op: Op<T>) -> bool {
        let ledger = self.ledger@;
        match op {
            Op::PushTail { value, tail, seen } => {
                &&& self.owns_nothing(who)
                &&& word_index(tail, STRIDE) % 2 == 0
                &&& 1 <= word_index(tail, STRIDE) / 2 <= BLOCK_CAP
                &&& seen@ <= ledger.pushes
                &&& (seen@ == ledger.pushes ==> tail == self.tail@)
            },
            Op::PushNext { value, tail, linked, seen } => {
                &&& self.owns_nothing(who)
                &&& word_index(tail, STRIDE) == 2 * BLOCK_CAP
                &&& seen@ <= ledger.pushes
                &&& (seen@ == ledger.pushes ==> tail == self.tail@)
                &&& (seen@ == ledger.pushes && linked ==> self.n() - 1 == self.tk() + 1)
            },
            Op::PushClaimed { value, at } => {
                &&& self.holds(at)
                &&& self.owns_only(who, self.at_place(at), Self::at_index(at), -2)
                &&& self.writer(self.at_place(at), Self::at_index(at)) == Some(who)
                &&& self.reader(self.at_place(at), Self::at_index(at)).owner() != Some(who)
                &&& self.element(self.at_place(at), Self::at_index(at)) == value
            },
            Op::PushWritten { at, value } => {
                &&& self.holds(at)
                &&& self.owns_only(who, self.at_place(at), Self::at_index(at), -2)
                &&& self.writer(self.at_place(at), Self::at_index(at)) == Some(who)
                &&& self.reader(self.at_place(at), Self::at_index(at)).owner() != Some(who)
                &&& self.element(self.at_place(at), Self::at_index(at)) == value@
                &&& (self.chain@[self.at_place(at)]->0).cells@[Self::at_index(at)].value@ == Some(
                    value@,
                )
            },
            Op::PopHead { head, seen, popped } => {
                &&& self.owns_nothing(who)
                &&& word_index(head, STRIDE) / 2 <= BLOCK_CAP
                &&& seen@ <= ledger.head_moves
                &&& popped@ <= ledger.pops
                &&& (seen@ == ledger.head_moves ==> head == self.head@ && popped@ == ledger.pops)
            },
            Op::PopReady { head, mark, seen } => {
                &&& self.owns_nothing(who)
                &&& word_index(head, STRIDE) / 2 <= BLOCK_CAP
                &&& seen@ <= ledger.head_moves
                &&& (seen@ == ledger.head_moves ==> head == self.head@)
                &&& (seen@ == ledger.head_moves ==> ledger.pushes > ledger.pops)
                &&& (seen@ == ledger.head_moves && mark ==> self.hk() < self.tk())
            },
            Op::PopPassed { left } => {
                &&& aligned(left as int, 64)
                &&& 0 <= self.place(left as int) < self.n()
                &&& left == self.address(self.place(left as int))
                &&& self.chain@[self.place(left as int)] is Some
                &&& self.owns_only(who, -2, -2, self.place(left as int))
                &&& self.passing(self.place(left as int)) == Some(who)
            },
            Op::PopClaimed { at, element } => {
                &&& self.holds(at)
                &&& self.owns_only(who, self.at_place(at), Self::at_index(at), -2)
                &&& self.writer(self.at_place(at), Self::at_index(at)) != Some(who)
                &&& self.reader(self.at_place(at), Self::at_index(at)) == Stage::Waiting(who)
                &&& self.element(self.at_place(at), Self::at_index(at)) == element@
            },
            Op::PopTaken { at, taken, element } => {
                &&& self.holds(at)
                &&& self.owns_only(who, self.at_place(at), Self::at_index(at), -2)
                &&& self.writer(self.at_place(at), Self::at_index(at)) != Some(who)
                &&& self.reader(self.at_place(at), Self::at_index(at)) == Stage::Taken(who)
                &&& taken == element@
            },
            Op::PopMarked { at, taken, element } => {
                &&& self.holds(at)
                &&& self.owns_only(who, self.at_place(at), Self::at_index(at), -2)
                &&& self.writer(self.at_place(at), Self::at_index(at)) != Some(who)
                &&& self.reader(self.at_place(at), Self::at_index(at)) == Stage::Marked(who)
                &&& taken == element@
            },
            _ => self.owns_nothing(who),
        }
    }

    /// The position words are long enough for `op`: where a word that the
    /// operation loaded earlier equals a position now, or is the address of
    /// the newest segment now, the position has not gone round the whole
    /// word in between.
    spec fn fresh(&self, op: Op<T>) -> bool {
        let ledger = self.ledger@;
        match op {
            Op::PushTail { value, tail, seen } => self.tail@ == tail ==> seen@ == ledger.pushes,
            Op::PushNext { value, tail, linked, seen } => {
                &&& self.tail@ == tail ==> seen@ == ledger.pushes
                &&& !linked && word_lap(tail, STRIDE) == self.address(self.n() - 1) ==> seen@
                    == ledger.pushes
            },
            Op::PopHead { head, seen, popped } => self.tail@ / 2 == head / 2 ==> popped@
                == ledger.pushes,
            Op::PopReady { head, mark, seen } => self.head@ == head ==> seen@
                == ledger.head_moves,
            _ => true,
        }
    }

    /// The link that leads on from the segment at address `base`: the link
    /// of that segment if the chain holds it, the queue's own link if
    /// `base` is where the queue starts.
    spec fn link_of(&self, base: int) -> Option<usize> {
        if 0 <= self.place(base) < self.n() && self.chain@[self.place(base)] is Some {
            Some((self.chain@[self.place(base)]->0).next@)
        } else if base == word_count() - 64 {
            Some(self.first@)
        } else {
            None
        }
    }

    /// What `op` is after its next step on this queue. `supplied` says
    /// whether the step has a fresh segment at hand.
    spec fn stepped(&self, op: Op<T>, supplied: bool) -> Op<T> {
        let ledger = self.ledger@;
        match op {
            Op::Push { value } => Op::PushTail { value, tail: self.tail@, seen: Ghost(ledger.pushes) },
            Op::PushTail { value, tail, seen } => if word_index(tail, STRIDE) / 2 < BLOCK_CAP {
                if self.tail@ == tail {
                    Op::PushClaimed { value, at: tail }
                } else {
                    Op::PushTail { value, tail: self.tail@, seen: Ghost(ledger.pushes) }
                }
            } else {
                match self.link_of(word_lap(tail, STRIDE)) {
                    Some(next) => Op::PushNext { value, tail, linked: next != NULL, seen },
                    None => Op::Push { value },
                }
            },
            Op::PushNext { value, tail, linked, seen } => if linked {
                if self.tail@ == tail {
                    Op::PushClaimed {
                        value,
                        at: next_lap(word_lap(tail, STRIDE), 64) as usize,
                    }
                } else {
                    Op::PushTail { value, tail: self.tail@, seen: Ghost(ledger.pushes) }
                }
            } else {
                match self.link_of(word_lap(tail, STRIDE)) {
                    Some(next) => if next == NULL && (!supplied || self.n()
                        >= max_segments()) {
                        Op::Failed { value }
                    } else {
                        Op::PushNext { value, tail, linked: true, seen }
                    },
                    None => Op::Push { value },
                }
            },
            Op::PushClaimed { value, at } => Op::PushWritten { at, value: Ghost(value) },
            Op::PushWritten { at, value } => Op::Pushed { value },
            Op::Pop => Op::PopHead {
                head: self.head@,
                seen: Ghost(ledger.head_moves),
                popped: Ghost(ledger.pops),
            },
            Op::PopHead { head, seen, popped } => if word_index(head, STRIDE) % 2 == 1 {
                Op::PopReady { head, mark: false, seen }
            } else if self.tail@ / 2 == head / 2 {
                Op::Popped { result: None }
            } else {
                Op::PopReady {
                    head,
                    mark: word_lap(head, STRIDE) != word_lap(self.tail@, STRIDE),
                    seen,
                }
            },
            Op::PopReady { head, mark, seen } => if self.head@ != head {
                Op::PopHead {
                    head: self.head@,
                    seen: Ghost(ledger.head_moves),
                    popped: Ghost(ledger.pops),
                }
            } else if word_index(head, STRIDE) / 2 < BLOCK_CAP {
                Op::PopClaimed {
                    at: (head - head % 2) as usize,
                    element: Ghost(self.element(self.hk(), self.hi())),
                }
            } else if self.hk() >= 0 {
                Op::PopPassed { left: word_lap(head, STRIDE) as usize }
            } else {
                Op::Pop
            },
            Op::PopPassed { left } => Op::Pop,
            Op::PopClaimed { at, element } => if self.writer(
                self.at_place(at),
                Self::at_index(at),
            ) is Some {
                Op::PopClaimed { at, element }
            } else {
                Op::PopTaken { at, taken: element@, element }
            },
            Op::PopTaken { at, taken, element } => Op::PopMarked { at, taken, element },
            Op::PopMarked { at, taken, element } => Op::Popped { result: Some(taken) },
            done => done,
        }
    }

    /// Every owner that is at work on a cell or a segment is one of `crowd`.
    spec fn quiet_but(&self, crowd: spec_fn(int) -> bool) -> bool {
        &&& forall|k: int, j: int|
            0 <= k < self.n() && 0 <= j < BLOCK_CAP ==> ((#[trigger] self.writer(k, j)) matches Some(
                w,
            ) ==> crowd(w))
        &&& forall|k: int, j: int|
            0 <= k < self.n() && 0 <= j < BLOCK_CAP ==> ((#[trigger] self.reader(
                k,
                j,
            )).owner() matches Some(w) ==> crowd(w))
        &&& forall|k: int| 0 <= k < self.n() ==> ((#[trigger] self.passing(k)) matches Some(w)
            ==> crowd(w))
    }

    /// The two queues hold the same positions, segments and ledger.
    spec fn same_as(&self, pre: Self) -> bool {
        &&& self.head@ == pre.head@
        &&& self.tail@ == pre.tail@
        &&& self.first@ == pre.first@
        &&& self.chain@ == pre.chain@
        &&& self.origin == pre.origin
        &&& self.ledger@ == pre.ledger@
    }

    /// What one step of `op`, owned by `who`, makes of the queue `pre`: the
    /// queue `post` and the operation `next`.
    spec fn step_post(pre: Self, post: Self, who: int, op: Op<T>, supplied: bool, next: Op<T>)
        -> bool {
        &&& post.inv()
        &&& next == pre.stepped(op, supplied)
        &&& post.op_ok(who, next)
        // What every other operation relies on still holds, and nobody is
        // newly at work but `who`.
        &&& post.leaves_others(pre, who)
        // The queue's contents change in the step in which the operation
        // takes effect, as that call says, and in no other.
        &&& if next.calls() == op.calls() {
            post@ == pre@
        } else {
            &&& next.calls() == op.calls().push(next.calls().last())
            &&& step(pre@, next.calls().last(), post@)
        }
        // The counts move when a cell is claimed, and only then.
        &&& post.ledger@.pushes == pre.ledger@.pushes + (if next is PushClaimed && !(op
            is PushClaimed) {
            1nat
        } else {
            0nat
        })
        &&& post.ledger@.pops == pre.ledger@.pops + (if next is PopClaimed && op is PopReady {
            1nat
        } else {
            0nat
        })
        &&& post.ledger@.head_moves == pre.ledger@.head_moves + (if op is PopReady && (next
            is PopClaimed || next is PopPassed || next is Pop) {
            1nat
        } else {
            0nat
        })
        // The positions move with the counts, and only then.
        &&& (post.ledger@.pushes == pre.ledger@.pushes ==> post.tail@ == pre.tail@)
        &&& (post.ledger@.head_moves == pre.ledger@.head_moves ==> post.head@ == pre.head@)
        &&& (op is PopReady && (next is PopPassed || next is Pop) ==> post.hi() == 0)
        // A segment is spare from the step that links it to the step that
        // moves the tail to it.
        &&& post.spare() == (match op {
            Op::PushNext { linked, tail, .. } => if next is PushNext {
                !linked && pre.link_of(word_lap(tail, STRIDE)) == Some(NULL) || pre.spare()
            } else if next is PushClaimed {
                false
            } else {
                pre.spare()
            },
            _ => pre.spare(),
        })
        &&& (op.pushes_still() && post.spare() == pre.spare() ==> post.can_grow()
            == pre.can_grow())
        &&& (op.pushes_still() && next.pushes_still() ==> post.at_end() == pre.at_end())
    }

    /// In `self`, the owner `w` is at work on the cell `(a, b)` as it was in
    /// `pre`, and what it is at work on is as it left it.
    spec fn cell_kept(&self, pre: Self, w: int, a: int, b: int) -> bool {
        &&& self.writer(a, b) == Some(w) <==> pre.writer(a, b) == Some(w)
        &&& self.reader(a, b).owner() == Some(w) <==> pre.reader(a, b).owner() == Some(w)
        &&& pre.reader(a, b).owner() == Some(w) ==> self.reader(a, b) == pre.reader(a, b)
        &&& pre.writer(a, b) == Some(w) || pre.reader(a, b).owner() == Some(w) ==> {
            &&& self.chain@[a] is Some
            &&& self.element(a, b) == pre.element(a, b)
            &&& pre.writer(a, b) == Some(w) ==> (self.chain@[a]->0).cells@[b].value@ == (
            pre.chain@[a]->0).cells@[b].value@
        }
    }

    /// In `self`, the owner `w` is recording the passing of the segment at
    /// place `a` if and only if it was in `pre`.
    spec fn pass_kept(&self, pre: Self, w: int, a: int) -> bool {
        &&& self.passing(a) == Some(w) <==> pre.passing(a) == Some(w)
        &&& pre.passing(a) == Some(w) ==> self.chain@[a] is Some
    }

    /// Between `pre` and `self`, nothing has been done to what the owner `w`
    /// is at work on, the chain has not moved, and the counters have only
    /// moved on.
    #[verifier::opaque]
    spec fn undisturbed(&self, pre: Self, w: int) -> bool {
        &&& self.origin == pre.origin
        &&& self.n() >= pre.n()
        &&& forall|a: int, b: int|
            0 <= a < pre.n() && 0 <= b < BLOCK_CAP ==> #[trigger] self.cell_kept(pre, w, a, b)
        &&& forall|a: int| 0 <= a < pre.n() ==> #[trigger] self.pass_kept(pre, w, a)
        &&& forall|a: int, b: int|
            pre.n() <= a < self.n() && 0 <= b < BLOCK_CAP ==> (#[trigger] self.writer(a, b))
                != Some(w)
        &&& forall|a: int, b: int|
            pre.n() <= a < self.n() && 0 <= b < BLOCK_CAP ==> (#[trigger] self.reader(
                a,
                b,
            )).owner() != Some(w)
        &&& forall|a: int| pre.n() <= a < self.n() ==> (#[trigger] self.passing(a)) != Some(w)
        &&& pre.ledger@.pushes <= self.ledger@.pushes
        &&& pre.ledger@.pops <= self.ledger@.pops
        &&& self.ledger@.pushes == pre.ledger@.pushes ==> {
            &&& self.tail@ == pre.tail@
            &&& self.tk() == pre.tk()
            &&& pre.n() - 1 == pre.tk() + 1 ==> self.n() - 1 == self.tk() + 1
        }
        &&& pre.ledger@.head_moves <= self.ledger@.head_moves
        &&& self.ledger@.head_moves == pre.ledger@.head_moves ==> {
            &&& self.head@ == pre.head@
            &&& self.hk() == pre.hk()
            &&& self.tk() >= pre.tk()
            &&& self.ledger@.pops == pre.ledger@.pops
        }
    }

    /// An operation that has not been disturbed can still rely on what it
    /// relied on.
    #[verifier::rlimit(60)]
    proof fn lemma_op_kept(&self, pre: Self, w: int, o: Op<T>)
        requires
            pre.op_ok(w, o),
            self.undisturbed(pre, w),
        ensures
            self.op_ok(w, o),
    {
        reveal(UnboundedSegmentQueue::undisturbed);
        assert forall|own_k: int, own_j: int, own_p: int| #[trigger]
            pre.owns_only(w, own_k, own_j, own_p) implies self.owns_only(w, own_k, own_j, own_p) by {
            assert forall|a: int, b: int|
                0 <= a < self.n() && 0 <= b < BLOCK_CAP && !(a == own_k && b == own_j) implies (
            #[trigger] self.writer(a, b)) != Some(w) by {
                if a < pre.n() {
                    assert(self.cell_kept(pre, w, a, b));
                    assert(pre.writer(a, b) != Some(w));
                }
            }
            assert forall|a: int, b: int|
                0 <= a < self.n() && 0 <= b < BLOCK_CAP && !(a == own_k && b == own_j) implies (
            #[trigger] self.reader(a, b)).owner() != Some(w) by {
                if a < pre.n() {
                    assert(self.cell_kept(pre, w, a, b));
                    assert(pre.reader(a, b).owner() != Some(w));
                }
            }
            assert forall|a: int| 0 <= a < self.n() && a != own_p implies (#[trigger] self.passing(
                a,
            )) != Some(w) by {
                if a < pre.n() {
                    assert(self.pass_kept(pre, w, a));
                    assert(pre.passing(a) != Some(w));
                }
            }
        }
        match o {
            Op::PushClaimed { at, .. } => {
                assert(self.cell_kept(pre, w, pre.at_place(at), Self::at_index(at)));
            },
            Op::PushWritten { at, .. } => {
                assert(self.cell_kept(pre, w, pre.at_place(at), Self::at_index(at)));
            },
            Op::PopClaimed { at, .. } => {
                assert(self.cell_kept(pre, w, pre.at_place(at), Self::at_index(at)));
            },
            Op::PopTaken { at, .. } => {
                assert(self.cell_kept(pre, w, pre.at_place(at), Self::at_index(at)));
            },
            Op::PopMarked { at, .. } => {
                assert(self.cell_kept(pre, w, pre.at_place(at), Self::at_index(at)));
            },
            Op::PopPassed { left } => {
                assert(self.pass_kept(pre, w, pre.place(left as int)));
            },
            _ => {},
        }
    }

    /// Whoever is at work in `self` was at work there in `pre`, or is `who`.
    #[verifier::opaque]
    spec fn joined_by(&self, pre: Self, who: int) -> bool {
        &&& forall|a: int, b: int|
            0 <= a < self.n() && 0 <= b < BLOCK_CAP ==> ((#[trigger] self.writer(a, b)) matches Some(
                x,
            ) ==> x == who || (a < pre.n() && pre.writer(a, b) == Some(x)))
        &&& forall|a: int, b: int|
            0 <= a < self.n() && 0 <= b < BLOCK_CAP ==> ((#[trigger] self.reader(
                a,
                b,
            )).owner() matches Some(x) ==> x == who || (a < pre.n() && pre.reader(a, b).owner()
                == Some(x)))
        &&& forall|a: int|
            0 <= a < self.n() ==> ((#[trigger] self.passing(a)) matches Some(x) ==> x == who || (a
                < pre.n() && pre.passing(a) == Some(x)))
    }

    /// Where nobody but `who` has joined, nobody outside a crowd with `who`
    /// in it is at work.
    proof fn lemma_crowd_kept(&self, pre: Self, who: int)
        requires
            self.joined_by(pre, who),
        ensures
            forall|crowd: spec_fn(int) -> bool|
                crowd(who) && #[trigger] pre.quiet_but(crowd) ==> self.quiet_but(crowd),
    {
        reveal(UnboundedSegmentQueue::joined_by);
        assert forall|crowd: spec_fn(int) -> bool|
            crowd(who) && #[trigger] pre.quiet_but(crowd) implies self.quiet_but(crowd) by {
            assert forall|a: int, b: int| 0 <= a < self.n() && 0 <= b < BLOCK_CAP implies ((
            #[trigger] self.writer(a, b)) matches Some(x) ==> crowd(x)) by {
                if a < pre.n() {
                    assert(pre.writer(a, b) is Some ==> crowd(pre.writer(a, b)->0));
                }
            }
            assert forall|a: int, b: int| 0 <= a < self.n() && 0 <= b < BLOCK_CAP implies ((
            #[trigger] self.reader(a, b)).owner() matches Some(x) ==> crowd(x)) by {
                if a < pre.n() {
                    assert(pre.reader(a, b).owner() is Some ==> crowd(pre.reader(a, b).owner()->0));
                }
            }
            assert forall|a: int| 0 <= a < self.n() implies ((#[trigger] self.passing(
                a,
            )) matches Some(x) ==> crowd(x)) by {
                if a < pre.n() {
                    assert(pre.passing(a) is Some ==> crowd(pre.passing(a)->0));
                }
            }
        }
    }

    /// What a step of `who` leaves to the others: every other operation can
    /// still rely on what it relied on, and nobody else is newly at work.
    #[verifier::opaque]
    spec fn leaves_others(&self, pre: Self, who: int) -> bool {
        &&& forall|w: int, o: Op<T>| w != who && #[trigger] pre.op_ok(w, o) ==> self.op_ok(w, o)
        &&& forall|crowd: spec_fn(int) -> bool|
            crowd(who) && #[trigger] pre.quiet_but(crowd) ==> self.quiet_but(crowd)
    }

    /// A step of `who` that has disturbed nobody else leaves the others what
    /// they rely on.
    proof fn lemma_leaves_others(&self, pre: Self, who: int)
        requires
            forall|w: int| w != who ==> #[trigger] self.undisturbed(pre, w),
            self.joined_by(pre, who),
        ensures
            self.leaves_others(pre, who),
    {
        reveal(UnboundedSegmentQueue::leaves_others);
        assert forall|w: int, o: Op<T>| w != who && #[trigger] pre.op_ok(w, o) implies self.op_ok(
            w,
            o,
        ) by {
            assert(self.undisturbed(pre, w));
            self.lemma_op_kept(pre, w, o);
        }
        self.lemma_crowd_kept(pre, who);
    }

    /// In `self`, `who` is at work on nothing but cell `(k, j)` and the
    /// passing of place `p`, if in `pre` it was at work on nothing but
    /// those, or on nothing, and all else is in the hands it was in.
    proof fn lemma_owns(&self, pre: Self, who: int, k: int, j: int, p: int)
        requires
            self.n() >= pre.n(),
            pre.owns_only(who, k, j, p),
            forall|a: int, b: int|
                0 <= a < pre.n() && 0 <= b < BLOCK_CAP && !(a == k && b == j) ==> (
                #[trigger] self.writer(a, b)) == pre.writer(a, b),
            forall|a: int, b: int|
                0 <= a < pre.n() && 0 <= b < BLOCK_CAP && !(a == k && b == j) ==> (
                #[trigger] self.reader(a, b)) == pre.reader(a, b),
            forall|a: int| 0 <= a < pre.n() && a != p ==> (#[trigger] self.passing(a))
                == pre.passing(a),
            forall|a: int, b: int|
                pre.n() <= a < self.n() && 0 <= b < BLOCK_CAP ==> (#[trigger] self.writer(a, b))
                    is None,
            forall|a: int, b: int|
                pre.n() <= a < self.n() && 0 <= b < BLOCK_CAP ==> (#[trigger] self.reader(a, b))
                    == Stage::Quiet,
            forall|a: int| pre.n() <= a < self.n() ==> (#[trigger] self.passing(a)) is None,
        ensures
            self.owns_only(who, k, j, p),
    {
        assert forall|a: int, b: int|
            0 <= a < self.n() && 0 <= b < BLOCK_CAP && !(a == k && b == j) implies (
        #[trigger] self.writer(a, b)) != Some(who) by {
            if a < pre.n() {
                assert(pre.writer(a, b) != Some(who));
            }
        }
        assert forall|a: int, b: int|
            0 <= a < self.n() && 0 <= b < BLOCK_CAP && !(a == k && b == j) implies (
        #[trigger] self.reader(a, b)).owner() != Some(who) by {
            if a < pre.n() {
                assert(pre.reader(a, b).owner() != Some(who));
            }
        }
        assert forall|a: int| 0 <= a < self.n() && a != p implies (#[trigger] self.passing(a))
            != Some(who) by {
            if a < pre.n() {
                assert(pre.passing(a) != Some(who));
            }
        }
    }

    /// An owner that is at work on nothing is at work on nothing but any one
    /// cell and any one passing.
    proof fn lemma_owns_more(&self, who: int, k: int, j: int, p: int)
        requires
            self.owns_nothing(who),
        ensures
            self.owns_only(who, k, j, p),
    {
        assert forall|a: int, b: int|
            0 <= a < self.n() && 0 <= b < BLOCK_CAP && !(a == k && b == j) implies (
        #[trigger] self.writer(a, b)) != Some(who) by {}
        assert forall|a: int, b: int|
            0 <= a < self.n() && 0 <= b < BLOCK_CAP && !(a == k && b == j) implies (
        #[trigger] self.reader(a, b)).owner() != Some(who) by {}
        assert forall|a: int| 0 <= a < self.n() && a != p implies (#[trigger] self.passing(a))
            != Some(who) by {}
    }

    /// A queue with the same positions, segments and ledger keeps what every
    /// operation relies on.
    proof fn lemma_same(&self, pre: Self)
        requires
            pre.inv(),
            self.same_as(pre),
        ensures
            self.inv(),
            self@ == pre@,
            forall|w: int, o: Op<T>| #[trigger] pre.op_ok(w, o) ==> self.op_ok(w, o),
            forall|who: int| #[trigger] self.leaves_others(pre, who),
    {
        reveal(UnboundedSegmentQueue::leaves_others);
        assert forall|k: int| 0 <= k < self.n() implies #[trigger] self.page_ok(k) by {
            assert(pre.page_ok(k));
            if self.chain@[k] is Some {
                assert forall|j: int| 0 <= j < BLOCK_CAP implies #[trigger] self.cell_ok(k, j) by {
                    assert(pre.cell_ok(k, j));
                }
            }
        }
        assert(self@ =~= pre@);
        assert forall|w: int, o: Op<T>| #[trigger] pre.op_ok(w, o) implies self.op_ok(w, o) by {
            assert(self.undisturbed(pre, w)) by {
                reveal(UnboundedSegmentQueue::undisturbed);
                assert forall|a: int, b: int|
                    0 <= a < pre.n() && 0 <= b < BLOCK_CAP implies #[trigger] self.cell_kept(
                    pre,
                    w,
                    a,
                    b,
                ) by {
                    if pre.writer(a, b) == Some(w) || pre.reader(a, b).owner() == Some(w) {
                        assert(pre.page_ok(a));
                    }
                }
                assert forall|a: int| 0 <= a < pre.n() implies #[trigger] self.pass_kept(
                    pre,
                    w,
                    a,
                ) by {
                    assert(pre.page_ok(a));
                }
            }
            self.lemma_op_kept(pre, w, o);
        }
        assert forall|crowd: spec_fn(int) -> bool| #[trigger]
            pre.quiet_but(crowd) implies self.quiet_but(crowd) by {
            assert forall|k: int, j: int| 0 <= k < self.n() && 0 <= j < BLOCK_CAP implies ((
            #[trigger] self.writer(k, j)) matches Some(w) ==> crowd(w)) by {
                assert(self.writer(k, j) == pre.writer(k, j));
            }
            assert forall|k: int, j: int| 0 <= k < self.n() && 0 <= j < BLOCK_CAP implies ((
            #[trigger] self.reader(k, j)).owner() matches Some(w) ==> crowd(w)) by {
                assert(self.reader(k, j) == pre.reader(k, j));
            }
            assert forall|k: int| 0 <= k < self.n() implies ((#[trigger] self.passing(
                k,
            )) matches Some(w) ==> crowd(w)) by {
                assert(self.passing(k) == pre.passing(k));
            }
        }
    }

    /// The first step of a push: load the tail.
    fn push_load_tail(&mut self, who: usize, value: T) -> (next: Op<T>)
        requires
            old(self).inv(),
            old(self).op_ok(who as int, Op::Push { value }),
        ensures
            Self::step_post(*old(self), *final(self), who as int, Op::Push { value }, false, next),
            Self::step_post(*old(self), *final(self), who as int, Op::Push { value }, true, next),
    {
        let tail = self.tail.load(MemOrder::Acquire);
        proof {
            self.lemma_positions();
            self.lemma_same(*old(self));
        }
        Op::PushTail { value, tail, seen: Ghost(self.ledger@.pushes) }
    }

    /// After `who` has changed the storage, the state or its own stage of
    /// cell `j` of the segment at place `k`, on which it was at work, the
    /// invariant holds if the cell fits it, the queue's contents are the
    /// same, and the others are left what they rely on.
    #[verifier::rlimit(60)]
    proof fn lemma_cell_keeps(&self, pre: Self, who: int, k: int, j: int)
        requires
            pre.inv(),
            0 <= k < pre.n(),
            0 <= j < BLOCK_CAP,
            pre.chain@[k] is Some,
            self.chain@[k] is Some,
            self.head@ == pre.head@,
            self.tail@ == pre.tail@,
            self.first@ == pre.first@,
            self.origin == pre.origin,
            self.chain@.len() == pre.chain@.len(),
            forall|a: int| 0 <= a < pre.n() && a != k ==> self.chain@[a] == pre.chain@[a],
            (self.chain@[k]->0).next@ == (pre.chain@[k]->0).next@,
            (self.chain@[k]->0).done@ <= COMPLETE,
            forall|b: usize|
                b < 32 && b != j ==> has_bit((self.chain@[k]->0).done@, b) == #[trigger] has_bit(
                    (pre.chain@[k]->0).done@,
                    b,
                ),
            (self.chain@[k]->0).cells@.len() == (pre.chain@[k]->0).cells@.len(),
            forall|b: int|
                0 <= b < BLOCK_CAP && b != j ==> (self.chain@[k]->0).cells@[b] == (
                pre.chain@[k]->0).cells@[b],
            self.ledger@.pages.len() == pre.ledger@.pages.len(),
            forall|a: int| 0 <= a < pre.n() && a != k ==> self.ledger@.pages[a] == pre.ledger@.pages[a],
            self.ledger@.pages[k].elements == pre.ledger@.pages[k].elements,
            self.ledger@.pages[k].passing == pre.ledger@.pages[k].passing,
            self.ledger@.pages[k].writers.len() == BLOCK_CAP,
            self.ledger@.pages[k].readers.len() == BLOCK_CAP,
            forall|b: int|
                0 <= b < BLOCK_CAP && b != j ==> self.writer(k, b) == pre.writer(k, b)
                    && self.reader(k, b) == pre.reader(k, b),
            self.ledger@.head_at == pre.ledger@.head_at,
            self.ledger@.tail_at == pre.ledger@.tail_at,
            self.ledger@.pushes == pre.ledger@.pushes,
            self.ledger@.pops == pre.ledger@.pops,
            self.ledger@.head_moves == pre.ledger@.head_moves,
            // Either `who` was writing, and is or is no more ...
            ({
                &&& pre.writer(k, j) == Some(who)
                &&& self.writer(k, j) == Some(who) || self.writer(k, j) is None
                &&& self.reader(k, j) == pre.reader(k, j)
            }) || ({
                // ... or `who` was reading what was written, and is a stage
                // further on.
                &&& pre.reader(k, j).owner() == Some(who)
                &&& self.reader(k, j).owner() == Some(who) || self.reader(k, j) == Stage::Quiet
                &&& pre.writer(k, j) is None
                &&& self.writer(k, j) is None
            }),
            self.cell_ok(k, j),
        ensures
            self.inv(),
            self@ == pre@,
            self.leaves_others(pre, who),
            forall|p: int| pre.owns_only(who, k, j, p) ==> self.owns_only(who, k, j, p),
    {
        assert forall|a: int| 0 <= a < self.n() implies #[trigger] self.page_ok(a) by {
            assert(pre.page_ok(a));
            if self.chain@[a] is Some {
                if a == k {
                    assert(has_bit((pre.chain@[k]->0).done@, 31) == has_bit(
                        (self.chain@[k]->0).done@,
                        31,
                    ));
                }
                assert forall|b: int| 0 <= b < BLOCK_CAP implies #[trigger] self.cell_ok(a, b) by {
                    assert(pre.cell_ok(a, b));
                    if a == k && b != j {
                        assert(has_bit((pre.chain@[k]->0).done@, b as usize) == has_bit(
                            (self.chain@[k]->0).done@,
                            b as usize,
                        ));
                    }
                }
            }
        }
        assert forall|n: int| 0 <= n < pre.count() implies #[trigger] self.item(n) == pre.item(
            n,
        ) by {}
        assert(self@ =~= pre@);
        assert forall|w: int| w != who implies #[trigger] self.undisturbed(pre, w) by {
            reveal(UnboundedSegmentQueue::undisturbed);
            assert forall|a: int, b: int|
                0 <= a < pre.n() && 0 <= b < BLOCK_CAP implies #[trigger] self.cell_kept(
                pre,
                w,
                a,
                b,
            ) by {
                if pre.writer(a, b) == Some(w) || pre.reader(a, b).owner() == Some(w) {
                    assert(pre.page_ok(a));
                }
            }
            assert forall|a: int| 0 <= a < pre.n() implies #[trigger] self.pass_kept(pre, w, a) by {
                assert(pre.page_ok(a));
            }
        }
        assert(self.joined_by(pre, who)) by {
            reveal(UnboundedSegmentQueue::joined_by);
        }
        self.lemma_leaves_others(pre, who);
        assert forall|p: int| pre.owns_only(who, k, j, p) implies self.owns_only(who, k, j, p) by {
            self.lemma_owns(pre, who, k, j, p);
        }
    }

    /// The place and the index of the cell at the position `at`, which is
    /// one of a cell that the chain holds.
    fn cell_of(&self, at: usize) -> (r: (usize, usize))
        requires
            self.inv(),
            self.holds(at),
        ensures
            r.0 == self.at_place(at),
            r.1 == Self::at_index(at),
            r.0 < self.chain@.len(),
            r.1 < BLOCK_CAP,
    {
        proof {
            self.lemma_positions();
            lemma_split(at, STRIDE);
            Self::lemma_place(self.origin as int, word_lap(at, STRIDE));
        }
        let field = index_of(at, STRIDE);
        proof {
            assert(field >> 1 == field / 2) by (bit_vector);
        }
        (lap_of(at, STRIDE).wrapping_sub(self.origin) / STRIDE, field >> SHIFT)
    }

    /// The step of a push after its claim: write the value to the cell.
    fn push_write(&mut self, who: usize, value: T, at: usize) -> (next: Op<T>)
        requires
            old(self).inv(),
            old(self).op_ok(who as int, Op::PushClaimed { value, at }),
        ensures
            Self::step_post(
                *old(self),
                *final(self),
                who as int,
                Op::PushClaimed { value, at },
                false,
                next,
            ),
            Self::step_post(
                *old(self),
                *final(self),
                who as int,
                Op::PushClaimed { value, at },
                true,
                next,
            ),
    {
        let (k, j) = self.cell_of(at);
        proof {
            assert(self.page_ok(k as int));
            assert(self.cell_ok(k as int, j as int));
        }
        match &mut self.chain[k] {
            Some(segment) => {
                segment.cells[j].write(value);
            },
            None => {},
        }
        proof {
            let pre = *old(self);
            self.lemma_cell_keeps(pre, who as int, k as int, j as int);
        }
        Op::PushWritten { at, value: Ghost(value) }
    }

    /// The last step of a push: mark the cell written, which hands the
    /// element to the consumers.
    fn push_commit(&mut self, who: usize, at: usize, value: Ghost<T>) -> (next: Op<T>)
        requires
            old(self).inv(),
            old(self).op_ok(who as int, Op::PushWritten { at, value }),
        ensures
            Self::step_post(
                *old(self),
                *final(self),
                who as int,
                Op::PushWritten { at, value },
                false,
                next,
            ),
            Self::step_post(
                *old(self),
                *final(self),
                who as int,
                Op::PushWritten { at, value },
                true,
                next,
            ),
    {
        let (k, j) = self.cell_of(at);
        proof {
            assert(self.page_ok(k as int));
            assert(self.cell_ok(k as int, j as int));
            assert(0usize | 1usize == 1usize) by (bit_vector);
        }
        match &mut self.chain[k] {
            Some(segment) => {
                segment.cells[j].state.fetch_or(WRITE, MemOrder::Release);
            },
            None => {},
        }
        proof {
            let pre = *old(self);
            let page = pre.ledger@.pages[k as int];
            self.ledger@ = Ledger {
                pages: pre.ledger@.pages.update(
                    k as int,
                    Page { writers: page.writers.update(j as int, None), ..page },
                ),
                ..pre.ledger@
            };
            self.lemma_cell_keeps(pre, who as int, k as int, j as int);
        }
        Op::Pushed { value }
    }

    /// The first step of a pop: load the head.
    fn pop_load_head(&mut self, who: usize) -> (next: Op<T>)
        requires
            old(self).inv(),
            old(self).op_ok(who as int, Op::Pop),
        ensures
            Self::step_post(*old(self), *final(self), who as int, Op::Pop, false, next),
            Self::step_post(*old(self), *final(self), who as int, Op::Pop, true, next),
    {
        let head = self.head.load(MemOrder::Acquire);
        proof {
            self.lemma_positions();
            self.lemma_same(*old(self));
        }
        Op::PopHead {
            head,
            seen: Ghost(self.ledger@.head_moves),
            popped: Ghost(self.ledger@.pops),
        }
    }

    /// The second step of a pop: unless the head says that the tail is in a
    /// later segment, load the tail. If the tail is where the head is, the
    /// queue is empty.
    #[verifier::rlimit(60)]
    fn pop_load_tail(
        &mut self,
        who: usize,
        head: usize,
        seen: Ghost<nat>,
        popped: Ghost<nat>,
    ) -> (next: Op<T>)
        requires
            old(self).inv(),
            old(self).op_ok(who as int, Op::PopHead { head, seen, popped }),
            old(self).fresh(Op::PopHead { head, seen, popped }),
        ensures
            Self::step_post(
                *old(self),
                *final(self),
                who as int,
                Op::PopHead { head, seen, popped },
                false,
                next,
            ),
            Self::step_post(
                *old(self),
                *final(self),
                who as int,
                Op::PopHead { head, seen, popped },
                true,
                next,
            ),
    {
        proof {
            self.lemma_positions();
            lemma_split(head, STRIDE);
            self.lemma_same(*old(self));
            assert(head & 1 == head % 2) by (bit_vector);
        }
        if head & HAS_NEXT != 0 {
            return Op::PopReady { head, mark: false, seen };
        }
        fence(MemOrder::SeqCst);
        let tail = self.tail.load(MemOrder::Relaxed);
        proof {
            assert(head >> 1 == head / 2) by (bit_vector);
            assert(tail >> 1 == tail / 2) by (bit_vector);
        }
        if head >> SHIFT == tail >> SHIFT {
            Op::Popped { result: None }
        } else {
            Op::PopReady { head, mark: lap_of(head, STRIDE) != lap_of(tail, STRIDE), seen }
        }
    }

    /// The step of a pop after its claim: if the cell is marked written,
    /// take the element out of it; if not, its producer has not finished,
    /// and the pop looks again.
    fn pop_take(&mut self, who: usize, at: usize, element: Ghost<T>) -> (next: Op<T>)
        requires
            old(self).inv(),
            old(self).op_ok(who as int, Op::PopClaimed { at, element }),
        ensures
            Self::step_post(*old(self), *final(self), who as int, Op::PopClaimed { at, element }, false, next),
            Self::step_post(*old(self), *final(self), who as int, Op::PopClaimed { at, element }, true, next),
    {
        let (k, j) = self.cell_of(at);
        proof {
            assert(self.page_ok(k as int));
            assert(self.cell_ok(k as int, j as int));
            assert(1usize & 1usize != 0usize) by (bit_vector);
            assert(0usize & 1usize == 0usize) by (bit_vector);
        }
        let taken = match &mut self.chain[k] {
            Some(segment) => {
                let state = segment.cells[j].state.load(MemOrder::Acquire);
                if state & WRITE == 0 {
                    None
                } else {
                    segment.cells[j].read()
                }
            },
            None => None,
        };
        match taken {
            Some(taken) => {
                proof {
                    let pre = *old(self);
                    let page = pre.ledger@.pages[k as int];
                    self.ledger@ = Ledger {
                        pages: pre.ledger@.pages.update(
                            k as int,
                            Page {
                                readers: page.readers.update(j as int, Stage::Taken(who as int)),
                                ..page
                            },
                        ),
                        ..pre.ledger@
                    };
                    self.lemma_cell_keeps(pre, who as int, k as int, j as int);
                }
                Op::PopTaken { at, taken, element }
            },
            None => {
                proof {
                    let pre = *old(self);
                    assert(self.chain@ =~= pre.chain@);
                    self.lemma_same(pre);
                }
                Op::PopClaimed { at, element }
            },
        }
    }

    /// The step of a pop after it has taken the element: mark the cell
    /// read.
    fn pop_mark(&mut self, who: usize, at: usize, taken: T, element: Ghost<T>) -> (next: Op<T>)
        requires
            old(self).inv(),
            old(self).op_ok(who as int, Op::PopTaken { at, taken, element }),
        ensures
            Self::step_post(*old(self), *final(self), who as int, Op::PopTaken { at, taken, element }, false, next),
            Self::step_post(*old(self), *final(self), who as int, Op::PopTaken { at, taken, element }, true, next),
    {
        let (k, j) = self.cell_of(at);
        proof {
            assert(self.page_ok(k as int));
            assert(self.cell_ok(k as int, j as int));
            assert(1usize | (2usize | 4usize) == 7usize) by (bit_vector);
        }
        match &mut self.chain[k] {
            Some(segment) => {
                segment.cells[j].state.fetch_or(READ | DESTROY, MemOrder::AcqRel);
            },
            None => {},
        }
        proof {
            let pre = *old(self);
            let page = pre.ledger@.pages[k as int];
            self.ledger@ = Ledger {
                pages: pre.ledger@.pages.update(
                    k as int,
                    Page { readers: page.readers.update(j as int, Stage::Marked(who as int)), ..page },
                ),
                ..pre.ledger@
            };
            self.lemma_cell_keeps(pre, who as int, k as int, j as int);
        }
        Op::PopMarked { at, taken, element }
    }

    /// The chain's places and addresses go together.
    proof fn lemma_places(&self, k: int)
        requires
            self.inv(),
            -1 <= k <= self.n(),
        ensures
            aligned(self.address(k), 64),
            0 <= self.address(k) <= word_count() - 64,
            0 <= k ==> self.place(self.address(k)) == k,
            k == -1 ==> self.place(self.address(k)) == max_segments(),
            k < self.n() ==> self.address(k + 1) == next_lap(self.address(k), 64),
            self.address(k) != NULL,
    {
        self.lemma_positions();
        lemma_next_lap(self.address(k), 64);
        lemma_prev_lap(self.origin as int, 64);
        if k >= 0 {
            crate::position::lemma_aligned_below(self.origin as int, word_count(), 64);
            lemma_mod_multiples_basic(k, 64);
            assert(aligned(self.address(k), 64));
        }
    }

    /// The tail has moved on from the cell at index `j` of the segment at
    /// place `k`, and `who` has so claimed that cell for `value`: the
    /// invariant holds, the value is at the back of the queue, and the
    /// others are left what they rely on.
    #[verifier::rlimit(60)]
    proof fn lemma_tail_moved(&self, pre: Self, who: int, value: T, k: int, j: int)
        requires
            pre.inv(),
            0 <= k < pre.n(),
            0 <= j < BLOCK_CAP,
            pre.chain@[k] is Some,
            Self::pos(k, j) == pre.tail_pos(),
            pre.tk() <= k <= pre.tk() + 1,
            self.head@ == pre.head@,
            self.first@ == pre.first@,
            self.origin == pre.origin,
            self.chain@ == pre.chain@,
            word_lap(self.tail@, STRIDE) == pre.address(k),
            word_index(self.tail@, STRIDE) == 2 * (j + 1),
            self.ledger@.pages == pre.ledger@.pages.update(
                k,
                Page {
                    writers: pre.ledger@.pages[k].writers.update(j, Some(who)),
                    elements: pre.ledger@.pages[k].elements.update(j, value),
                    ..pre.ledger@.pages[k]
                },
            ),
            self.ledger@.head_at == pre.ledger@.head_at,
            self.ledger@.tail_at == k,
            self.ledger@.pushes == pre.ledger@.pushes + 1,
            self.ledger@.pops == pre.ledger@.pops,
            self.ledger@.head_moves == pre.ledger@.head_moves,
        ensures
            self.inv(),
            self@ == pre@.push(value),
            self.leaves_others(pre, who),
            pre.owns_nothing(who) ==> self.owns_only(who, k, j, -2),
            pre.reader(k, j) == Stage::Quiet,
    {
        pre.lemma_positions();
        assert(pre.page_ok(k));
        assert(pre.cell_ok(k, j));
        assert forall|a: int| 0 <= a < self.n() implies #[trigger] self.page_ok(a) by {
            assert(pre.page_ok(a));
            if self.chain@[a] is Some {
                assert forall|b: int| 0 <= b < BLOCK_CAP implies #[trigger] self.cell_ok(a, b) by {
                    assert(pre.cell_ok(a, b));
                }
            }
        }
        assert forall|n: int| 0 <= n < pre.count() implies #[trigger] self.item(n) == pre.item(
            n,
        ) by {}
        assert(self@ =~= pre@.push(value));
        assert forall|w: int| w != who implies #[trigger] self.undisturbed(pre, w) by {
            reveal(UnboundedSegmentQueue::undisturbed);
            assert forall|a: int, b: int|
                0 <= a < pre.n() && 0 <= b < BLOCK_CAP implies #[trigger] self.cell_kept(
                pre,
                w,
                a,
                b,
            ) by {
                if pre.writer(a, b) == Some(w) || pre.reader(a, b).owner() == Some(w) {
                    assert(pre.page_ok(a));
                }
            }
            assert forall|a: int| 0 <= a < pre.n() implies #[trigger] self.pass_kept(pre, w, a) by {
                assert(pre.page_ok(a));
            }
        }
        assert(self.joined_by(pre, who)) by {
            reveal(UnboundedSegmentQueue::joined_by);
        }
        self.lemma_leaves_others(pre, who);
        if pre.owns_nothing(who) {
            pre.lemma_owns_more(who, k, j, -2);
            self.lemma_owns(pre, who, k, j, -2);
        }
    }

    /// The second step of a push. If the tail is at a cell, claim the cell
    /// by moving the tail. If it is at the end of its segment, load that
    /// segment's link.
    #[verifier::rlimit(60)]
    fn push_inspect(&mut self, who: usize, value: T, tail: usize, seen: Ghost<nat>) -> (next: Op<T>)
        requires
            old(self).inv(),
            old(self).op_ok(who as int, Op::PushTail { value, tail, seen }),
            old(self).fresh(Op::PushTail { value, tail, seen }),
        ensures
            Self::step_post(*old(self), *final(self), who as int, Op::PushTail { value, tail, seen }, false, next),
            Self::step_post(*old(self), *final(self), who as int, Op::PushTail { value, tail, seen }, true, next),
    {
        proof {
            self.lemma_positions();
            lemma_split(tail, STRIDE);
            self.lemma_places(self.tk());
        }
        let field = index_of(tail, STRIDE);
        proof {
            assert(field >> 1 == field / 2) by (bit_vector);
            assert(1usize << 1 == 2) by (bit_vector);
        }
        if field >> SHIFT < BLOCK_CAP {
            match self.tail.compare_exchange_weak(
                tail,
                tail + (1 << SHIFT),
                MemOrder::SeqCst,
                MemOrder::Acquire,
            ) {
                Ok(_) => {
                    proof {
                        let pre = *old(self);
                        let k = pre.tk();
                        let j = pre.ti();
                        assert(pre.page_ok(k));
                        let page = pre.ledger@.pages[k];
                        self.ledger@ = Ledger {
                            pages: pre.ledger@.pages.update(
                                k,
                                Page {
                                    writers: page.writers.update(j, Some(who as int)),
                                    elements: page.elements.update(j, value),
                                    ..page
                                },
                            ),
                            pushes: pre.ledger@.pushes + 1,
                            ..pre.ledger@
                        };
                        lemma_join(pre.address(k), 2 * j + 2, STRIDE);
                        self.lemma_tail_moved(pre, who as int, value, k, j);
                        assert(self.holds(tail));
                        assert(Op::PushClaimed { value, at: tail }.calls() =~= Op::PushTail {
                            value,
                            tail,
                            seen,
                        }.calls().push(Call::Push { value, accepted: true }));
                    }
                    Op::PushClaimed { value, at: tail }
                },
                Err(current) => {
                    proof {
                        self.lemma_same(*old(self));
                    }
                    Op::PushTail { value, tail: current, seen: Ghost(self.ledger@.pushes) }
                },
            }
        } else {
            let base = lap_of(tail, STRIDE);
            let link = match self.find(base) {
                Some(k) => match &self.chain[k] {
                    Some(segment) => Some(segment.next.load(MemOrder::Acquire)),
                    None => None,
                },
                None => if base == usize::MAX - 63 {
                    Some(self.first.load(MemOrder::Acquire))
                } else {
                    None
                },
            };
            proof {
                self.lemma_same(*old(self));
                if self.tk() >= 0 {
                    assert(self.page_ok(self.tk()));
                    self.lemma_places(self.tk() + 1);
                }
            }
            proof {
                assert(link == old(self).link_of(word_lap(tail, STRIDE)));
            }
            match link {
                Some(next) => Op::PushNext { value, tail, linked: next != NULL, seen },
                None => Op::Push { value },
            }
        }
    }

    /// A fresh segment has been linked behind the newest one: the invariant
    /// holds, the queue's contents are the same, and every operation can
    /// still rely on what it relied on.
    #[verifier::rlimit(60)]
    proof fn lemma_linked(&self, pre: Self, fresh: Segment<T>, who: int)
        requires
            pre.inv(),
            fresh.is_fresh(),
            pre.n() < max_segments(),
            pre.n() - 1 == pre.tk(),
            if pre.n() == 0 {
                self.first@ == pre.address(0)
            } else {
                self.first@ == pre.first@
            },
            self.head@ == pre.head@,
            self.tail@ == pre.tail@,
            self.origin == pre.origin,
            self.chain@.len() == pre.n() + 1,
            self.chain@[pre.n()] == Some(fresh),
            forall|a: int| 0 <= a < pre.n() - 1 ==> self.chain@[a] == pre.chain@[a],
            pre.n() >= 1 ==> pre.chain@[pre.n() - 1] is Some && self.chain@[pre.n() - 1] is Some && (
            self.chain@[pre.n() - 1]->0).cells == (pre.chain@[pre.n() - 1]->0).cells && (
            self.chain@[pre.n() - 1]->0).done == (pre.chain@[pre.n() - 1]->0).done && (
            self.chain@[pre.n() - 1]->0).next@ == pre.address(pre.n()),
            self.ledger@.pages.len() == pre.n() + 1,
            forall|a: int| 0 <= a < pre.n() ==> self.ledger@.pages[a] == pre.ledger@.pages[a],
            self.ledger@.pages[pre.n()].writers == Seq::new(BLOCK_CAP as nat, |b: int| None::<int>),
            self.ledger@.pages[pre.n()].readers == Seq::new(BLOCK_CAP as nat, |b: int| Stage::Quiet),
            self.ledger@.pages[pre.n()].elements.len() == BLOCK_CAP,
            self.ledger@.pages[pre.n()].passing is None,
            self.ledger@.head_at == pre.ledger@.head_at,
            self.ledger@.tail_at == pre.ledger@.tail_at,
            self.ledger@.pushes == pre.ledger@.pushes,
            self.ledger@.pops == pre.ledger@.pops,
            self.ledger@.head_moves == pre.ledger@.head_moves,
        ensures
            self.inv(),
            self@ == pre@,
            self.leaves_others(pre, who),
            forall|o: Op<T>| #[trigger] pre.op_ok(who, o) ==> self.op_ok(who, o),
    {
        pre.lemma_positions();
        pre.lemma_places(pre.n());
        lemma_set_bit(0, 31);
        assert forall|a: int| 0 <= a < self.n() implies #[trigger] self.page_ok(a) by {
            if a < pre.n() {
                assert(pre.page_ok(a));
                if self.chain@[a] is Some {
                    assert forall|b: int| 0 <= b < BLOCK_CAP implies #[trigger] self.cell_ok(
                        a,
                        b,
                    ) by {
                        assert(pre.cell_ok(a, b));
                    }
                }
            } else {
                assert forall|b: int| 0 <= b < BLOCK_CAP implies #[trigger] self.cell_ok(a, b) by {
                    lemma_set_bit(0, b as usize);
                    assert(fresh.cells@[b].state@ == 0);
                }
            }
        }
        assert forall|n: int| 0 <= n < pre.count() implies #[trigger] self.item(n) == pre.item(
            n,
        ) by {}
        assert(self@ =~= pre@);
        assert forall|w: int| #[trigger] self.undisturbed(pre, w) by {
            reveal(UnboundedSegmentQueue::undisturbed);
            assert forall|a: int, b: int|
                0 <= a < pre.n() && 0 <= b < BLOCK_CAP implies #[trigger] self.cell_kept(
                pre,
                w,
                a,
                b,
            ) by {
                if pre.writer(a, b) == Some(w) || pre.reader(a, b).owner() == Some(w) {
                    assert(pre.page_ok(a));
                }
            }
            assert forall|a: int| 0 <= a < pre.n() implies #[trigger] self.pass_kept(pre, w, a) by {
                assert(pre.page_ok(a));
            }
        }
        assert(self.joined_by(pre, who)) by {
            reveal(UnboundedSegmentQueue::joined_by);
        }
        self.lemma_leaves_others(pre, who);
        assert forall|o: Op<T>| #[trigger] pre.op_ok(who, o) implies self.op_ok(who, o) by {
            self.lemma_op_kept(pre, who, o);
        }
    }

    /// The step of a push that has found the tail at the end of its
    /// segment. If the segment has a successor, claim the successor's first
    /// cell by moving the tail there. If it has none, link `fresh` behind
    /// it, unless another push does so first; without a fresh segment, or
    /// with a chain that cannot grow, the push ends here.
    #[verifier::rlimit(60)]
    fn push_link(
        &mut self,
        who: usize,
        value: T,
        tail: usize,
        linked: bool,
        seen: Ghost<nat>,
        fresh: Option<Segment<T>>,
    ) -> (next: Op<T>)
        requires
            old(self).inv(),
            old(self).op_ok(who as int, Op::PushNext { value, tail, linked, seen }),
            old(self).fresh(Op::PushNext { value, tail, linked, seen }),
            fresh matches Some(s) ==> s.is_fresh(),
        ensures
            Self::step_post(
                *old(self),
                *final(self),
                who as int,
                Op::PushNext { value, tail, linked, seen },
                fresh is Some,
                next,
            ),
    {
        proof {
            self.lemma_positions();
            lemma_split(tail, STRIDE);
            self.lemma_places(self.tk());
            self.lemma_places(self.n() - 1);
            lemma_next_lap(word_lap(tail, STRIDE), 64);
            assert(1usize << 1 == 2) by (bit_vector);
        }
        let base = lap_of(tail, STRIDE);
        let next_base = base.wrapping_add(STRIDE);
        if linked {
            match self.tail.compare_exchange_weak(
                tail,
                next_base + (1 << SHIFT),
                MemOrder::SeqCst,
                MemOrder::Acquire,
            ) {
                Ok(_) => {
                    proof {
                        let pre = *old(self);
                        let k = pre.tk() + 1;
                        assert(pre.page_ok(k));
                        let page = pre.ledger@.pages[k];
                        self.ledger@ = Ledger {
                            pages: pre.ledger@.pages.update(
                                k,
                                Page {
                                    writers: page.writers.update(0, Some(who as int)),
                                    elements: page.elements.update(0, value),
                                    ..page
                                },
                            ),
                            tail_at: k,
                            pushes: pre.ledger@.pushes + 1,
                            ..pre.ledger@
                        };
                        pre.lemma_places(k);
                        lemma_join(pre.address(k), 2, STRIDE);
                        lemma_join(pre.address(k), 0, STRIDE);
                        self.lemma_tail_moved(pre, who as int, value, k, 0);
                        assert(self.holds(next_base));
                        assert(Op::PushClaimed { value, at: next_base }.calls() =~= Op::PushNext {
                            value,
                            tail,
                            linked,
                            seen,
                        }.calls().push(Call::Push { value, accepted: true }));
                    }
                    Op::PushClaimed { value, at: next_base }
                },
                Err(current) => {
                    proof {
                        self.lemma_same(*old(self));
                    }
                    Op::PushTail { value, tail: current, seen: Ghost(self.ledger@.pushes) }
                },
            }
        } else {
            let room = self.chain.len() < usize::MAX / STRIDE;
            let place = self.find(base);
            if place.is_none() && base != usize::MAX - 63 {
                proof {
                    self.lemma_same(*old(self));
                }
                return Op::Push { value };
            }
            // Look at the link first; only an empty one is worth a segment.
            let link = match place {
                Some(k) => match &self.chain[k] {
                    Some(segment) => segment.next.load(MemOrder::Acquire),
                    None => NULL,
                },
                None => self.first.load(MemOrder::Acquire),
            };
            proof {
                assert(Some(link) == self.link_of(base as int));
                if self.n() >= 1 {
                    assert(self.page_ok(self.n() - 1));
                }
                if let Some(k) = place {
                    assert(self.page_ok(k as int));
                    self.lemma_places(k as int + 1);
                }
            }
            if link != NULL {
                proof {
                    self.lemma_same(*old(self));
                }
                return Op::PushNext { value, tail, linked: true, seen };
            }
            let segment = match fresh {
                Some(segment) => segment,
                None => {
                    proof {
                        self.lemma_same(*old(self));
                    }
                    return Op::Failed { value };
                },
            };
            if !room {
                proof {
                    self.lemma_same(*old(self));
                }
                return Op::Failed { value };
            }
            let installed = match place {
                Some(k) => match &mut self.chain[k] {
                    Some(last) => last.next.compare_exchange(
                        NULL,
                        next_base,
                        MemOrder::Release,
                        MemOrder::Acquire,
                    ).is_ok(),
                    None => false,
                },
                None => self.first.compare_exchange(
                    NULL,
                    next_base,
                    MemOrder::Release,
                    MemOrder::Acquire,
                ).is_ok(),
            };
            if installed {
                let ghost fresh_copy = segment;
                self.chain.push(Some(segment));
                proof {
                    let pre = *old(self);
                    self.ledger@ = Ledger {
                        pages: pre.ledger@.pages.push(
                            Page {
                                writers: Seq::new(BLOCK_CAP as nat, |b: int| None::<int>),
                                readers: Seq::new(BLOCK_CAP as nat, |b: int| Stage::Quiet),
                                elements: Seq::new(BLOCK_CAP as nat, |b: int| value),
                                passing: None,
                            },
                        ),
                        ..pre.ledger@
                    };
                    self.lemma_linked(pre, fresh_copy, who as int);
                }
            }
            Op::PushNext { value, tail, linked: true, seen }
        }
    }

    /// The head has moved on from the cell that it was at, and `who` has so
    /// claimed that cell to read it: the invariant holds, the oldest element
    /// has left the queue, and the others are left what they rely on.
    #[verifier::rlimit(60)]
    proof fn lemma_head_moved(&self, pre: Self, who: int)
        requires
            pre.inv(),
            pre.ledger@.pushes > pre.ledger@.pops,
            pre.hi() < BLOCK_CAP,
            self.tail@ == pre.tail@,
            self.first@ == pre.first@,
            self.origin == pre.origin,
            self.chain@ == pre.chain@,
            word_lap(self.head@, STRIDE) == pre.address(pre.hk()),
            word_index(self.head@, STRIDE) / 2 == pre.hi() + 1,
            self.hflag() ==> pre.hk() < pre.tk(),
            self.ledger@.pages == pre.ledger@.pages.update(
                pre.hk(),
                Page {
                    readers: pre.ledger@.pages[pre.hk()].readers.update(
                        pre.hi(),
                        Stage::Waiting(who),
                    ),
                    ..pre.ledger@.pages[pre.hk()]
                },
            ),
            self.ledger@.head_at == pre.ledger@.head_at,
            self.ledger@.tail_at == pre.ledger@.tail_at,
            self.ledger@.pushes == pre.ledger@.pushes,
            self.ledger@.pops == pre.ledger@.pops + 1,
            self.ledger@.head_moves == pre.ledger@.head_moves + 1,
        ensures
            self.inv(),
            pre@.len() > 0,
            pre@[0] == pre.element(pre.hk(), pre.hi()),
            self@ == pre@.subrange(1, pre@.len() as int),
            0 <= pre.hk() < pre.n(),
            pre.chain@[pre.hk()] is Some,
            self.leaves_others(pre, who),
            pre.owns_nothing(who) ==> self.owns_only(who, pre.hk(), pre.hi(), -2),
            pre.owns_nothing(who) ==> self.writer(pre.hk(), pre.hi()) != Some(who),
    {
        let k = pre.hk();
        let j = pre.hi();
        pre.lemma_positions();
        assert(pre.page_ok(k));
        assert(pre.cell_ok(k, j));
        assert forall|a: int| 0 <= a < self.n() implies #[trigger] self.page_ok(a) by {
            assert(pre.page_ok(a));
            if self.chain@[a] is Some {
                assert forall|b: int| 0 <= b < BLOCK_CAP implies #[trigger] self.cell_ok(a, b) by {
                    assert(pre.cell_ok(a, b));
                }
            }
        }
        assert forall|n: int| 0 <= n < self.count() implies #[trigger] self.item(n) == pre.item(
            n + 1,
        ) by {}
        assert(pre.item(0) == pre.element(k, j));
        assert(self@ =~= pre@.subrange(1, pre@.len() as int));
        assert forall|w: int| w != who implies #[trigger] self.undisturbed(pre, w) by {
            reveal(UnboundedSegmentQueue::undisturbed);
            assert forall|a: int, b: int|
                0 <= a < pre.n() && 0 <= b < BLOCK_CAP implies #[trigger] self.cell_kept(
                pre,
                w,
                a,
                b,
            ) by {
                if pre.writer(a, b) == Some(w) || pre.reader(a, b).owner() == Some(w) {
                    assert(pre.page_ok(a));
                }
            }
            assert forall|a: int| 0 <= a < pre.n() implies #[trigger] self.pass_kept(pre, w, a) by {
                assert(pre.page_ok(a));
            }
        }
        assert(self.joined_by(pre, who)) by {
            reveal(UnboundedSegmentQueue::joined_by);
        }
        self.lemma_leaves_others(pre, who);
        if pre.owns_nothing(who) {
            pre.lemma_owns_more(who, k, j, -2);
            self.lemma_owns(pre, who, k, j, -2);
            assert(pre.writer(k, j) != Some(who));
        }
    }

    /// The head has moved from the end of its segment to the first cell of
    /// the next, and `who` has so taken on to record that in the segment
    /// left behind, if there is one: the invariant holds, the queue's
    /// contents are the same, and the others are left what they rely on.
    #[verifier::rlimit(60)]
    proof fn lemma_head_advanced(&self, pre: Self, who: int)
        requires
            pre.inv(),
            pre.ledger@.pushes > pre.ledger@.pops,
            pre.hi() == BLOCK_CAP,
            self.tail@ == pre.tail@,
            self.first@ == pre.first@,
            self.origin == pre.origin,
            self.chain@ == pre.chain@,
            self.head@ == pre.address(pre.hk() + 1),
            self.ledger@.pages == (if pre.hk() >= 0 {
                pre.ledger@.pages.update(
                    pre.hk(),
                    Page { passing: Some(who), ..pre.ledger@.pages[pre.hk()] },
                )
            } else {
                pre.ledger@.pages
            }),
            self.ledger@.head_at == pre.ledger@.head_at + 1,
            self.ledger@.tail_at == pre.ledger@.tail_at,
            self.ledger@.pushes == pre.ledger@.pushes,
            self.ledger@.pops == pre.ledger@.pops,
            self.ledger@.head_moves == pre.ledger@.head_moves + 1,
        ensures
            self.inv(),
            self@ == pre@,
            pre.hk() >= 0 ==> pre.chain@[pre.hk()] is Some,
            self.leaves_others(pre, who),
            pre.owns_nothing(who) ==> self.owns_only(who, -2, -2, pre.hk()),
            pre.owns_nothing(who) && pre.hk() == -1 ==> self.owns_nothing(who),
    {
        let k = pre.hk();
        pre.lemma_positions();
        pre.lemma_places(k + 1);
        pre.lemma_places(k);
        lemma_join(pre.address(k + 1), 0, STRIDE);
        if k >= 0 {
            assert(pre.page_ok(k));
        }
        assert forall|a: int| 0 <= a < self.n() implies #[trigger] self.page_ok(a) by {
            assert(pre.page_ok(a));
            if self.chain@[a] is Some {
                assert forall|b: int| 0 <= b < BLOCK_CAP implies #[trigger] self.cell_ok(a, b) by {
                    assert(pre.cell_ok(a, b));
                }
            }
        }
        assert forall|n: int| 0 <= n < self.count() implies #[trigger] self.item(n) == pre.item(
            n,
        ) by {}
        assert(self@ =~= pre@);
        assert forall|w: int| w != who implies #[trigger] self.undisturbed(pre, w) by {
            reveal(UnboundedSegmentQueue::undisturbed);
            assert forall|a: int, b: int|
                0 <= a < pre.n() && 0 <= b < BLOCK_CAP implies #[trigger] self.cell_kept(
                pre,
                w,
                a,
                b,
            ) by {
                if pre.writer(a, b) == Some(w) || pre.reader(a, b).owner() == Some(w) {
                    assert(pre.page_ok(a));
                }
            }
            assert forall|a: int| 0 <= a < pre.n() implies #[trigger] self.pass_kept(pre, w, a) by {
                assert(pre.page_ok(a));
            }
        }
        assert(self.joined_by(pre, who)) by {
            reveal(UnboundedSegmentQueue::joined_by);
        }
        self.lemma_leaves_others(pre, who);
        if pre.owns_nothing(who) {
            pre.lemma_owns_more(who, -2, -2, k);
            self.lemma_owns(pre, who, -2, -2, k);
            if k == -1 {
                self.lemma_owns(pre, who, -2, -2, -2);
            }
        }
    }

    /// The third step of a pop. If the head is at a cell, claim the cell by
    /// moving the head. If it is at the end of its segment, move it to the
    /// first cell of the next segment.
    fn pop_claim(&mut self, who: usize, head: usize, mark: bool, seen: Ghost<nat>) -> (next: Op<T>)
        requires
            old(self).inv(),
            old(self).op_ok(who as int, Op::PopReady { head, mark, seen }),
            old(self).fresh(Op::PopReady { head, mark, seen }),
        ensures
            Self::step_post(
                *old(self),
                *final(self),
                who as int,
                Op::PopReady { head, mark, seen },
                false,
                next,
            ),
            Self::step_post(
                *old(self),
                *final(self),
                who as int,
                Op::PopReady { head, mark, seen },
                true,
                next,
            ),
    {
        proof {
            self.lemma_positions();
        }
        let field = index_of(head, STRIDE);
        proof {
            assert(field >> 1 == field / 2) by (bit_vector);
        }
        if field >> SHIFT < BLOCK_CAP {
            self.pop_claim_cell(who, head, mark, seen)
        } else {
            self.pop_advance(who, head, mark, seen)
        }
    }

    /// The head after `head`, which is at a cell, with [`HAS_NEXT`] where
    /// `mark` asks for it, and the position of that cell.
    fn claim_words(head: usize, mark: bool) -> (r: (usize, usize))
        requires
            word_index(head, STRIDE) / 2 < BLOCK_CAP,
        ensures
            r.0 == head + 2 + (if mark && head % 2 == 0 {
                1int
            } else {
                0int
            }),
            r.1 == head - head % 2,
    {
        proof {
            lemma_segment_stride();
            lemma_split(head, STRIDE);
            assert(1usize << 1 == 2) by (bit_vector);
            assert(head & !1usize == head - head % 2) by (bit_vector);
        }
        let mut new_head = head + (1 << SHIFT);
        if mark {
            proof {
                assert(new_head % 2 == 1 ==> new_head | 1 == new_head) by (bit_vector);
                assert(new_head % 2 == 0 ==> new_head | 1 == new_head + 1) by (bit_vector);
            }
            new_head = new_head | HAS_NEXT;
        }
        (new_head, head & !HAS_NEXT)
    }

    /// Claims the cell that the head is at by moving the head.
    #[verifier::rlimit(60)]
    fn pop_claim_cell(&mut self, who: usize, head: usize, mark: bool, seen: Ghost<nat>) -> (next:
        Op<T>)
        requires
            old(self).inv(),
            old(self).op_ok(who as int, Op::PopReady { head, mark, seen }),
            old(self).fresh(Op::PopReady { head, mark, seen }),
            word_index(head, STRIDE) / 2 < BLOCK_CAP,
        ensures
            Self::step_post(
                *old(self),
                *final(self),
                who as int,
                Op::PopReady { head, mark, seen },
                false,
                next,
            ),
            Self::step_post(
                *old(self),
                *final(self),
                who as int,
                Op::PopReady { head, mark, seen },
                true,
                next,
            ),
    {
        let (new_head, at) = Self::claim_words(head, mark);
        match self.head.compare_exchange_weak(
            head,
            new_head,
            MemOrder::SeqCst,
            MemOrder::Acquire,
        ) {
            Ok(_) => {
                proof {
                    let pre = *old(self);
                    let k = pre.hk();
                    let j = pre.hi();
                    let page = pre.ledger@.pages[k];
                    self.ledger@ = Ledger {
                        pages: pre.ledger@.pages.update(
                            k,
                            Page {
                                readers: page.readers.update(j, Stage::Waiting(who as int)),
                                ..page
                            },
                        ),
                        pops: pre.ledger@.pops + 1,
                        head_moves: pre.ledger@.head_moves + 1,
                        ..pre.ledger@
                    };
                    self.lemma_cell_claimed(pre, who as int, head, mark, seen, at);
                }
                Op::PopClaimed {
                    at,
                    element: Ghost(old(self).element(old(self).hk(), old(self).hi())),
                }
            },
            Err(current) => {
                proof {
                    self.lemma_same(*old(self));
                    self.lemma_positions();
                }
                Op::PopHead {
                    head: current,
                    seen: Ghost(self.ledger@.head_moves),
                    popped: Ghost(self.ledger@.pops),
                }
            },
        }
    }

    /// The words of the step that claims a cell by moving the head: where
    /// the new head and the claimed cell are.
    #[verifier::rlimit(60)]
    proof fn lemma_cell_claimed_words(
        &self,
        pre: Self,
        who: int,
        head: usize,
        mark: bool,
        seen: Ghost<nat>,
        at: usize,
    )
        requires
            pre.inv(),
            pre.op_ok(who, Op::PopReady { head, mark, seen }),
            pre.fresh(Op::PopReady { head, mark, seen }),
            word_index(head, STRIDE) / 2 < BLOCK_CAP,
            pre.head@ == head,
            at == head - head % 2,
            self.head@ == head + 2 + (if mark && head % 2 == 0 {
                1int
            } else {
                0int
            }),
            self.origin == pre.origin,
        ensures
            pre.ledger@.pushes > pre.ledger@.pops,
            0 <= pre.hk() < pre.n(),
            pre.hi() < BLOCK_CAP,
            word_lap(self.head@, STRIDE) == pre.address(pre.hk()),
            word_index(self.head@, STRIDE) / 2 == pre.hi() + 1,
            word_index(self.head@, STRIDE) % 2 == 1 ==> pre.hk() < pre.tk(),
            word_lap(at, STRIDE) == pre.address(pre.hk()),
            word_index(at, STRIDE) == 2 * pre.hi(),
            self.at_place(at) == pre.hk(),
            Self::at_index(at) == pre.hi(),
    {
        let k = pre.hk();
        let j = pre.hi();
        pre.lemma_positions();
        lemma_split(head, STRIDE);
        pre.lemma_places(k);
        let flag: int = if mark || pre.hflag() {
            1
        } else {
            0
        };
        assert(pre.ledger@.head_moves == seen@);
        assert(head == pre.address(k) + 2 * j + (if pre.hflag() {
            1int
        } else {
            0int
        }));
        assert(self.head@ == pre.address(k) + 2 * j + 2 + flag);
        assert(at == pre.address(k) + 2 * j);
        lemma_join(pre.address(k), 2 * j + 2 + flag, STRIDE);
        lemma_join(pre.address(k), 2 * j, STRIDE);
    }

    /// What the step that claims a cell by moving the head has made of the
    /// queue.
    #[verifier::rlimit(60)]
    proof fn lemma_cell_claimed(
        &self,
        pre: Self,
        who: int,
        head: usize,
        mark: bool,
        seen: Ghost<nat>,
        at: usize,
    )
        requires
            pre.inv(),
            pre.op_ok(who, Op::PopReady { head, mark, seen }),
            pre.fresh(Op::PopReady { head, mark, seen }),
            word_index(head, STRIDE) / 2 < BLOCK_CAP,
            pre.head@ == head,
            at == head - head % 2,
            self.head@ == head + 2 + (if mark && head % 2 == 0 {
                1int
            } else {
                0int
            }),
            self.tail@ == pre.tail@,
            self.first@ == pre.first@,
            self.origin == pre.origin,
            self.chain@ == pre.chain@,
            self.ledger@ == (Ledger {
                pages: pre.ledger@.pages.update(
                    pre.hk(),
                    Page {
                        readers: pre.ledger@.pages[pre.hk()].readers.update(
                            pre.hi(),
                            Stage::Waiting(who),
                        ),
                        ..pre.ledger@.pages[pre.hk()]
                    },
                ),
                pops: pre.ledger@.pops + 1,
                head_moves: pre.ledger@.head_moves + 1,
                ..pre.ledger@
            }),
        ensures
            Self::step_post(
                pre,
                *self,
                who,
                Op::PopReady { head, mark, seen },
                false,
                Op::PopClaimed { at, element: Ghost(pre.element(pre.hk(), pre.hi())) },
            ),
            Self::step_post(
                pre,
                *self,
                who,
                Op::PopReady { head, mark, seen },
                true,
                Op::PopClaimed { at, element: Ghost(pre.element(pre.hk(), pre.hi())) },
            ),
    {
        let k = pre.hk();
        let j = pre.hi();
        self.lemma_cell_claimed_words(pre, who, head, mark, seen, at);
        assert(pre.page_ok(k));
        self.lemma_head_moved(pre, who);
        assert(self.holds(at));
        let op = Op::PopReady { head, mark, seen };
        let next = Op::PopClaimed { at, element: Ghost(pre.element(k, j)) };
        assert(next.calls() =~= op.calls().push(Call::Pop { taken: Some(pre.element(k, j)) }));
        assert(self.op_ok(who, next));
    }

    /// Moves the head from the end of its segment to the first cell of the
    /// next segment.
    #[verifier::rlimit(60)]
    fn pop_advance(&mut self, who: usize, head: usize, mark: bool, seen: Ghost<nat>) -> (next: Op<T>)
        requires
            old(self).inv(),
            old(self).op_ok(who as int, Op::PopReady { head, mark, seen }),
            old(self).fresh(Op::PopReady { head, mark, seen }),
            word_index(head, STRIDE) / 2 == BLOCK_CAP,
        ensures
            Self::step_post(
                *old(self),
                *final(self),
                who as int,
                Op::PopReady { head, mark, seen },
                false,
                next,
            ),
            Self::step_post(
                *old(self),
                *final(self),
                who as int,
                Op::PopReady { head, mark, seen },
                true,
                next,
            ),
    {
        proof {
            self.lemma_positions();
            lemma_split(head, STRIDE);
            self.lemma_places(self.hk());
            self.lemma_places(self.hk() + 1);
        }
        let base = lap_of(head, STRIDE);
        let leaves = self.find(base).is_some();
        match self.head.compare_exchange_weak(
            head,
            base.wrapping_add(STRIDE),
            MemOrder::SeqCst,
            MemOrder::Acquire,
        ) {
            Ok(_) => {
                proof {
                    let pre = *old(self);
                    let k = pre.hk();
                    if k >= 0 {
                        assert(pre.page_ok(k));
                        self.ledger@ = Ledger {
                            pages: pre.ledger@.pages.update(
                                k,
                                Page { passing: Some(who as int), ..pre.ledger@.pages[k] },
                            ),
                            head_at: k + 1,
                            head_moves: pre.ledger@.head_moves + 1,
                            ..pre.ledger@
                        };
                    } else {
                        self.ledger@ = Ledger {
                            head_at: k + 1,
                            head_moves: pre.ledger@.head_moves + 1,
                            ..pre.ledger@
                        };
                    }
                    self.lemma_head_advanced(pre, who as int);
                    assert(leaves == (k >= 0));
                    if k >= 0 {
                        assert(self.place(base as int) == k);
                        assert(self.passing(k) == Some(who as int));
                    }
                }
                if leaves {
                    Op::PopPassed { left: base }
                } else {
                    Op::Pop
                }
            },
            Err(current) => {
                proof {
                    self.lemma_same(*old(self));
                }
                Op::PopHead {
                    head: current,
                    seen: Ghost(self.ledger@.head_moves),
                    popped: Ghost(self.ledger@.pops),
                }
            },
        }
    }

    /// What two steps in a row leave to the others is what each of them
    /// leaves.
    proof fn lemma_leaves_twice(&self, mid: Self, pre: Self, who: int)
        requires
            mid.leaves_others(pre, who),
            self.leaves_others(mid, who),
        ensures
            self.leaves_others(pre, who),
    {
        reveal(UnboundedSegmentQueue::leaves_others);
    }

    /// The head's passing of the segment at place `k` has been recorded in
    /// that segment's completion word by `who`: the invariant holds, the
    /// queue's contents are the same, and the others are left what they
    /// rely on.
    #[verifier::rlimit(60)]
    proof fn lemma_passed(&self, pre: Self, who: int, k: int)
        requires
            pre.inv(),
            0 <= k < pre.n(),
            pre.chain@[k] is Some,
            pre.passing(k) == Some(who),
            self.chain@[k] is Some,
            self.head@ == pre.head@,
            self.tail@ == pre.tail@,
            self.first@ == pre.first@,
            self.origin == pre.origin,
            self.chain@.len() == pre.chain@.len(),
            forall|a: int| 0 <= a < pre.n() && a != k ==> self.chain@[a] == pre.chain@[a],
            (self.chain@[k]->0).next@ == (pre.chain@[k]->0).next@,
            (self.chain@[k]->0).cells@ == (pre.chain@[k]->0).cells@,
            (self.chain@[k]->0).done@ == (pre.chain@[k]->0).done@ | PASSED,
            self.ledger@ == (Ledger {
                pages: pre.ledger@.pages.update(k, Page { passing: None, ..pre.ledger@.pages[k] }),
                ..pre.ledger@
            }),
        ensures
            self.inv(),
            self@ == pre@,
            self.leaves_others(pre, who),
            pre.owns_only(who, -2, -2, k) ==> self.owns_nothing(who),
    {
        assert(pre.page_ok(k));
        lemma_set_bit((pre.chain@[k]->0).done@, 31);
        assert forall|a: int| 0 <= a < self.n() implies #[trigger] self.page_ok(a) by {
            assert(pre.page_ok(a));
            if self.chain@[a] is Some {
                assert forall|b: int| 0 <= b < BLOCK_CAP implies #[trigger] self.cell_ok(a, b) by {
                    assert(pre.cell_ok(a, b));
                    if a == k {
                        assert(has_bit((pre.chain@[k]->0).done@, b as usize) == has_bit(
                            (self.chain@[k]->0).done@,
                            b as usize,
                        ));
                    }
                }
            }
        }
        assert forall|n: int| 0 <= n < pre.count() implies #[trigger] self.item(n) == pre.item(
            n,
        ) by {}
        assert(self@ =~= pre@);
        assert forall|w: int| w != who implies #[trigger] self.undisturbed(pre, w) by {
            reveal(UnboundedSegmentQueue::undisturbed);
            assert forall|a: int, b: int|
                0 <= a < pre.n() && 0 <= b < BLOCK_CAP implies #[trigger] self.cell_kept(
                pre,
                w,
                a,
                b,
            ) by {
                if pre.writer(a, b) == Some(w) || pre.reader(a, b).owner() == Some(w) {
                    assert(pre.page_ok(a));
                }
            }
            assert forall|a: int| 0 <= a < pre.n() implies #[trigger] self.pass_kept(pre, w, a) by {
                assert(pre.page_ok(a));
            }
        }
        assert(self.joined_by(pre, who)) by {
            reveal(UnboundedSegmentQueue::joined_by);
        }
        self.lemma_leaves_others(pre, who);
        if pre.owns_only(who, -2, -2, k) {
            assert forall|a: int| 0 <= a < self.n() && a != -2 implies (#[trigger] self.passing(
                a,
            )) != Some(who) by {
                if a != k {
                    assert(pre.passing(a) != Some(who));
                }
            }
            assert forall|a: int, b: int|
                0 <= a < self.n() && 0 <= b < BLOCK_CAP && !(a == -2 && b == -2) implies (
            #[trigger] self.writer(a, b)) != Some(who) by {
                assert(pre.writer(a, b) != Some(who));
            }
            assert forall|a: int, b: int|
                0 <= a < self.n() && 0 <= b < BLOCK_CAP && !(a == -2 && b == -2) implies (
            #[trigger] self.reader(a, b)).owner() != Some(who) by {
                assert(pre.reader(a, b).owner() != Some(who));
            }
        }
    }

    /// The segment at place `k`, whose completion word was complete, has
    /// been freed: the invariant holds, the queue's contents are the same,
    /// and every operation can still rely on what it relied on.
    #[verifier::rlimit(60)]
    proof fn lemma_freed(&self, pre: Self, k: int)
        requires
            pre.inv(),
            0 <= k < pre.n(),
            pre.chain@[k] is Some,
            (pre.chain@[k]->0).done@ == COMPLETE,
            self.chain@ == pre.chain@.update(k, None),
            self.head@ == pre.head@,
            self.tail@ == pre.tail@,
            self.first@ == pre.first@,
            self.origin == pre.origin,
            self.ledger@ == pre.ledger@,
        ensures
            self.inv(),
            self@ == pre@,
            forall|who: int| #[trigger] self.leaves_others(pre, who),
            forall|w: int, o: Op<T>| #[trigger] pre.op_ok(w, o) ==> self.op_ok(w, o),
    {
        assert(pre.page_ok(k));
        lemma_complete(31);
        assert forall|a: int| 0 <= a < self.n() implies #[trigger] self.page_ok(a) by {
            assert(pre.page_ok(a));
            if a == k {
                assert forall|b: int| 0 <= b < BLOCK_CAP implies (
                #[trigger] pre.ledger@.pages[k].writers[b]) is None && pre.ledger@.pages[k].readers[b]
                    == Stage::Quiet by {
                    lemma_complete(b as usize);
                    assert(pre.cell_ok(k, b));
                }
            } else if self.chain@[a] is Some {
                assert forall|b: int| 0 <= b < BLOCK_CAP implies #[trigger] self.cell_ok(a, b) by {
                    assert(pre.cell_ok(a, b));
                }
            }
        }
        assert forall|n: int| 0 <= n < pre.count() implies #[trigger] self.item(n) == pre.item(
            n,
        ) by {}
        assert(self@ =~= pre@);
        assert forall|w: int| #[trigger] self.undisturbed(pre, w) by {
            reveal(UnboundedSegmentQueue::undisturbed);
            assert forall|a: int, b: int|
                0 <= a < pre.n() && 0 <= b < BLOCK_CAP implies #[trigger] self.cell_kept(
                pre,
                w,
                a,
                b,
            ) by {
                if pre.writer(a, b) == Some(w) || pre.reader(a, b).owner() == Some(w) {
                    assert(pre.page_ok(a));
                    if a == k {
                        lemma_complete(b as usize);
                        assert(pre.cell_ok(k, b));
                    }
                }
            }
            assert forall|a: int| 0 <= a < pre.n() implies #[trigger] self.pass_kept(pre, w, a) by {
                assert(pre.page_ok(a));
            }
        }
        assert forall|who: int| #[trigger] self.leaves_others(pre, who) by {
            assert(self.joined_by(pre, who)) by {
                reveal(UnboundedSegmentQueue::joined_by);
            }
            self.lemma_leaves_others(pre, who);
        }
        assert forall|w: int, o: Op<T>| #[trigger] pre.op_ok(w, o) implies self.op_ok(w, o) by {
            self.lemma_op_kept(pre, w, o);
        }
    }

    /// The place of an address in a chain that starts one segment later is
    /// one less, and the address of a place is that of the place one further
    /// on.
    proof fn lemma_shift(origin: int, base: int, a: int)
        requires
            aligned(origin, 64),
            0 <= origin <= word_count() - 64,
        ensures
            aligned(base, 64) && 0 <= base <= word_count() - 64 && 1 <= places(origin, base)
                ==> places(next_lap(origin, 64), base) == places(origin, base) - 1,
            0 <= a < max_segments() ==> base_at(next_lap(origin, 64), a) == base_at(origin, a + 1),
    {
        lemma_segment_stride();
        lemma_next_lap(origin, 64);
    }

    /// The freed segment at the front of the chain has been dropped from the
    /// chain: the invariant holds, the queue's contents are the same, and
    /// every operation can still rely on what it relied on.
    #[verifier::rlimit(60)]
    proof fn lemma_trimmed(&self, pre: Self)
        requires
            pre.inv(),
            pre.n() >= 1,
            pre.chain@[0] is None,
            self.chain@ == pre.chain@.subrange(1, pre.n()),
            self.origin == next_lap(pre.origin as int, 64),
            self.head@ == pre.head@,
            self.tail@ == pre.tail@,
            self.first@ == pre.first@,
            self.ledger@ == (Ledger {
                pages: pre.ledger@.pages.subrange(1, pre.n()),
                head_at: pre.ledger@.head_at - 1,
                tail_at: pre.ledger@.tail_at - 1,
                ..pre.ledger@
            }),
        ensures
            self.inv(),
            self@ == pre@,
            forall|who: int| #[trigger] self.leaves_others(pre, who),
            forall|w: int, o: Op<T>| #[trigger] pre.op_ok(w, o) ==> self.op_ok(w, o),
    {
        pre.lemma_positions();
        assert(pre.page_ok(0));
        lemma_next_lap(pre.origin as int, 64);
        lemma_mod_multiples_basic(0, 64);
        assert forall|a: int| -1 <= a < self.n() implies #[trigger] self.address(a) == pre.address(
            a + 1,
        ) by {
            Self::lemma_shift(pre.origin as int, 0, a);
            lemma_prev_lap(self.origin as int, 64);
        }
        assert(self.address(self.hk()) == pre.address(pre.hk()));
        assert(self.address(self.tk()) == pre.address(pre.tk()));
        assert forall|a: int| 0 <= a < self.n() implies #[trigger] self.page_ok(a) by {
            assert(pre.page_ok(a + 1));
            assert(self.address(a + 1) == pre.address(a + 2));
            if self.chain@[a] is Some {
                assert forall|b: int| 0 <= b < BLOCK_CAP implies #[trigger] self.cell_ok(a, b) by {
                    assert(pre.cell_ok(a + 1, b));
                }
            }
        }
        assert forall|n: int| 0 <= n < pre.count() implies #[trigger] self.item(n) == pre.item(
            n,
        ) by {}
        assert(self@ =~= pre@);
        assert forall|w: int, o: Op<T>| #[trigger] pre.op_ok(w, o) implies self.op_ok(w, o) by {
            self.lemma_trimmed_op(pre, w, o);
        }
        assert forall|who: int| #[trigger] self.leaves_others(pre, who) by {
            reveal(UnboundedSegmentQueue::leaves_others);
            assert forall|crowd: spec_fn(int) -> bool| #[trigger]
                pre.quiet_but(crowd) implies self.quiet_but(crowd) by {
                assert forall|a: int, b: int| 0 <= a < self.n() && 0 <= b < BLOCK_CAP implies ((
                #[trigger] self.writer(a, b)) matches Some(x) ==> crowd(x)) by {
                    assert(pre.writer(a + 1, b) is Some ==> crowd(pre.writer(a + 1, b)->0));
                }
                assert forall|a: int, b: int| 0 <= a < self.n() && 0 <= b < BLOCK_CAP implies ((
                #[trigger] self.reader(a, b)).owner() matches Some(x) ==> crowd(x)) by {
                    assert(pre.reader(a + 1, b).owner() is Some ==> crowd(
                        pre.reader(a + 1, b).owner()->0,
                    ));
                }
                assert forall|a: int| 0 <= a < self.n() implies ((#[trigger] self.passing(
                    a,
                )) matches Some(x) ==> crowd(x)) by {
                    assert(pre.passing(a + 1) is Some ==> crowd(pre.passing(a + 1)->0));
                }
            }
        }
    }

    /// In a chain whose front has been dropped, an owner that was at work on
    /// nothing but `(own_k, own_j)` and `own_p` is at work on nothing but what is
    /// there now.
    proof fn lemma_trimmed_owns(&self, pre: Self, w: int, own_k: int, own_j: int, own_p: int)
        requires
            pre.n() >= 1,
            self.n() == pre.n() - 1,
            self.ledger@.pages == pre.ledger@.pages.subrange(1, pre.n()),
            pre.ledger@.pages.len() == pre.n(),
            pre.owns_only(w, own_k, own_j, own_p),
        ensures
            self.owns_only(w, own_k - 1, own_j, own_p - 1),
            own_k == -2 ==> self.owns_only(w, -2, own_j, own_p - 1),
            own_p == -2 ==> self.owns_only(w, own_k - 1, own_j, -2),
            own_k == -2 && own_p == -2 ==> self.owns_only(w, -2, own_j, -2),
    {
        assert forall|a: int, b: int| 0 <= a < self.n() && 0 <= b < BLOCK_CAP implies (
        #[trigger] self.writer(a, b)) == pre.writer(a + 1, b) by {}
        assert forall|a: int, b: int| 0 <= a < self.n() && 0 <= b < BLOCK_CAP implies (
        #[trigger] self.reader(a, b)) == pre.reader(a + 1, b) by {}
        assert forall|a: int| 0 <= a < self.n() implies (#[trigger] self.passing(a))
            == pre.passing(a + 1) by {}
    }

    #[verifier::rlimit(60)]
    proof fn lemma_trimmed_op(&self, pre: Self, w: int, o: Op<T>)
        requires
            pre.inv(),
            pre.op_ok(w, o),
            pre.n() >= 1,
            pre.chain@[0] is None,
            self.chain@ == pre.chain@.subrange(1, pre.n()),
            self.origin == next_lap(pre.origin as int, 64),
            self.head@ == pre.head@,
            self.tail@ == pre.tail@,
            self.first@ == pre.first@,
            self.ledger@ == (Ledger {
                pages: pre.ledger@.pages.subrange(1, pre.n()),
                head_at: pre.ledger@.head_at - 1,
                tail_at: pre.ledger@.tail_at - 1,
                ..pre.ledger@
            }),
        ensures
            self.op_ok(w, o),
    {
        pre.lemma_positions();
        lemma_next_lap(pre.origin as int, 64);
        if pre.owns_nothing(w) {
            self.lemma_trimmed_owns(pre, w, -2, -2, -2);
        }
        match o {
            Op::PushClaimed { at, .. } => {
                self.lemma_trimmed_at(pre, at);
                self.lemma_trimmed_owns(pre, w, pre.at_place(at), Self::at_index(at), -2);
            },
            Op::PushWritten { at, .. } => {
                self.lemma_trimmed_at(pre, at);
                self.lemma_trimmed_owns(pre, w, pre.at_place(at), Self::at_index(at), -2);
            },
            Op::PopClaimed { at, .. } => {
                self.lemma_trimmed_at(pre, at);
                self.lemma_trimmed_owns(pre, w, pre.at_place(at), Self::at_index(at), -2);
            },
            Op::PopTaken { at, .. } => {
                self.lemma_trimmed_at(pre, at);
                self.lemma_trimmed_owns(pre, w, pre.at_place(at), Self::at_index(at), -2);
            },
            Op::PopMarked { at, .. } => {
                self.lemma_trimmed_at(pre, at);
                self.lemma_trimmed_owns(pre, w, pre.at_place(at), Self::at_index(at), -2);
            },
            Op::PopPassed { left } => {
                Self::lemma_shift(pre.origin as int, left as int, pre.place(left as int) - 1);
                self.lemma_trimmed_owns(pre, w, -2, -2, pre.place(left as int));
            },
            _ => {},
        }
    }

    /// A cell that the chain held is held by the chain whose front has been
    /// dropped, one place nearer to the front.
    proof fn lemma_trimmed_at(&self, pre: Self, at: usize)
        requires
            pre.inv(),
            pre.holds(at),
            pre.n() >= 1,
            pre.chain@[0] is None,
            self.chain@ == pre.chain@.subrange(1, pre.n()),
            self.origin == next_lap(pre.origin as int, 64),
        ensures
            self.holds(at),
            self.at_place(at) == pre.at_place(at) - 1,
            self.chain@[self.at_place(at)] == pre.chain@[pre.at_place(at)],
    {
        pre.lemma_positions();
        lemma_split(at, STRIDE);
        Self::lemma_shift(pre.origin as int, word_lap(at, STRIDE), pre.at_place(at) - 1);
    }

    /// Between `pre` and `self`, segments have been freed and dropped from
    /// the chain, and nothing else has been done.
    spec fn released(&self, pre: Self) -> bool {
        &&& self.inv()
        &&& self@ == pre@
        &&& forall|who: int| #[trigger] self.leaves_others(pre, who)
        &&& forall|w: int, o: Op<T>| #[trigger] pre.op_ok(w, o) ==> self.op_ok(w, o)
        &&& self.ledger@.pushes == pre.ledger@.pushes
        &&& self.ledger@.pops == pre.ledger@.pops
        &&& self.ledger@.head_moves == pre.ledger@.head_moves
        &&& self.head@ == pre.head@
        &&& self.tail@ == pre.tail@
        &&& self.spare() == pre.spare()
    }

    /// A step is a step still when segments are freed after it.
    #[verifier::rlimit(60)]
    proof fn lemma_step_released(
        &self,
        mid: Self,
        pre: Self,
        who: int,
        op: Op<T>,
        supplied: bool,
        next: Op<T>,
    )
        requires
            Self::step_post(pre, mid, who, op, supplied, next),
            self.released(mid),
            !op.pushes_still(),
        ensures
            Self::step_post(pre, *self, who, op, supplied, next),
    {
        self.lemma_leaves_twice(mid, pre, who);
    }

    /// Frees the segment at place `k`, whose completion word is complete,
    /// and drops freed segments from the front of the chain.
    #[verifier::rlimit(60)]
    fn release(&mut self, k: usize)
        requires
            old(self).inv(),
            k < old(self).n(),
            old(self).chain@[k as int] is Some,
            (old(self).chain@[k as int]->0).done@ == COMPLETE,
        ensures
            final(self).released(*old(self)),
    {
        self.chain[k] = None;
        proof {
            self.lemma_freed(*old(self), k as int);
        }
        while self.chain.len() > 0 && self.chain[0].is_none()
            invariant
                self.inv(),
                self@ == old(self)@,
                forall|who: int| #[trigger] self.leaves_others(*old(self), who),
                forall|w: int, o: Op<T>| #[trigger] old(self).op_ok(w, o) ==> self.op_ok(w, o),
                self.ledger@.pushes == old(self).ledger@.pushes,
                self.ledger@.pops == old(self).ledger@.pops,
                self.ledger@.head_moves == old(self).ledger@.head_moves,
                self.head@ == old(self).head@,
                self.tail@ == old(self).tail@,
                self.spare() == old(self).spare(),
            decreases self.chain.len(),
        {
            let ghost before = *self;
            proof {
                self.lemma_positions();
                lemma_next_lap(self.origin as int, 64);
            }
            self.chain.remove(0);
            self.origin = self.origin.wrapping_add(STRIDE);
            proof {
                self.ledger@ = Ledger {
                    pages: before.ledger@.pages.subrange(1, before.n()),
                    head_at: before.ledger@.head_at - 1,
                    tail_at: before.ledger@.tail_at - 1,
                    ..before.ledger@
                };
                assert(self.chain@ =~= before.chain@.subrange(1, before.n()));
                self.lemma_trimmed(before);
                assert forall|who: int| #[trigger] self.leaves_others(*old(self), who) by {
                    self.lemma_leaves_twice(before, *old(self), who);
                }
            }
        }
    }

    /// The last step of a pop: record in the segment's completion word that
    /// the cell's reader has left. If that completes the word, this pop is
    /// the last to leave the segment, and frees it.
    #[verifier::rlimit(60)]
    fn pop_leave(&mut self, who: usize, at: usize, taken: T, element: Ghost<T>) -> (next: Op<T>)
        requires
            old(self).inv(),
            old(self).op_ok(who as int, Op::PopMarked { at, taken, element }),
        ensures
            Self::step_post(
                *old(self),
                *final(self),
                who as int,
                Op::PopMarked { at, taken, element },
                false,
                next,
            ),
            Self::step_post(
                *old(self),
                *final(self),
                who as int,
                Op::PopMarked { at, taken, element },
                true,
                next,
            ),
    {
        let (k, j) = self.cell_of(at);
        let before = match &mut self.chain[k] {
            Some(segment) => segment.done.fetch_or(1usize << j, MemOrder::AcqRel),
            None => 0,
        };
        proof {
            let pre = *old(self);
            let page = pre.ledger@.pages[k as int];
            self.ledger@ = Ledger {
                pages: pre.ledger@.pages.update(
                    k as int,
                    Page { readers: page.readers.update(j as int, Stage::Quiet), ..page },
                ),
                ..pre.ledger@
            };
            self.lemma_left(pre, who as int, at, taken, element);
        }
        if before | (1usize << j) == COMPLETE {
            let ghost mid = *self;
            self.release(k);
            proof {
                let op = Op::PopMarked { at, taken, element };
                let next = Op::Popped { result: Some(taken) };
                self.lemma_step_released(mid, *old(self), who as int, op, true, next);
                self.lemma_step_released(mid, *old(self), who as int, op, false, next);
            }
        }
        Op::Popped { result: Some(taken) }
    }

    /// What the step in which a reader leaves its cell has made of the
    /// queue.
    #[verifier::rlimit(60)]
    proof fn lemma_left(&self, pre: Self, who: int, at: usize, taken: T, element: Ghost<T>)
        requires
            pre.inv(),
            pre.op_ok(who, Op::PopMarked { at, taken, element }),
            self.head@ == pre.head@,
            self.tail@ == pre.tail@,
            self.first@ == pre.first@,
            self.origin == pre.origin,
            self.chain@.len() == pre.chain@.len(),
            self.chain@[pre.at_place(at)] is Some,
            forall|a: int|
                0 <= a < pre.n() && a != pre.at_place(at) ==> self.chain@[a] == pre.chain@[a],
            (self.chain@[pre.at_place(at)]->0).next@ == (pre.chain@[pre.at_place(at)]->0).next@,
            (self.chain@[pre.at_place(at)]->0).cells@ == (pre.chain@[pre.at_place(at)]->0).cells@,
            (self.chain@[pre.at_place(at)]->0).done@ == (pre.chain@[pre.at_place(at)]->0).done@ | (
            1usize << (Self::at_index(at) as usize)),
            self.ledger@ == (Ledger {
                pages: pre.ledger@.pages.update(
                    pre.at_place(at),
                    Page {
                        readers: pre.ledger@.pages[pre.at_place(at)].readers.update(
                            Self::at_index(at),
                            Stage::Quiet,
                        ),
                        ..pre.ledger@.pages[pre.at_place(at)]
                    },
                ),
                ..pre.ledger@
            }),
        ensures
            Self::step_post(
                pre,
                *self,
                who,
                Op::PopMarked { at, taken, element },
                false,
                Op::Popped { result: Some(taken) },
            ),
            Self::step_post(
                pre,
                *self,
                who,
                Op::PopMarked { at, taken, element },
                true,
                Op::Popped { result: Some(taken) },
            ),
            0 <= pre.at_place(at) < pre.n(),
    {
        let k = pre.at_place(at);
        let j = Self::at_index(at);
        assert(pre.page_ok(k));
        assert(pre.cell_ok(k, j));
        lemma_set_bit((pre.chain@[k]->0).done@, j as usize);
        self.lemma_cell_keeps(pre, who, k, j);
        assert(self.owns_nothing(who)) by {
            assert forall|a: int, b: int|
                0 <= a < self.n() && 0 <= b < BLOCK_CAP implies (#[trigger] self.reader(
                a,
                b,
            )).owner() != Some(who) by {
                if !(a == k && b == j) {
                    assert(pre.reader(a, b).owner() != Some(who));
                }
            }
        }
    }

    /// The step of a pop that has moved the head off a segment: record that
    /// in the segment's completion word. If that completes the word, every
    /// reader has left the segment, and this pop frees it. The pop then
    /// starts over at the new head.
    #[verifier::rlimit(60)]
    fn pop_pass(&mut self, who: usize, left: usize) -> (next: Op<T>)
        requires
            old(self).inv(),
            old(self).op_ok(who as int, Op::PopPassed { left }),
        ensures
            Self::step_post(*old(self), *final(self), who as int, Op::PopPassed { left }, false, next),
            Self::step_post(*old(self), *final(self), who as int, Op::PopPassed { left }, true, next),
    {
        proof {
            self.lemma_positions();
            Self::lemma_place(self.origin as int, left as int);
        }
        let k = left.wrapping_sub(self.origin) / STRIDE;
        let before = match &mut self.chain[k] {
            Some(segment) => segment.done.fetch_or(PASSED, MemOrder::AcqRel),
            None => 0,
        };
        proof {
            let pre = *old(self);
            self.ledger@ = Ledger {
                pages: pre.ledger@.pages.update(
                    k as int,
                    Page { passing: None, ..pre.ledger@.pages[k as int] },
                ),
                ..pre.ledger@
            };
            self.lemma_passed(pre, who as int, k as int);
        }
        if before | PASSED == COMPLETE {
            let ghost mid = *self;
            self.release(k);
            proof {
                let op = Op::PopPassed { left };
                self.lemma_step_released(mid, *old(self), who as int, op, true, Op::Pop);
                self.lemma_step_released(mid, *old(self), who as int, op, false, Op::Pop);
            }
        }
        Op::Pop
    }

    /// Makes the next step of the operation `op`, owned by `who`, and returns
    /// what the operation is after it. `fresh` is a segment for the step to
    /// link to the chain if it has to. A step of an operation that is done
    /// does nothing.
    fn step(&mut self, who: usize, op: Op<T>, fresh: Option<Segment<T>>) -> (next: Op<T>)
        requires
            old(self).inv(),
            old(self).op_ok(who as int, op),
            old(self).fresh(op),
            fresh matches Some(s) ==> s.is_fresh(),
        ensures
            Self::step_post(*old(self), *final(self), who as int, op, fresh is Some, next),
    {
        match op {
            Op::Push { value } => self.push_load_tail(who, value),
            Op::PushTail { value, tail, seen } => self.push_inspect(who, value, tail, seen),
            Op::PushNext { value, tail, linked, seen } => self.push_link(
                who,
                value,
                tail,
                linked,
                seen,
                fresh,
            ),
            Op::PushClaimed { value, at } => self.push_write(who, value, at),
            Op::PushWritten { at, value } => self.push_commit(who, at, value),
            Op::Pop => self.pop_load_head(who),
            Op::PopHead { head, seen, popped } => self.pop_load_tail(who, head, seen, popped),
            Op::PopReady { head, mark, seen } => self.pop_claim(who, head, mark, seen),
            Op::PopPassed { left } => self.pop_pass(who, left),
            Op::PopClaimed { at, element } => self.pop_take(who, at, element),
            Op::PopTaken { at, taken, element } => self.pop_mark(who, at, taken, element),
            Op::PopMarked { at, taken, element } => self.pop_leave(who, at, taken, element),
            done => {
                proof {
                    self.lemma_same(*old(self));
                }
                done
            },
        }
    }

    /// The operation `op` of `who` is the only one under way, and what it
    /// has loaded is what the queue holds now.
    spec fn alone(&self, who: int, op: Op<T>) -> bool {
        &&& self.quiet_but(|w: int| w == who)
        &&& match op {
            Op::PushTail { seen, .. } => seen@ == self.ledger@.pushes,
            Op::PushNext { seen, linked, .. } => seen@ == self.ledger@.pushes && linked
                == self.spare(),
            Op::PopHead { seen, .. } => seen@ == self.ledger@.head_moves,
            Op::PopReady { seen, .. } => seen@ == self.ledger@.head_moves,
            Op::PopPassed { .. } => self.hi() == 0,
            _ => true,
        }
    }

    /// A bound on the number of steps that the operation `op` still makes on
    /// this queue when no other operation takes a step in between.
    spec fn measure(&self, op: Op<T>) -> nat {
        let far: nat = if self.hi() == BLOCK_CAP {
            10
        } else {
            0
        };
        match op {
            Op::Push { .. } => 7,
            Op::PushTail { .. } => 6,
            Op::PushNext { linked, .. } => if linked {
                4
            } else {
                5
            },
            Op::PushClaimed { .. } => 2,
            Op::PushWritten { .. } => 1,
            Op::Pop => 6 + far,
            Op::PopHead { .. } => 5 + far,
            Op::PopReady { .. } => 4 + far,
            Op::PopPassed { .. } => 7,
            Op::PopClaimed { .. } => 3,
            Op::PopTaken { .. } => 2,
            Op::PopMarked { .. } => 1,
            _ => 0,
        }
    }

    /// An operation that is alone makes its next step on words that are as
    /// fresh as can be.
    proof fn lemma_alone_fresh(&self, who: int, op: Op<T>)
        requires
            self.inv(),
            self.op_ok(who, op),
            self.alone(who, op),
        ensures
            self.fresh(op),
    {
        self.lemma_positions();
    }

    /// What the next step of an operation that is alone makes of it.
    #[verifier::rlimit(60)]
    proof fn lemma_alone_next(&self, who: int, op: Op<T>, supplied: bool)
        requires
            self.inv(),
            self.op_ok(who, op),
            self.alone(who, op),
            !op.is_done(),
            !(op is Idle),
        ensures
            !(self.stepped(op, supplied) is Idle),
            forall|v: T| op.pushes(v) ==> self.stepped(op, supplied).pushes(v),
            op.pops() ==> self.stepped(op, supplied).pops(),
            op.calls().is_prefix_of(self.stepped(op, supplied).calls()),
            self.stepped(op, supplied).calls().len() <= op.calls().len() + 1,
            op is PopClaimed ==> self.stepped(op, supplied) is PopTaken,
            op is PushTail ==> self.stepped(op, supplied) is PushClaimed || self.stepped(
                op,
                supplied,
            ) is PushNext,
            op is PushNext ==> self.stepped(op, supplied) is PushClaimed || self.stepped(
                op,
                supplied,
            ) is Failed || self.stepped(op, supplied) is PushNext,
            op matches Op::PushNext { linked, .. } ==> (self.stepped(op, supplied) matches Op::PushNext {
                linked: after,
                ..
            } ==> !linked && after),
            op matches Op::PushTail { tail, .. } ==> (self.stepped(op, supplied) matches Op::PushNext {
                linked,
                ..
            } ==> linked == self.spare() && self.at_end()),
            op is PopHead ==> self.stepped(op, supplied) is PopReady || self.stepped(
                op,
                supplied,
            ) is Popped,
            op is PopReady ==> self.stepped(op, supplied) is PopClaimed || self.stepped(
                op,
                supplied,
            ) is PopPassed || self.stepped(op, supplied) is Pop,
            op is PopReady && !(self.stepped(op, supplied) is PopClaimed) ==> self.hi()
                == BLOCK_CAP,
            // A push fails only where it has to allocate and cannot.
            self.stepped(op, supplied) is Failed ==> self.at_end() && !self.spare() && (!supplied
                || !self.can_grow()),
            op is PushNext && self.at_end() && !self.spare() && (!supplied || !self.can_grow())
                ==> self.stepped(op, supplied) is Failed,
            op is PushNext ==> self.at_end(),
            op is PushTail && self.at_end() ==> self.stepped(op, supplied) is PushNext,
            op is Push ==> self.stepped(op, supplied) is PushTail,
            op is Pop ==> self.stepped(op, supplied) is PopHead,
    {
        self.lemma_positions();
        self.lemma_places(self.tk());
        self.lemma_places(self.tk() + 1);
        self.lemma_places(self.hk());
        Self::lemma_place(self.origin as int, self.address(self.tk()));
        if self.tk() >= 0 {
            assert(self.page_ok(self.tk()));
        }
        assert((|w: int| w == who)(who));
        match op {
            Op::PopClaimed { at, .. } => {
                assert(self.writer(self.at_place(at), Self::at_index(at)) is None);
            },
            _ => {},
        }
        assert(op.calls() =~= self.stepped(op, supplied).calls().take(op.calls().len() as int));
    }

    /// A step keeps an operation's kind and value, and adds no more than one
    /// call to those that the operation has taken effect as.
    proof fn lemma_step_kind(&self, who: int, op: Op<T>, supplied: bool)
        requires
            self.op_ok(who, op),
        ensures
            forall|v: T| op.pushes(v) ==> self.stepped(op, supplied).pushes(v),
            op.pops() ==> self.stepped(op, supplied).pops(),
            op.calls().is_prefix_of(self.stepped(op, supplied).calls()),
            self.stepped(op, supplied).calls().len() <= op.calls().len() + 1,
    {
        assert(op.calls() =~= self.stepped(op, supplied).calls().take(op.calls().len() as int));
    }

    /// In a queue between operations, every owner is at work on nothing.
    proof fn lemma_settled_owns(&self)
        requires
            self.settled(),
        ensures
            forall|w: int| #[trigger] self.owns_nothing(w),
            forall|crowd: spec_fn(int) -> bool| #[trigger] self.quiet_but(crowd),
    {
        assert forall|w: int| #[trigger] self.owns_nothing(w) by {
            assert forall|a: int, b: int| 0 <= a < self.n() && 0 <= b < BLOCK_CAP implies (
            #[trigger] self.reader(a, b)).owner() != Some(w) by {
                assert(self.reader(a, b) == Stage::Quiet);
            }
        }
        assert forall|crowd: spec_fn(int) -> bool| #[trigger] self.quiet_but(crowd) by {
            assert forall|a: int, b: int| 0 <= a < self.n() && 0 <= b < BLOCK_CAP implies ((
            #[trigger] self.reader(a, b)).owner() matches Some(x) ==> crowd(x)) by {
                assert(self.reader(a, b) == Stage::Quiet);
            }
        }
    }

    /// Where all the owners that may be at work have no operation, nobody is
    /// at work.
    proof fn lemma_idle_settled(&self, ops: Seq<Op<T>>)
        requires
            self.quiet_but(|w: int| 0 <= w < ops.len()),
            forall|w: int| 0 <= w < ops.len() ==> #[trigger] self.op_ok(w, ops[w]),
            forall|w: int| 0 <= w < ops.len() ==> (#[trigger] ops[w]) is Idle,
        ensures
            self.settled(),
    {
        assert forall|k: int, j: int| 0 <= k < self.n() && 0 <= j < BLOCK_CAP implies (
        #[trigger] self.writer(k, j)) is None by {
            if let Some(w) = self.writer(k, j) {
                assert(self.op_ok(w, ops[w]));
            }
        }
        assert forall|k: int, j: int| 0 <= k < self.n() && 0 <= j < BLOCK_CAP implies (
        #[trigger] self.reader(k, j)) == Stage::Quiet by {
            if let Some(w) = self.reader(k, j).owner() {
                assert(self.op_ok(w, ops[w]));
            }
        }
        assert forall|k: int| 0 <= k < self.n() implies (#[trigger] self.passing(k)) is None by {
            if let Some(w) = self.passing(k) {
                assert(self.op_ok(w, ops[w]));
            }
        }
    }

    /// When the only operation under way is done, nobody is at work.
    proof fn lemma_alone_settled(&self, who: int, op: Op<T>)
        requires
            self.op_ok(who, op),
            self.alone(who, op),
            op.is_done(),
        ensures
            self.settled(),
    {
        assert((|w: int| w == who)(who));
        assert forall|k: int, j: int| 0 <= k < self.n() && 0 <= j < BLOCK_CAP implies (
        #[trigger] self.writer(k, j)) is None by {}
        assert forall|k: int, j: int| 0 <= k < self.n() && 0 <= j < BLOCK_CAP implies (
        #[trigger] self.reader(k, j)) == Stage::Quiet by {}
        assert forall|k: int| 0 <= k < self.n() implies (#[trigger] self.passing(k)) is None by {}
    }

    /// When the only operation under way has made a step, it is still alone,
    /// and nearer to its end.
    #[verifier::rlimit(60)]
    proof fn lemma_alone_after(
        &self,
        pre: Self,
        who: int,
        op: Op<T>,
        supplied: bool,
        next: Op<T>,
    )
        requires
            pre.inv(),
            pre.op_ok(who, op),
            pre.alone(who, op),
            !op.is_done(),
            !(op is Idle),
            Self::step_post(pre, *self, who, op, supplied, next),
        ensures
            self.alone(who, next),
            self.measure(next) < pre.measure(op),
    {
        reveal(UnboundedSegmentQueue::leaves_others);
        pre.lemma_alone_next(who, op, supplied);
        assert((|w: int| w == who)(who));
        assert(self.quiet_but(|w: int| w == who));
        pre.lemma_positions();
        self.lemma_positions();
    }

    /// Runs the operation `first`, alone, from its first step to its last.
    /// Where the operation has to link a segment, it takes `fresh`, or where
    /// there is none and `may_allocate` allows it, asks the allocator.
    #[verifier::rlimit(60)]
    fn run(&mut self, first: Op<T>, fresh: Option<Segment<T>>, may_allocate: bool) -> (done: Op<T>)
        requires
            old(self).wf(),
            first is Push || first is Pop,
            fresh matches Some(s) ==> s.is_fresh(),
        ensures
            final(self).wf(),
            done.is_done(),
            forall|v: T| first.pushes(v) ==> done.pushes(v),
            first.pops() ==> done.pops(),
            done.calls().len() == 1,
            step(old(self)@, done.calls()[0], final(self)@),
            done is Failed ==> old(self).at_end() && !old(self).spare() && (fresh is None
                || !old(self).can_grow()),
            !may_allocate && old(self).at_end() && !old(self).spare() && (fresh is None || !old(
                self,
            ).can_grow()) ==> !(done is Pushed),
    {
        let ghost will_fail = !may_allocate && old(self).at_end() && !old(self).spare() && (fresh
            is None || !old(self).can_grow());
        let ghost given = fresh is Some;
        let mut supply = fresh;
        let mut op = first;
        proof {
            assert((|w: int| w == 0)(0));
            assert(self.quiet_but(|w: int| w == 0));
            assert(self.owns_nothing(0));
        }
        loop
            invariant
                self.inv(),
                self.op_ok(0, op),
                self.alone(0, op),
                !(op is Idle),
                forall|v: T| first.pushes(v) ==> op.pushes(v),
                first.pops() ==> op.pops(),
                op.calls().len() <= 1,
                op.calls().len() == 0 ==> self@ == old(self)@ && !op.is_done(),
                op.calls().len() == 1 ==> step(old(self)@, op.calls()[0], self@),
                supply matches Some(s) ==> s.is_fresh(),
                given == (fresh is Some),
                will_fail == (!may_allocate && old(self).at_end() && !old(self).spare() && (fresh
                    is None || !old(self).can_grow())),
                // Before a segment is linked, the queue's end is as it was.
                op is Push || op is PushTail || (op matches Op::PushNext { linked, .. } && !linked)
                    ==> self.at_end() == old(self).at_end() && self.spare() == old(self).spare()
                    && self.can_grow() == old(self).can_grow() && (supply is Some) == given,
                op is PushNext ==> old(self).at_end(),
                op is Failed ==> old(self).at_end() && !old(self).spare() && (!given || !old(
                    self,
                ).can_grow()),
                will_fail ==> op.pushes_still() || op is Failed || first is Pop,
                will_fail && op.pushes_still() ==> self.at_end() == old(self).at_end()
                    && self.spare() == old(self).spare() && self.can_grow() == old(
                    self,
                ).can_grow() && (supply is Some) == given,
            decreases self.measure(op),
        {
            op =
            match op {
                Op::Pushed { value } => {
                    proof {
                        self.lemma_alone_settled(0, Op::Pushed { value });
                    }
                    return Op::Pushed { value };
                },
                Op::Failed { value } => {
                    proof {
                        self.lemma_alone_settled(0, Op::Failed { value });
                    }
                    return Op::Failed { value };
                },
                Op::Popped { result } => {
                    proof {
                        self.lemma_alone_settled(0, Op::Popped { result });
                    }
                    return Op::Popped { result };
                },
                other => {
                    let needs = match &other {
                        Op::PushNext { linked, .. } => !*linked,
                        _ => false,
                    };
                    let give = if needs {
                        if supply.is_some() {
                            supply.take()
                        } else if may_allocate {
                            Segment::allocate()
                        } else {
                            None
                        }
                    } else {
                        None
                    };
                    let ghost pre = *self;
                    let ghost supplied = give is Some;
                    proof {
                        self.lemma_alone_fresh(0, other);
                        self.lemma_alone_next(0, other, supplied);
                    }
                    let next = self.step(0, other, give);
                    proof {
                        self.lemma_alone_after(pre, 0, other, supplied, next);
                    }
                    next
                },
            };
        }
    }

    /// Puts `value` at the back of the queue. The queue takes any number of
    /// elements; `value` comes back only if a new segment was needed and the
    /// allocator refused it.
    pub fn push(&mut self, value: T) -> (r: Result<(), T>)
        requires
            old(self).wf(),
        ensures
            final(self).wf(),
            !old(self).at_end() || old(self).spare() ==> r is Ok,
            r is Ok ==> final(self)@ == old(self)@.push(value),
            r is Err ==> r == Err::<(), T>(value) && final(self)@ == old(self)@,
            step(old(self)@, (Call::Push { value, accepted: r is Ok }), final(self)@),
    {
        let ghost v = value;
        let done = self.run(Op::Push { value }, None, true);
        proof {
            assert(Op::Push { value: v }.pushes(v));
        }
        match done {
            Op::Failed { value } => Err(value),
            _ => Ok(()),
        }
    }

    /// Puts `value` at the back of the queue, linking `fresh` to the chain
    /// where a new segment is needed. `fresh` is what the allocator gave:
    /// `None` is its refusal. The value comes back exactly where a segment
    /// is needed and there is none to link, or the chain cannot grow.
    pub fn push_with(&mut self, value: T, fresh: Option<Segment<T>>) -> (r: Result<(), T>)
        requires
            old(self).wf(),
            fresh matches Some(s) ==> s.is_fresh(),
        ensures
            final(self).wf(),
            r is Err <==> old(self).at_end() && !old(self).spare() && (fresh is None || !old(
                self,
            ).can_grow()),
            r is Ok ==> final(self)@ == old(self)@.push(value),
            r is Err ==> r == Err::<(), T>(value) && final(self)@ == old(self)@,
            step(old(self)@, (Call::Push { value, accepted: r is Ok }), final(self)@),
    {
        let ghost v = value;
        let done = self.run(Op::Push { value }, fresh, false);
        proof {
            assert(Op::Push { value: v }.pushes(v));
        }
        match done {
            Op::Failed { value } => Err(value),
            _ => Ok(()),
        }
    }

    /// Takes the oldest element out of the queue, if there is one.
    pub fn pop(&mut self) -> (r: Option<T>)
        requires
            old(self).wf(),
        ensures
            final(self).wf(),
            old(self)@.len() == 0 ==> r is None && final(self)@ == old(self)@,
            old(self)@.len() > 0 ==> r == Some(old(self)@[0]) && final(self)@ == old(
                self,
            )@.subrange(1, old(self)@.len() as int),
            step(old(self)@, (Call::Pop { taken: r }), final(self)@),
    {
        match self.run(Op::Pop, None, false) {
            Op::Popped { result } => result,
            _ => None,
        }
    }

    /// Takes every element out of the queue, oldest first.
    pub fn drain(&mut self) -> (taken: Vec<T>)
        requires
            old(self).wf(),
        ensures
            final(self).wf(),
            taken@ == old(self)@,
            final(self)@ == Seq::<T>::empty(),
    {
        let mut taken: Vec<T> = Vec::new();
        loop
            invariant
                self.wf(),
                taken@ + self@ == old(self)@,
            ensures
                self@.len() == 0,
            decreases self@.len(),
        {
            match self.pop() {
                Some(element) => {
                    taken.push(element);
                },
                None => {
                    break ;
                },
            }
        }
        assert(taken@ =~= old(self)@);
        assert(self@ =~= Seq::<T>::empty());
        taken
    }
}

/// What an operation returned.
#[derive(Debug, PartialEq, Eq)]
pub enum Outcome<T> {
    /// The push put its value into the queue.
    Pushed,
    /// The push needed a new segment and the allocator refused; its value
    /// comes back.
    Failed(T),
    /// The pop took this element, or found the queue empty.
    Popped(Option<T>),
}

/// What an operation that is done returns.
pub open spec fn outcome_of<T>(op: Op<T>) -> Option<Outcome<T>> {
    match op {
        Op::Pushed { .. } => Some(Outcome::Pushed),
        Op::Failed { value } => Some(Outcome::Failed(value)),
        Op::Popped { result } => Some(Outcome::Popped(result)),
        _ => None,
    }
}

/// A segment queue with the operations that its owners have under way: one
/// for each owner at most, each between two of its steps.
///
/// Whoever holds the interleaving decides whose step comes next, so it can
/// make the operations take turns in any order. It keeps the list of the
/// calls in the order in which they took effect, which is a run in the
/// sense of [`crate::history`] whatever the order of the steps was.
pub struct Interleaving<T> {
    queue: UnboundedSegmentQueue<T>,
    ops: Vec<Op<T>>,
    seen: Vec<u64>,
    popped: Vec<u64>,
    pushes: u64,
    pops: u64,
    head_moves: u64,
    origin: Ghost<nat>,
    moves_origin: Ghost<nat>,
    log: Ghost<Seq<Call<T>>>,
    states: Ghost<Seq<Seq<T>>>,
}

impl<T> View for Interleaving<T> {
    type V = Seq<T>;

    /// The elements in the queue, oldest first.
    closed spec fn view(&self) -> Seq<T> {
        self.queue@
    }
}

impl<T> Interleaving<T> {
    /// What is kept for the owner `w` fits the queue: the queue keeps what
    /// the owner's operation relies on, and the counts noted when the
    /// operation loaded a position are the ones that the operation
    /// remembers.
    spec fn owner_ok(&self, w: int) -> bool {
        &&& self.queue.op_ok(w, self.ops[w])
        &&& match self.ops[w] {
            Op::PushTail { seen, .. } => seen@ == self.origin@ + self.seen[w],
            Op::PushNext { seen, .. } => seen@ == self.origin@ + self.seen[w],
            Op::PopHead { seen, popped, .. } => seen@ == self.moves_origin@ + self.seen[w]
                && popped@ == self.origin@ + self.popped[w],
            Op::PopReady { seen, .. } => seen@ == self.moves_origin@ + self.seen[w],
            _ => true,
        }
    }

    /// The invariant: the queue's invariant holds, every operation under way
    /// can rely on what it relies on, and the calls listed are a run that
    /// ends with what the queue holds.
    pub closed spec fn inv(&self) -> bool {
        &&& self.queue.inv()
        &&& self.seen.len() == self.ops.len()
        &&& self.popped.len() == self.ops.len()
        &&& self.queue.ledger@.pushes == self.origin@ + self.pushes
        &&& self.queue.ledger@.pops == self.origin@ + self.pops
        &&& self.queue.ledger@.head_moves == self.moves_origin@ + self.head_moves
        &&& self.pops <= self.head_moves
        &&& forall|w: int| 0 <= w < self.ops.len() ==> #[trigger] self.owner_ok(w)
        &&& self.queue.quiet_but(|w: int| 0 <= w < self.ops.len())
        &&& is_run(self.states@, self.log@)
        &&& self.states@.last() == self.queue@
    }

    /// The number of owners.
    pub closed spec fn owners(&self) -> nat {
        self.ops.len() as nat
    }

    /// The operation of owner `who`.
    pub closed spec fn op(&self, who: int) -> Op<T> {
        self.ops[who]
    }

    /// The calls that have taken effect, in the order in which they did.
    pub closed spec fn log(&self) -> Seq<Call<T>> {
        self.log@
    }

    /// What the queue held at first and after each call of the log.
    pub closed spec fn states(&self) -> Seq<Seq<T>> {
        self.states@
    }

    /// How often a position of the queue has moved since the interleaving
    /// was made.
    pub closed spec fn moves(&self) -> nat {
        self.pushes as nat + self.head_moves as nat
    }

    /// The counts of moves have not reached the end of their range.
    pub closed spec fn in_range(&self) -> bool {
        self.pushes < u64::MAX && self.pops < u64::MAX && self.head_moves < u64::MAX
    }

    /// The words that the operation of owner `who` has loaded can be told
    /// from the positions as they are now: where one of them equals a
    /// position now, or is the address of the newest segment now, the
    /// position has not gone round the whole word in between.
    pub closed spec fn told(&self, who: int) -> bool {
        self.queue.fresh(self.ops[who])
    }

    /// What the operation of owner `who` is after its next step. `supplied`
    /// says whether the allocator gives a segment where the step asks for
    /// one.
    pub closed spec fn after_step(&self, who: int, supplied: bool) -> Op<T> {
        self.queue.stepped(self.ops[who], supplied)
    }

    /// The next step of the operation of owner `who` asks the allocator for
    /// a segment: the operation has found no segment linked behind the
    /// tail's.
    pub open spec fn asks(&self, who: int) -> bool {
        self.op(who) matches Op::PushNext { linked, .. } && !linked
    }

    /// The operation of owner `who` can make a step: the owner has an
    /// operation that is not done, and the step can be judged.
    pub open spec fn can_step(&self, who: int) -> bool {
        &&& 0 <= who < self.owners()
        &&& !(self.op(who) is Idle)
        &&& !self.op(who).is_done()
        &&& self.in_range()
        &&& self.told(who)
    }

    /// The counts are in range as long as the positions have moved less
    /// often than a count can tell.
    pub proof fn lemma_in_range(&self)
        requires
            self.inv(),
            self.moves() < u64::MAX,
        ensures
            self.in_range(),
    {
    }

    /// The order of an operation's steps: where each step leaves the
    /// operation. A step keeps the operation's kind and value, and adds no
    /// more than one call to those that the operation has taken effect as.
    /// What the allocator gives matters to the step that asks it, and to no
    /// other.
    pub proof fn lemma_after_step(&self, who: int, supplied: bool)
        requires
            self.inv(),
            0 <= who < self.owners(),
        ensures
            forall|v: T| self.op(who).pushes(v) ==> self.after_step(who, supplied).pushes(v),
            self.op(who).pops() ==> self.after_step(who, supplied).pops(),
            self.op(who).calls().is_prefix_of(self.after_step(who, supplied).calls()),
            self.after_step(who, supplied).calls().len() <= self.op(who).calls().len() + 1,
            !self.asks(who) ==> self.after_step(who, supplied) == self.after_step(who, !supplied),
            self.op(who) is Idle || self.op(who).is_done() ==> self.after_step(who, supplied)
                == self.op(who),
            self.op(who) is Push ==> self.after_step(who, supplied) is PushTail,
            self.op(who) is PushTail ==> self.after_step(who, supplied) is PushClaimed
                || self.after_step(who, supplied) is PushTail || self.after_step(who, supplied)
                is PushNext || self.after_step(who, supplied) is Push,
            self.op(who) is PushNext ==> self.after_step(who, supplied) is PushClaimed
                || self.after_step(who, supplied) is PushTail || self.after_step(who, supplied)
                is PushNext || self.after_step(who, supplied) is Failed || self.after_step(
                who,
                supplied,
            ) is Push,
            self.after_step(who, supplied) is Failed ==> self.asks(who) || self.op(who) is Failed,
            self.op(who) is PushClaimed ==> self.after_step(who, supplied) is PushWritten,
            self.op(who) is PushWritten ==> self.after_step(who, supplied) is Pushed,
            self.op(who) is Pop ==> self.after_step(who, supplied) is PopHead,
            self.op(who) is PopHead ==> self.after_step(who, supplied) is PopReady
                || self.after_step(who, supplied) is Popped,
            self.op(who) is PopReady ==> self.after_step(who, supplied) is PopClaimed
                || self.after_step(who, supplied) is PopPassed || self.after_step(who, supplied)
                is PopHead || self.after_step(who, supplied) is Pop,
            self.op(who) is PopPassed ==> self.after_step(who, supplied) is Pop,
            self.op(who) is PopClaimed ==> self.after_step(who, supplied) is PopTaken
                || self.after_step(who, supplied) == self.op(who),
            self.op(who) is PopTaken ==> self.after_step(who, supplied) is PopMarked,
            self.op(who) is PopMarked ==> self.after_step(who, supplied) is Popped,
    {
        assert(self.owner_ok(who));
        self.queue.lemma_step_kind(who, self.ops[who], supplied);
    }

    /// An operation that has made no step, or has claimed its cell, has no
    /// word to be told.
    pub proof fn lemma_told(&self, who: int)
        requires
            !(self.op(who) is PushTail),
            !(self.op(who) is PushNext),
            !(self.op(who) is PopHead),
            !(self.op(who) is PopReady),
        ensures
            self.told(who),
    {
    }

    /// The laws of [`crate::history`] for the calls in the order in which
    /// they took effect, whatever the order of the steps was.
    ///
    /// * First in, first out: what has left the queue, followed by what the
    ///   queue holds, is what the queue took, in that order; and so for the
    ///   elements of each producer.
    /// * Conservation: what was popped and what the queue holds are
    ///   together, as multisets, what the queue took.
    pub proof fn lemma_laws(&self, from: spec_fn(T) -> bool)
        requires
            self.inv(),
        ensures
            is_run(self.states(), self.log()),
            self.states().last() == self@,
            departed(self.log()) + self@ == accepted(self.log()),
            departed(self.log()).filter(from) + self@.filter(from) == accepted(self.log()).filter(
                from,
            ),
            popped(self.log()).to_multiset().add(evicted(self.log()).to_multiset()).add(
                self@.to_multiset(),
            ) == accepted(self.log()).to_multiset(),
    {
        lemma_first_in_first_out(self.states(), self.log());
        lemma_first_in_first_out_per_producer(self.states(), self.log(), from);
        lemma_conservation(self.states(), self.log());
    }

    /// An interleaving over an empty queue, for `owners` owners, none of
    /// which has an operation under way.
    pub fn over(queue: UnboundedSegmentQueue<T>, owners: usize) -> (all: Self)
        requires
            queue.wf(),
            queue@.len() == 0,
        ensures
            all.inv(),
            all.owners() == owners,
            all@ == queue@,
            all.log() == Seq::<Call<T>>::empty(),
            all.states() == seq![queue@],
            all.moves() == 0,
            forall|w: int| 0 <= w < owners ==> all.op(w) == Op::<T>::Idle,
    {
        let mut ops: Vec<Op<T>> = Vec::new();
        let mut seen: Vec<u64> = Vec::new();
        let mut popped: Vec<u64> = Vec::new();
        let mut w: usize = 0;
        while w < owners
            invariant
                w <= owners,
                ops.len() == w,
                seen.len() == w,
                popped.len() == w,
                forall|j: int| 0 <= j < w ==> ops[j] == Op::<T>::Idle,
            decreases owners - w,
        {
            ops.push(Op::Idle);
            seen.push(0);
            popped.push(0);
            w += 1;
        }
        let ghost origin = queue.ledger@.pushes;
        let ghost moves_origin = queue.ledger@.head_moves;
        let ghost states = seq![queue@];
        let all = Interleaving {
            queue,
            ops,
            seen,
            popped,
            pushes: 0,
            pops: 0,
            head_moves: 0,
            origin: Ghost(origin),
            moves_origin: Ghost(moves_origin),
            log: Ghost(Seq::empty()),
            states: Ghost(states),
        };
        proof {
            all.queue.lemma_positions();
            assert(all.states@[0] =~= Seq::<T>::empty());
            all.queue.lemma_settled_owns();
            assert forall|w: int| 0 <= w < all.ops.len() implies #[trigger] all.owner_ok(w) by {
                assert(all.ops[w] == Op::<T>::Idle);
            }
        }
        all
    }

    /// The number of owners.
    pub fn owner_count(&self) -> (n: usize)
        ensures
            n == self.owners(),
    {
        self.ops.len()
    }

    /// The number of elements in the queue.
    pub fn len(&self) -> (n: usize)
        requires
            self.inv(),
        ensures
            n == self@.len(),
    {
        self.queue.len()
    }

    /// Whether owner `who` has no operation.
    pub fn is_idle(&self, who: usize) -> (b: bool)
        ensures
            b <==> who < self.owners() && self.op(who as int) is Idle,
    {
        if who >= self.ops.len() {
            return false;
        }
        match &self.ops[who] {
            Op::Idle => true,
            _ => false,
        }
    }

    /// Whether the operation of owner `who` has made its last step.
    pub fn is_done(&self, who: usize) -> (b: bool)
        ensures
            b <==> who < self.owners() && self.op(who as int).is_done(),
    {
        if who >= self.ops.len() {
            return false;
        }
        match &self.ops[who] {
            Op::Pushed { .. } => true,
            Op::Failed { .. } => true,
            Op::Popped { .. } => true,
            _ => false,
        }
    }

    /// Gives owner `who`, if it has no operation, the operation `first`,
    /// which has made no step yet.
    fn begin(&mut self, who: usize, first: Op<T>) -> (r: Result<(), Op<T>>)
        requires
            old(self).inv(),
            first is Push || first is Pop,
        ensures
            final(self).inv(),
            final(self).owners() == old(self).owners(),
            final(self)@ == old(self)@,
            final(self).log() == old(self).log(),
            final(self).states() == old(self).states(),
            final(self).moves() == old(self).moves(),
            forall|w: int|
                0 <= w < old(self).owners() && w != who ==> final(self).op(w) == old(self).op(w),
            r is Ok <==> who < old(self).owners() && old(self).op(who as int) is Idle,
            r is Ok ==> final(self).op(who as int) == first,
            r matches Err(back) ==> back == first && (who < old(self).owners() ==> final(self).op(
                who as int,
            ) == old(self).op(who as int)),
    {
        if !self.is_idle(who) {
            return Err(first);
        }
        proof {
            assert(self.owner_ok(who as int));
        }
        self.ops[who] = first;
        proof {
            let pre = *old(self);
            assert forall|w: int| 0 <= w < self.ops.len() implies #[trigger] self.owner_ok(w) by {
                assert(pre.owner_ok(w));
            }
        }
        Ok(())
    }

    /// Owner `who` starts a push of `value`. The value comes back if the
    /// owner is unknown or has an operation already.
    pub fn begin_push(&mut self, who: usize, value: T) -> (r: Result<(), T>)
        requires
            old(self).inv(),
        ensures
            final(self).inv(),
            final(self).owners() == old(self).owners(),
            final(self)@ == old(self)@,
            final(self).log() == old(self).log(),
            final(self).states() == old(self).states(),
            final(self).moves() == old(self).moves(),
            forall|w: int|
                0 <= w < old(self).owners() && w != who ==> final(self).op(w) == old(self).op(w),
            r is Ok <==> who < old(self).owners() && old(self).op(who as int) is Idle,
            r is Ok ==> final(self).op(who as int) == (Op::Push { value }),
            r is Err ==> r == Err::<(), T>(value) && (who < old(self).owners() ==> final(self).op(
                who as int,
            ) == old(self).op(who as int)),
    {
        match self.begin(who, Op::Push { value }) {
            Ok(_) => Ok(()),
            Err(Op::Push { value }) => Err(value),
            Err(_) => Ok(()),
        }
    }

    /// Owner `who` starts a pop. Returns whether it did: not if the owner is
    /// unknown or has an operation already.
    pub fn begin_pop(&mut self, who: usize) -> (started: bool)
        requires
            old(self).inv(),
        ensures
            final(self).inv(),
            final(self).owners() == old(self).owners(),
            final(self)@ == old(self)@,
            final(self).log() == old(self).log(),
            final(self).states() == old(self).states(),
            final(self).moves() == old(self).moves(),
            forall|w: int|
                0 <= w < old(self).owners() && w != who ==> final(self).op(w) == old(self).op(w),
            started <==> who < old(self).owners() && old(self).op(who as int) is Idle,
            started ==> final(self).op(who as int) == Op::<T>::Pop,
            !started && who < old(self).owners() ==> final(self).op(who as int) == old(self).op(
                who as int,
            ),
    {
        self.begin(who, Op::Pop).is_ok()
    }

    /// Takes the result of the operation of owner `who`, if that operation
    /// is done. The owner is then without an operation.
    pub fn finish(&mut self, who: usize) -> (r: Option<Outcome<T>>)
        requires
            old(self).inv(),
        ensures
            final(self).inv(),
            final(self).owners() == old(self).owners(),
            final(self)@ == old(self)@,
            final(self).log() == old(self).log(),
            final(self).states() == old(self).states(),
            final(self).moves() == old(self).moves(),
            forall|w: int|
                0 <= w < old(self).owners() && w != who ==> final(self).op(w) == old(self).op(w),
            r is Some <==> who < old(self).owners() && old(self).op(who as int).is_done(),
            r is Some ==> r == outcome_of(old(self).op(who as int)) && final(self).op(who as int)
                is Idle,
            r is None && who < old(self).owners() ==> final(self).op(who as int) == old(self).op(
                who as int,
            ),
    {
        if !self.is_done(who) {
            return None;
        }
        proof {
            assert(self.owner_ok(who as int));
        }
        let mut op = Op::Idle;
        core::mem::swap(&mut self.ops[who], &mut op);
        proof {
            let pre = *old(self);
            assert forall|w: int| 0 <= w < self.ops.len() implies #[trigger] self.owner_ok(w) by {
                assert(pre.owner_ok(w));
            }
        }
        match op {
            Op::Pushed { .. } => Some(Outcome::Pushed),
            Op::Failed { value } => Some(Outcome::Failed(value)),
            Op::Popped { result } => Some(Outcome::Popped(result)),
            _ => None,
        }
    }

    /// Whether the words that the operation `op` has loaded can be told from
    /// the positions as they are now, whenever they are older.
    #[verifier::rlimit(60)]
    fn can_tell(&self, who: usize, op: &Op<T>) -> (b: bool)
        requires
            self.inv(),
            who < self.ops.len(),
            self.queue.op_ok(who as int, *op),
            match *op {
                Op::PushTail { seen, .. } => seen@ == self.origin@ + self.seen[who as int],
                Op::PushNext { seen, .. } => seen@ == self.origin@ + self.seen[who as int],
                Op::PopHead { seen, popped, .. } => seen@ == self.moves_origin@
                    + self.seen[who as int] && popped@ == self.origin@ + self.popped[who as int],
                Op::PopReady { seen, .. } => seen@ == self.moves_origin@ + self.seen[who as int],
                _ => true,
            },
        ensures
            b <==> self.queue.fresh(*op),
    {
        proof {
            self.queue.lemma_positions();
            self.queue.lemma_places(self.queue.n() - 1);
            lemma_split(self.queue.tail@, STRIDE);
        }
        let noted = self.seen[who];
        match op {
            Op::PushTail { tail, .. } => {
                self.queue.tail.load(MemOrder::Relaxed) != *tail || noted == self.pushes
            },
            Op::PushNext { tail, linked, .. } => {
                let at_tail = self.queue.tail.load(MemOrder::Relaxed) == *tail;
                let last = if self.queue.chain.len() == 0 {
                    self.queue.origin.wrapping_sub(STRIDE)
                } else {
                    self.queue.origin.wrapping_add((self.queue.chain.len() - 1) * STRIDE)
                };
                let at_last = !*linked && lap_of(*tail, STRIDE) == last;
                (!at_tail || noted == self.pushes) && (!at_last || noted == self.pushes)
            },
            Op::PopHead { head, .. } => {
                let tail = self.queue.tail.load(MemOrder::Relaxed);
                proof {
                    let h = *head;
                    assert(h >> 1 == h / 2) by (bit_vector);
                    assert(tail >> 1 == tail / 2) by (bit_vector);
                }
                tail >> SHIFT != *head >> SHIFT || self.popped[who] == self.pushes
            },
            Op::PopReady { head, .. } => {
                self.queue.head.load(MemOrder::Relaxed) != *head || noted == self.head_moves
            },
            _ => true,
        }
    }

    /// Makes the next step of the operation of owner `who`. Returns whether
    /// a step was made. None is made if the owner is unknown, has no
    /// operation or one that is done, or if the step cannot be judged: a
    /// word that the operation loaded earlier equals a position that has
    /// gone round the whole word since, or a count of moves has reached the
    /// end of its range.
    #[verifier::rlimit(60)]
    pub fn step(&mut self, who: usize) -> (moved: bool)
        requires
            old(self).inv(),
        ensures
            final(self).inv(),
            final(self).owners() == old(self).owners(),
            forall|w: int|
                0 <= w < old(self).owners() && w != who ==> final(self).op(w) == old(self).op(w),
            // A step is made exactly where one can be made, and makes of the
            // operation what its next step makes of it, with or without a
            // segment from the allocator.
            moved <==> old(self).can_step(who as int),
            moved ==> final(self).op(who as int) == old(self).after_step(who as int, true)
                || final(self).op(who as int) == old(self).after_step(who as int, false),
            !moved ==> final(self)@ == old(self)@ && final(self).log() == old(self).log()
                && final(self).states() == old(self).states() && final(self).moves() == old(
                self,
            ).moves() && (who < old(self).owners() ==> final(self).op(who as int) == old(self).op(
                who as int,
            )),
            final(self).moves() <= old(self).moves() + 1,
            // The queue's contents change in the step in which the operation
            // takes effect, as that call says, and in no other.
            moved && final(self).op(who as int).calls().len() == old(self).op(
                who as int,
            ).calls().len() ==> final(self)@ == old(self)@ && final(self).states() == old(
                self,
            ).states(),
            moved && final(self).op(who as int).calls().len() > old(self).op(
                who as int,
            ).calls().len() ==> final(self).states() == old(self).states().push(final(self)@)
                && step(old(self)@, final(self).op(who as int).calls().last(), final(self)@),
            // The log grows by the calls that the step made the operation
            // take effect as: none or one.
            moved ==> final(self).log() == old(self).log() + final(self).op(
                who as int,
            ).calls().skip(old(self).op(who as int).calls().len() as int),
            moved ==> old(self).op(who as int).calls().is_prefix_of(
                final(self).op(who as int).calls(),
            ),
            moved ==> old(self).op(who as int).calls().len() <= final(self).op(
                who as int,
            ).calls().len() <= old(self).op(who as int).calls().len() + 1,
            // An operation keeps its kind and its value.
            moved ==> (forall|v: T|
                old(self).op(who as int).pushes(v) ==> final(self).op(who as int).pushes(v)),
            moved ==> (old(self).op(who as int).pops() ==> final(self).op(who as int).pops()),
    {
        if who >= self.ops.len() || self.is_idle(who) || self.is_done(who) {
            return false;
        }
        if self.pushes == u64::MAX || self.pops == u64::MAX || self.head_moves == u64::MAX {
            return false;
        }
        proof {
            assert(self.owner_ok(who as int));
        }
        if !self.can_tell(who, &self.ops[who]) {
            return false;
        }
        let mut op = Op::Idle;
        core::mem::swap(&mut self.ops[who], &mut op);
        let at_tail = match &op {
            Op::PushTail { .. } => true,
            Op::PushNext { .. } => true,
            _ => false,
        };
        let at_head = match &op {
            Op::PopReady { .. } => true,
            _ => false,
        };
        let needs = match &op {
            Op::PushNext { linked, .. } => !*linked,
            _ => false,
        };
        let fresh = if needs {
            Segment::allocate()
        } else {
            None
        };
        let ghost before = op;
        let ghost pre = *old(self);
        let ghost supplied = fresh is Some;
        let next = self.queue.step(who, op, fresh);
        match &next {
            Op::PushClaimed { .. } => {
                if at_tail {
                    self.pushes = self.pushes + 1;
                }
            },
            Op::PopClaimed { .. } => {
                if at_head {
                    self.pops = self.pops + 1;
                    self.head_moves = self.head_moves + 1;
                }
            },
            Op::PopPassed { .. } => {
                if at_head {
                    self.head_moves = self.head_moves + 1;
                }
            },
            Op::Pop => {
                if at_head {
                    self.head_moves = self.head_moves + 1;
                }
            },
            Op::PushTail { .. } => {
                self.seen[who] = self.pushes;
            },
            Op::PopHead { .. } => {
                self.seen[who] = self.head_moves;
                self.popped[who] = self.pops;
            },
            _ => {},
        }
        proof {
            pre.queue.lemma_step_kind(who as int, before, supplied);
            if next.calls() != before.calls() {
                self.log@ = pre.log@.push(next.calls().last());
                self.states@ = pre.states@.push(self.queue@);
                assert(next.calls().skip(before.calls().len() as int) =~= seq![
                    next.calls().last(),
                ]);
                assert(self.log@ =~= pre.log@ + next.calls().skip(before.calls().len() as int));
                assert forall|i: int| 0 <= i < self.log@.len() implies step(
                    #[trigger] self.states@[i],
                    self.log@[i],
                    self.states@[i + 1],
                ) by {
                    if i < pre.log@.len() {
                        assert(step(pre.states@[i], pre.log@[i], pre.states@[i + 1]));
                    }
                }
            } else {
                assert(next.calls().skip(before.calls().len() as int) =~= Seq::<Call<T>>::empty());
                assert(self.log@ =~= pre.log@ + next.calls().skip(before.calls().len() as int));
            }
        }
        self.ops[who] = next;
        proof {
            reveal(UnboundedSegmentQueue::leaves_others);
            assert((|w: int| 0 <= w < self.ops.len())(who as int));
            assert(pre.queue.quiet_but(|w: int| 0 <= w < self.ops.len()));
            assert forall|w: int| 0 <= w < self.ops.len() implies #[trigger] self.owner_ok(w) by {
                assert(pre.owner_ok(w));
            }
        }
        true
    }

    /// Gives the queue back. Where no owner has an operation, the queue is
    /// between operations.
    pub fn into_queue(self) -> (queue: UnboundedSegmentQueue<T>)
        requires
            self.inv(),
        ensures
            queue.inv(),
            queue@ == self@,
            (forall|w: int| 0 <= w < self.owners() ==> self.op(w) is Idle) ==> queue.wf(),
    {
        proof {
            if forall|w: int| 0 <= w < self.owners() ==> self.op(w) is Idle {
                assert forall|w: int| 0 <= w < self.ops@.len() implies (#[trigger] self.ops@[w])
                    is Idle by {
                    assert(self.op(w) is Idle);
                }
                assert forall|w: int| 0 <= w < self.ops@.len() implies #[trigger] self.queue.op_ok(
                    w,
                    self.ops@[w],
                ) by {
                    assert(self.owner_ok(w));
                }
                self.queue.lemma_idle_settled(self.ops@);
            }
        }
        self.queue
    }
}

} // verus!
