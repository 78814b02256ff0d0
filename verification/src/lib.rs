//! Two first-in, first-out queues built from the parts that lock-free queues
//! are made of: packed lap-and-index counters, per-slot stamps, chained
//! segments with per-cell state bits.
//!
//! * [`BoundedRingQueue`] has a capacity fixed at construction and rejects, or
//!   on request evicts, when it is full.
//! * [`UnboundedSegmentQueue`] grows by one fixed-size segment at a time.
//!
//! The contracts describe each queue as a mathematical sequence, oldest
//! element first, and the module [`history`] states what follows for whole
//! runs of calls: first in, first out; conservation; no loss and no
//! duplication; bounded occupancy.
//!
//! The queues' memory is reached through the cells of [`primitive`], whose
//! writes need exclusive access. An operation of either queue is a run of
//! steps with one access to the queue each. `push`, `pop` and `force_push`
//! run one operation from its first step to its last; [`ring::Interleaving`]
//! and [`seg_queue::Interleaving`] let the operations of several owners
//! take turns step by step. The invariants hold after every step, in
//! whatever order the steps come, and each operation takes effect in one
//! step.
pub mod history;
pub mod position;
pub mod primitive;
pub mod ring;
pub mod seg_queue;
pub mod storage;

pub use primitive::{AtomicPtr, AtomicUsize, MemOrder, UnsafeCell};
pub use ring::BoundedRingQueue;
pub use seg_queue::UnboundedSegmentQueue;
pub use storage::AllocationFailure;
