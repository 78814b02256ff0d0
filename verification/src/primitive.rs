//! The cells that the queues keep their shared state in.
//!
//! The queues never touch a counter, a link or a slot's storage directly: they
//! go through [`AtomicUsize`], [`AtomicPtr`] and [`UnsafeCell`], and name the
//! memory order that each access needs. The cells here are the
//! exclusive-access backend: a write needs `&mut`, so every operation is
//! sequentially consistent by construction and a weak compare-exchange never
//! fails spuriously. The memory orders are checked for legality and otherwise
//! have nothing left to do.
use vstd::prelude::*;

verus! {

/// The memory order requested for one access.
#[derive(Clone, Copy, Debug, PartialEq, Eq, Structural)]
pub enum MemOrder {
    Relaxed,
    Acquire,
    Release,
    AcqRel,
    SeqCst,
}

impl MemOrder {
    /// Orders that a load, or the failure side of a compare-exchange, may use.
    pub open spec fn valid_for_load(self) -> bool {
        self != MemOrder::Release && self != MemOrder::AcqRel
    }

    /// Orders that a store may use.
    pub open spec fn valid_for_store(self) -> bool {
        self != MemOrder::Acquire && self != MemOrder::AcqRel
    }

    /// Orders that a fence may use.
    pub open spec fn valid_for_fence(self) -> bool {
        self != MemOrder::Relaxed
    }
}

/// Storage for one value, reached only through closures so that every access
/// is a single call.
pub struct UnsafeCell<T> {
    data: T,
}

impl<T> View for UnsafeCell<T> {
    type V = T;

    closed spec fn view(&self) -> T {
        self.data
    }
}

impl<T> UnsafeCell<T> {
    /// A cell holding `data`.
    pub fn new(data: T) -> (cell: Self)
        ensures
            cell@ == data,
    {
        UnsafeCell { data }
    }

    /// Runs `f` on the stored value and returns what `f` returns.
    pub fn with<R, F: FnOnce(&T) -> R>(&self, f: F) -> (r: R)
        requires
            call_requires(f, (&self@,)),
        ensures
            call_ensures(f, (&self@,), r),
    {
        f(&self.data)
    }

    /// Runs `f` on the stored value, which `f` may replace, and returns what
    /// `f` returns. The cell afterwards holds what `f` left behind.
    pub fn with_mut<R, F: FnOnce(&mut T) -> R>(&mut self, f: F) -> (r: R)
        requires
            forall|p: &mut T| *p == old(self)@ ==> call_requires(f, (p,)),
        ensures
            exists|p: &mut T|
                *p == old(self)@ && *final(p) == final(self)@ && call_ensures(f, (p,), r),
    {
        f(&mut self.data)
    }
}

/// A counter word.
pub struct AtomicUsize {
    word: usize,
}

impl View for AtomicUsize {
    type V = usize;

    closed spec fn view(&self) -> usize {
        self.word
    }
}

impl AtomicUsize {
    /// A counter holding `x`.
    pub fn new(x: usize) -> (a: Self)
        ensures
            a@ == x,
    {
        AtomicUsize { word: x }
    }

    /// The current value.
    pub fn load(&self, order: MemOrder) -> (v: usize)
        requires
            order.valid_for_load(),
        ensures
            v == self@,
    {
        self.word
    }

    /// Replaces the value.
    pub fn store(&mut self, value: usize, order: MemOrder)
        requires
            order.valid_for_store(),
        ensures
            final(self)@ == value,
    {
        self.word = value;
    }

    /// Replaces the value by `new` if it is `current`. Returns the value found:
    /// `Ok` when it was `current` and the exchange took place, `Err` when it
    /// was not and nothing changed.
    pub fn compare_exchange_weak(
        &mut self,
        current: usize,
        new: usize,
        success: MemOrder,
        failure: MemOrder,
    ) -> (r: Result<usize, usize>)
        requires
            failure.valid_for_load(),
        ensures
            old(self)@ == current ==> r == Ok::<usize, usize>(current) && final(self)@ == new,
            old(self)@ != current ==> r == Err::<usize, usize>(old(self)@) && final(self)@ == old(
                self,
            )@,
    {
        if self.word == current {
            self.word = new;
            Ok(current)
        } else {
            Err(self.word)
        }
    }

    /// Sets every bit of `bits` in the value and returns the value before.
    pub fn fetch_or(&mut self, bits: usize, order: MemOrder) -> (prev: usize)
        ensures
            prev == old(self)@,
            final(self)@ == old(self)@ | bits,
    {
        let prev = self.word;
        self.word = prev | bits;
        prev
    }

    /// Runs `f` on the value, which `f` may replace, and returns what `f`
    /// returns.
    pub fn with_mut<R, F: FnOnce(&mut usize) -> R>(&mut self, f: F) -> (r: R)
        requires
            forall|p: &mut usize| *p == old(self)@ ==> call_requires(f, (p,)),
        ensures
            exists|p: &mut usize|
                *p == old(self)@ && *final(p) == final(self)@ && call_ensures(f, (p,), r),
    {
        f(&mut self.word)
    }
}

/// The address that refers to nothing.
pub const NULL: usize = usize::MAX;

/// A link: the address of a node, or [`NULL`].
pub struct AtomicPtr {
    addr: usize,
}

impl View for AtomicPtr {
    type V = usize;

    closed spec fn view(&self) -> usize {
        self.addr
    }
}

impl AtomicPtr {
    /// A link to `addr`.
    pub fn new(addr: usize) -> (p: Self)
        ensures
            p@ == addr,
    {
        AtomicPtr { addr }
    }

    /// The address the link holds.
    pub fn load(&self, order: MemOrder) -> (addr: usize)
        requires
            order.valid_for_load(),
        ensures
            addr == self@,
    {
        self.addr
    }

    /// Points the link at `addr`.
    pub fn store(&mut self, addr: usize, order: MemOrder)
        requires
            order.valid_for_store(),
        ensures
            final(self)@ == addr,
    {
        self.addr = addr;
    }

    /// Points the link at `new` if it holds `current`. Returns the address
    /// found: `Ok` when the exchange took place, `Err` when nothing changed.
    pub fn compare_exchange(
        &mut self,
        current: usize,
        new: usize,
        success: MemOrder,
        failure: MemOrder,
    ) -> (r: Result<usize, usize>)
        requires
            failure.valid_for_load(),
        ensures
            old(self)@ == current ==> r == Ok::<usize, usize>(current) && final(self)@ == new,
            old(self)@ != current ==> r == Err::<usize, usize>(old(self)@) && final(self)@ == old(
                self,
            )@,
    {
        if self.addr == current {
            self.addr = new;
            Ok(current)
        } else {
            Err(self.addr)
        }
    }

    /// As [`AtomicPtr::compare_exchange`]; on this backend the weak form never
    /// fails without cause.
    pub fn compare_exchange_weak(
        &mut self,
        current: usize,
        new: usize,
        success: MemOrder,
        failure: MemOrder,
    ) -> (r: Result<usize, usize>)
        requires
            failure.valid_for_load(),
        ensures
            old(self)@ == current ==> r == Ok::<usize, usize>(current) && final(self)@ == new,
            old(self)@ != current ==> r == Err::<usize, usize>(old(self)@) && final(self)@ == old(
                self,
            )@,
    {
        self.compare_exchange(current, new, success, failure)
    }

    /// Runs `f` on the address, which `f` may replace, and returns what `f`
    /// returns.
    pub fn with_mut<R, F: FnOnce(&mut usize) -> R>(&mut self, f: F) -> (r: R)
        requires
            forall|p: &mut usize| *p == old(self)@ ==> call_requires(f, (p,)),
        ensures
            exists|p: &mut usize|
                *p == old(self)@ && *final(p) == final(self)@ && call_ensures(f, (p,), r),
    {
        f(&mut self.addr)
    }
}

/// Keeps the accesses before the call ahead of those after it, as `order`
/// asks. Calls `core::sync::atomic::fence`, which panics on `Relaxed`; the
/// contract keeps that order out and claims nothing else.
#[verifier::external_body]
pub(crate) fn fence(order: MemOrder)
    requires
        order.valid_for_fence(),
{
    core::sync::atomic::fence(
        match order {
            MemOrder::Relaxed => core::sync::atomic::Ordering::Relaxed,
            MemOrder::Acquire => core::sync::atomic::Ordering::Acquire,
            MemOrder::Release => core::sync::atomic::Ordering::Release,
            MemOrder::AcqRel => core::sync::atomic::Ordering::AcqRel,
            MemOrder::SeqCst => core::sync::atomic::Ordering::SeqCst,
        },
    );
}

} // verus!
