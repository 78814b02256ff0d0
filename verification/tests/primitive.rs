//! The cells that the queues keep their state in.

use crossbeam_queue::primitive::NULL;
use crossbeam_queue::{AtomicPtr, AtomicUsize, MemOrder, UnsafeCell};

#[test]
fn unsafe_cell_with_reads_the_value() {
    let cell = UnsafeCell::new(41u32);
    assert_eq!(cell.with(|v: &u32| *v + 1), 42);
    assert_eq!(cell.with(|v: &u32| *v), 41);
}

#[test]
fn unsafe_cell_with_mut_replaces_the_value() {
    let mut cell = UnsafeCell::new(String::from("a"));
    let old_len = cell.with_mut(|v: &mut String| {
        let n = v.len();
        v.push('b');
        n
    });
    assert_eq!(old_len, 1);
    assert_eq!(cell.with(|v: &String| v.clone()), "ab");
}

#[test]
fn unsafe_cell_moves_a_value_in_and_out() {
    let mut cell: UnsafeCell<Option<Vec<u8>>> = UnsafeCell::new(None);
    assert_eq!(cell.with_mut(|p: &mut Option<Vec<u8>>| p.take()), None);
    cell.with_mut(|p: &mut Option<Vec<u8>>| *p = Some(vec![1, 2, 3]));
    assert_eq!(cell.with_mut(|p: &mut Option<Vec<u8>>| p.take()), Some(vec![1, 2, 3]));
    assert_eq!(cell.with(|p: &Option<Vec<u8>>| p.is_none()), true);
}

#[test]
fn atomic_usize_load_and_store() {
    let mut a = AtomicUsize::new(7);
    assert_eq!(a.load(MemOrder::Relaxed), 7);
    assert_eq!(a.load(MemOrder::Acquire), 7);
    assert_eq!(a.load(MemOrder::SeqCst), 7);
    a.store(9, MemOrder::Release);
    assert_eq!(a.load(MemOrder::SeqCst), 9);
    a.store(usize::MAX, MemOrder::Relaxed);
    assert_eq!(a.load(MemOrder::SeqCst), usize::MAX);
}

#[test]
fn atomic_usize_compare_exchange_weak() {
    let mut a = AtomicUsize::new(5);
    // The value is the expected one: the exchange takes place.
    assert_eq!(
        a.compare_exchange_weak(5, 6, MemOrder::SeqCst, MemOrder::Relaxed),
        Ok(5)
    );
    assert_eq!(a.load(MemOrder::SeqCst), 6);
    // The value is another one: nothing changes, and the value found comes
    // back.
    assert_eq!(
        a.compare_exchange_weak(5, 7, MemOrder::SeqCst, MemOrder::Acquire),
        Err(6)
    );
    assert_eq!(a.load(MemOrder::SeqCst), 6);
    // An exchange of a value for itself.
    assert_eq!(
        a.compare_exchange_weak(6, 6, MemOrder::Release, MemOrder::Relaxed),
        Ok(6)
    );
    assert_eq!(a.load(MemOrder::SeqCst), 6);
}

#[test]
fn atomic_usize_fetch_or() {
    let mut a = AtomicUsize::new(0b0101);
    assert_eq!(a.fetch_or(0b0011, MemOrder::AcqRel), 0b0101);
    assert_eq!(a.load(MemOrder::SeqCst), 0b0111);
    assert_eq!(a.fetch_or(0, MemOrder::Release), 0b0111);
    assert_eq!(a.load(MemOrder::SeqCst), 0b0111);
    assert_eq!(a.fetch_or(1 << 31, MemOrder::SeqCst), 0b0111);
    assert_eq!(a.load(MemOrder::SeqCst), 0b0111 | (1 << 31));
}

#[test]
fn atomic_usize_with_mut() {
    let mut a = AtomicUsize::new(10);
    let before = a.with_mut(|v: &mut usize| {
        let before = *v;
        *v += 5;
        before
    });
    assert_eq!(before, 10);
    assert_eq!(a.load(MemOrder::SeqCst), 15);
}

#[test]
fn atomic_ptr_load_store_and_exchange() {
    let mut p = AtomicPtr::new(NULL);
    assert_eq!(p.load(MemOrder::Acquire), NULL);
    // A link is installed once: the second attempt finds the first one's
    // address.
    assert_eq!(
        p.compare_exchange(NULL, 64, MemOrder::Release, MemOrder::Acquire),
        Ok(NULL)
    );
    assert_eq!(
        p.compare_exchange(NULL, 128, MemOrder::Release, MemOrder::Acquire),
        Err(64)
    );
    assert_eq!(p.load(MemOrder::Acquire), 64);
    assert_eq!(
        p.compare_exchange_weak(64, 128, MemOrder::SeqCst, MemOrder::Relaxed),
        Ok(64)
    );
    assert_eq!(
        p.compare_exchange_weak(64, 192, MemOrder::SeqCst, MemOrder::Relaxed),
        Err(128)
    );
    p.store(0, MemOrder::Release);
    assert_eq!(p.load(MemOrder::Relaxed), 0);
}

#[test]
fn atomic_ptr_with_mut() {
    let mut p = AtomicPtr::new(64);
    let was = p.with_mut(|a: &mut usize| {
        let was = *a;
        *a = NULL;
        was
    });
    assert_eq!(was, 64);
    assert_eq!(p.load(MemOrder::SeqCst), NULL);
}

#[test]
fn null_is_no_segment_address() {
    // Segment addresses are multiples of the segment stride.
    assert_eq!(NULL, usize::MAX);
    assert_ne!(NULL % 64, 0);
}
