//! Getting memory, and being told that there is none.
use vstd::prelude::*;

verus! {

/// The allocator had no memory for what was asked.
#[derive(Clone, Copy, Debug, PartialEq, Eq, Structural)]
pub struct AllocationFailure;

/// Asks the allocator for room for `n` values. Returns an empty vector that
/// can take `n` values without asking again, or `None` if the allocator
/// refused.
pub fn reserve<T>(n: usize) -> (r: Option<Vec<T>>)
    ensures
        r matches Some(v) ==> v@.len() == 0,
{
    let mut v: Vec<T> = Vec::new();
    let answer = v.try_reserve(n);
    granted(v, answer)
}

/// What the allocator's answer makes of the vector that asked for room: the
/// vector where the allocator gave the room, nothing where it refused.
pub fn granted<T>(v: Vec<T>, answer: Result<(), std::collections::TryReserveError>) -> (r: Option<
    Vec<T>,
>)
    ensures
        r == (if answer is Ok {
            Some(v)
        } else {
            None::<Vec<T>>
        }),
{
    match answer {
        Ok(_) => Some(v),
        Err(_) => None,
    }
}

} // verus!
