//! What holds of whole runs.
//!
//! A run is a list of calls on one queue, each with what it returned, from the
//! empty queue on. The calls may come from any number of producers and
//! consumers, in any order: each call is one indivisible step. The contracts
//! of the queues' operations say of each call that it is a [`step`] (and, for
//! the bounded queue, a [`bounded_step`]); the laws below follow for every
//! run.
use vstd::multiset::Multiset;
use vstd::prelude::*;
use vstd::seq_lib::to_multiset_build;

verus! {

/// One call on a queue, with its result.
pub enum Call<T> {
    /// A push of `value`, which the queue took or handed back.
    Push { value: T, accepted: bool },
    /// A forced push of `value`, with the element that made room for it, if
    /// one had to.
    ForcePush { value: T, evicted: Option<T> },
    /// A pop, with the element it got, if any.
    Pop { taken: Option<T> },
}

/// The oldest element of `q`, if `q` has one.
pub open spec fn first<T>(q: Seq<T>) -> Option<T> {
    if q.len() > 0 {
        Some(q[0])
    } else {
        None
    }
}

/// `q` without its oldest element.
pub open spec fn rest<T>(q: Seq<T>) -> Seq<T> {
    if q.len() > 0 {
        q.subrange(1, q.len() as int)
    } else {
        q
    }
}

/// The call, made on a queue that held `before`, left `after` and returned
/// what a first-in, first-out queue returns: a pop takes the oldest element
/// or finds the queue empty, an eviction takes the oldest element, and a
/// push that was accepted adds its value at the back.
pub open spec fn step<T>(before: Seq<T>, call: Call<T>, after: Seq<T>) -> bool {
    match call {
        Call::Push { value, accepted } => after == (if accepted {
            before.push(value)
        } else {
            before
        }),
        Call::ForcePush { value, evicted } => (evicted is Some ==> evicted == first(before))
            && after == (if evicted is Some {
            rest(before).push(value)
        } else {
            before.push(value)
        }),
        Call::Pop { taken } => taken == first(before) && after == rest(before),
    }
}

/// The call is a [`step`] of a queue of capacity `cap`: a push is accepted
/// exactly when there is room, and a forced push evicts exactly when there
/// is none.
pub open spec fn bounded_step<T>(cap: nat, before: Seq<T>, call: Call<T>, after: Seq<T>) -> bool {
    &&& step(before, call, after)
    &&& match call {
        Call::Push { value, accepted } => accepted <==> before.len() < cap,
        Call::ForcePush { value, evicted } => evicted is Some <==> before.len() >= cap,
        Call::Pop { taken } => true,
    }
}

/// `calls` is a run from the empty queue, and `states` lists what the queue
/// held before the first call and after each call.
pub open spec fn is_run<T>(states: Seq<Seq<T>>, calls: Seq<Call<T>>) -> bool {
    &&& states.len() == calls.len() + 1
    &&& states[0] == Seq::<T>::empty()
    &&& forall|i: int|
        0 <= i < calls.len() ==> step(#[trigger] states[i], calls[i], states[i + 1])
}

/// As [`is_run`], on a queue of capacity `cap`.
pub open spec fn is_bounded_run<T>(cap: nat, states: Seq<Seq<T>>, calls: Seq<Call<T>>) -> bool {
    &&& states.len() == calls.len() + 1
    &&& states[0] == Seq::<T>::empty()
    &&& forall|i: int|
        0 <= i < calls.len() ==> bounded_step(cap, #[trigger] states[i], calls[i], states[i + 1])
}

/// A run on a queue with a capacity is a run.
pub proof fn lemma_bounded_is_run<T>(cap: nat, states: Seq<Seq<T>>, calls: Seq<Call<T>>)
    requires
        is_bounded_run(cap, states, calls),
    ensures
        is_run(states, calls),
{
    assert forall|i: int| 0 <= i < calls.len() implies step(
        #[trigger] states[i],
        calls[i],
        states[i + 1],
    ) by {
        assert(bounded_step(cap, states[i], calls[i], states[i + 1]));
    }
}

/// The value that the call put into the queue, if it put one.
pub open spec fn accepted_by<T>(call: Call<T>) -> Option<T> {
    match call {
        Call::Push { value, accepted } => if accepted {
            Some(value)
        } else {
            None
        },
        Call::ForcePush { value, evicted } => Some(value),
        Call::Pop { taken } => None,
    }
}

/// The element that the call popped, if it popped one.
pub open spec fn popped_by<T>(call: Call<T>) -> Option<T> {
    match call {
        Call::Pop { taken } => taken,
        _ => None,
    }
}

/// The element that the call evicted, if it evicted one.
pub open spec fn evicted_by<T>(call: Call<T>) -> Option<T> {
    match call {
        Call::ForcePush { value, evicted } => evicted,
        _ => None,
    }
}

/// The element that left the queue in the call, by a pop or by an eviction.
pub open spec fn departed_by<T>(call: Call<T>) -> Option<T> {
    match call {
        Call::Pop { taken } => taken,
        Call::ForcePush { value, evicted } => evicted,
        _ => None,
    }
}

/// The elements that `pick` finds in the calls, in the order of the calls.
pub open spec fn collect<T>(calls: Seq<Call<T>>, pick: spec_fn(Call<T>) -> Option<T>) -> Seq<T>
    decreases calls.len(),
{
    if calls.len() == 0 {
        Seq::empty()
    } else {
        let earlier = collect(calls.drop_last(), pick);
        match pick(calls.last()) {
            Some(x) => earlier.push(x),
            None => earlier,
        }
    }
}

/// The values that the queue took, in the order in which it took them.
pub open spec fn accepted<T>(calls: Seq<Call<T>>) -> Seq<T> {
    collect(calls, |c: Call<T>| accepted_by(c))
}

/// The elements that pops returned, in the order of the pops.
pub open spec fn popped<T>(calls: Seq<Call<T>>) -> Seq<T> {
    collect(calls, |c: Call<T>| popped_by(c))
}

/// The elements that forced pushes returned, in the order of those pushes.
pub open spec fn evicted<T>(calls: Seq<Call<T>>) -> Seq<T> {
    collect(calls, |c: Call<T>| evicted_by(c))
}

/// The elements that left the queue, in the order in which they left.
pub open spec fn departed<T>(calls: Seq<Call<T>>) -> Seq<T> {
    collect(calls, |c: Call<T>| departed_by(c))
}

/// A run without its last call is a run.
proof fn lemma_shorter_run<T>(states: Seq<Seq<T>>, calls: Seq<Call<T>>)
    requires
        is_run(states, calls),
        calls.len() > 0,
    ensures
        is_run(states.drop_last(), calls.drop_last()),
        step(states[calls.len() - 1], calls.last(), states.last()),
{
    let shorter = states.drop_last();
    assert forall|i: int| 0 <= i < calls.len() - 1 implies step(
        #[trigger] shorter[i],
        calls.drop_last()[i],
        shorter[i + 1],
    ) by {
        assert(step(states[i], calls[i], states[i + 1]));
    }
}

/// First in, first out: the elements leave the queue in the order in which
/// it took them. What has left, followed by what the queue holds, is what
/// the queue took.
pub proof fn lemma_first_in_first_out<T>(states: Seq<Seq<T>>, calls: Seq<Call<T>>)
    requires
        is_run(states, calls),
    ensures
        departed(calls) + states.last() == accepted(calls),
    decreases calls.len(),
{
    if calls.len() == 0 {
        assert(departed(calls) + states.last() =~= accepted(calls));
    } else {
        lemma_shorter_run(states, calls);
        lemma_first_in_first_out(states.drop_last(), calls.drop_last());
        let before = states[calls.len() - 1];
        assert(states.drop_last().last() == before);
        let d = departed(calls.drop_last());
        assert(d + before == accepted(calls.drop_last()));
        match calls.last() {
            Call::Push { value, accepted } => {
                if accepted {
                    assert(d + before.push(value) =~= (d + before).push(value));
                }
            },
            Call::ForcePush { value, evicted } => {
                if evicted is Some {
                    assert(d.push(before[0]) + rest(before).push(value) =~= (d + before).push(
                        value,
                    ));
                } else {
                    assert(d + before.push(value) =~= (d + before).push(value));
                }
            },
            Call::Pop { taken } => {
                if taken is Some {
                    assert(d.push(before[0]) + rest(before) =~= d + before);
                }
            },
        }
    }
}

/// First in, first out for each producer: of the elements that `from`
/// selects, say those that one producer pushed, the ones that have left,
/// followed by the ones still in the queue, are the ones the queue took, in
/// the order in which it took them.
pub proof fn lemma_first_in_first_out_per_producer<T>(
    states: Seq<Seq<T>>,
    calls: Seq<Call<T>>,
    from: spec_fn(T) -> bool,
)
    requires
        is_run(states, calls),
    ensures
        departed(calls).filter(from) + states.last().filter(from) == accepted(calls).filter(from),
{
    lemma_first_in_first_out(states, calls);
    Seq::filter_distributes_over_add(departed(calls), states.last(), from);
}

/// An element leaves by a pop or by an eviction, never by both: as
/// multisets, what has left is what was popped and what was evicted.
proof fn lemma_departed_parts<T>(calls: Seq<Call<T>>)
    ensures
        departed(calls).to_multiset() == popped(calls).to_multiset().add(
            evicted(calls).to_multiset(),
        ),
    decreases calls.len(),
{
    broadcast use vstd::seq_lib::group_to_multiset_ensures;
    broadcast use vstd::multiset::group_multiset_axioms;

    if calls.len() == 0 {
        assert(departed(calls).to_multiset() =~= popped(calls).to_multiset().add(
            evicted(calls).to_multiset(),
        ));
    } else {
        lemma_departed_parts(calls.drop_last());
        let d = departed(calls.drop_last());
        let p = popped(calls.drop_last());
        let e = evicted(calls.drop_last());
        match calls.last() {
            Call::Push { value, accepted } => {},
            Call::ForcePush { value, evicted } => {
                if let Some(x) = evicted {
                    to_multiset_build(d, x);
                    to_multiset_build(e, x);
                    assert(d.to_multiset().insert(x) =~= p.to_multiset().add(
                        e.to_multiset().insert(x),
                    ));
                }
            },
            Call::Pop { taken } => {
                if let Some(x) = taken {
                    to_multiset_build(d, x);
                    to_multiset_build(p, x);
                    assert(d.to_multiset().insert(x) =~= p.to_multiset().insert(x).add(
                        e.to_multiset(),
                    ));
                }
            },
        }
    }
}

/// Conservation: the elements that were popped, those that were evicted and
/// those still in the queue are together, as multisets, the elements that
/// the queue took.
pub proof fn lemma_conservation<T>(states: Seq<Seq<T>>, calls: Seq<Call<T>>)
    requires
        is_run(states, calls),
    ensures
        popped(calls).to_multiset().add(evicted(calls).to_multiset()).add(
            states.last().to_multiset(),
        ) == accepted(calls).to_multiset(),
{
    lemma_first_in_first_out(states, calls);
    lemma_departed_parts(calls);
    vstd::seq_lib::lemma_multiset_commutative(departed(calls), states.last());
}

/// No loss, no duplication: every element that the queue took has exactly
/// one place among the elements that have left and the elements that the
/// queue still holds, and there is no other element in either.
pub proof fn lemma_no_loss_no_duplication<T>(states: Seq<Seq<T>>, calls: Seq<Call<T>>)
    requires
        is_run(states, calls),
    ensures
        accepted(calls).len() == departed(calls).len() + states.last().len(),
        forall|i: int|
            0 <= i < departed(calls).len() ==> #[trigger] accepted(calls)[i] == departed(calls)[i],
        forall|i: int|
            departed(calls).len() <= i < accepted(calls).len() ==> #[trigger] accepted(calls)[i]
                == states.last()[i - departed(calls).len()],
{
    lemma_first_in_first_out(states, calls);
}

/// Bounded occupancy: after every call of a run on a queue of capacity
/// `cap`, the queue holds at most `cap` elements.
pub proof fn lemma_bounded_occupancy<T>(cap: nat, states: Seq<Seq<T>>, calls: Seq<Call<T>>)
    requires
        is_bounded_run(cap, states, calls),
    ensures
        forall|i: int| 0 <= i < states.len() ==> (#[trigger] states[i]).len() <= cap,
{
    assert forall|i: int| 0 <= i < states.len() implies (#[trigger] states[i]).len() <= cap by {
        lemma_bounded_prefix(cap, states, calls, i);
    }
}

proof fn lemma_bounded_prefix<T>(cap: nat, states: Seq<Seq<T>>, calls: Seq<Call<T>>, i: int)
    requires
        is_bounded_run(cap, states, calls),
        0 <= i < states.len(),
    ensures
        states[i].len() <= cap,
    decreases i,
{
    if i > 0 {
        lemma_bounded_prefix(cap, states, calls, i - 1);
        assert(bounded_step(cap, states[i - 1], calls[i - 1], states[i]));
    }
}

} // verus!
