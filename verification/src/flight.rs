//! Decision logic for the single-flight layer.
//!
//! The single-flight cache stores a state cell per key: either a
//! value that is ready, or a marker that a computation for the key is
//! in flight. The async plumbing around it — locks, broadcast
//! signals, awaiting — lives outside this crate; what is decided
//! under the lock is captured here as pure functions from an observed
//! cell state to the next action, so that the policy itself is
//! verified: a computation starts only when the key is missing, a
//! waiter waits only while one is in flight, and a plain store is
//! rejected exactly while one is in flight.

use vstd::prelude::*;

verus! {

/// The recoverable error surface of the single-flight cache: a plain
/// `put` is rejected while a computation for the same key is in
/// flight.
#[derive(Debug, PartialEq, Eq, Structural, Clone, Copy)]
pub enum CacheError {
    UpdateInProgress,
}

/// What one locked look at a key's state cell observed: no cell, a
/// ready value, or a computation in flight.
pub enum Probe<V> {
    Missing,
    Ready(V),
    Pending,
}

/// What a plain lookup does after its probe: return a result, or
/// subscribe and wait for the in-flight computation to finish.
pub enum GetStep<V> {
    Done(Option<V>),
    Wait,
}

/// What a compute-and-fill lookup does after its probe: return the
/// ready value, wait for the in-flight computation, or claim the key
/// and start computing.
pub enum UpdateStep<V> {
    Done(V),
    Wait,
    Start,
}

/// The decision a plain lookup takes: a missing key and a ready value
/// resolve immediately; an in-flight computation is waited for.
pub fn get_step<V>(probe: Probe<V>) -> (r: GetStep<V>)
    ensures
        r == (match probe {
            Probe::Missing => GetStep::<V>::Done(None),
            Probe::Ready(v) => GetStep::<V>::Done(Some(v)),
            Probe::Pending => GetStep::<V>::Wait,
        }),
{
    match probe {
        Probe::Missing => GetStep::Done(None),
        Probe::Ready(v) => GetStep::Done(Some(v)),
        Probe::Pending => GetStep::Wait,
    }
}

/// The decision a compute-and-fill lookup takes: exactly a missing
/// key starts a computation; a ready value is returned; an in-flight
/// computation is waited for. This is what collapses concurrent
/// fills for one key into a single computation.
pub fn get_or_update_step<V>(probe: Probe<V>) -> (r: UpdateStep<V>)
    ensures
        r == (match probe {
            Probe::Missing => UpdateStep::<V>::Start,
            Probe::Ready(v) => UpdateStep::<V>::Done(v),
            Probe::Pending => UpdateStep::<V>::Wait,
        }),
        (r == UpdateStep::<V>::Start) <==> (probe is Missing),
{
    match probe {
        Probe::Missing => UpdateStep::Start,
        Probe::Ready(v) => UpdateStep::Done(v),
        Probe::Pending => UpdateStep::Wait,
    }
}

/// The decision a plain store takes: it goes through over a missing
/// key or a ready value, handing back the old value if any, and is
/// rejected with `UpdateInProgress` exactly while a computation for
/// the key is in flight.
pub fn put_step<V>(probe: Probe<V>) -> (r: Result<Option<V>, CacheError>)
    ensures
        r == (match probe {
            Probe::Missing => Ok::<Option<V>, CacheError>(None),
            Probe::Ready(old) => Ok::<Option<V>, CacheError>(Some(old)),
            Probe::Pending => Err::<Option<V>, CacheError>(CacheError::UpdateInProgress),
        }),
        (r is Err) <==> (probe is Pending),
{
    match probe {
        Probe::Missing => Ok(None),
        Probe::Ready(old) => Ok(Some(old)),
        Probe::Pending => Err(CacheError::UpdateInProgress),
    }
}

} // verus!
