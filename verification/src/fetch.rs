//! Fallback over the public Overpass endpoints: they are tried in order of
//! preference until one answers with a readable body.
use vstd::prelude::*;

verus! {

/// Outcome of a request to one endpoint.
pub enum FetchEvent {
    /// Network error, HTTP error status, or a body that could not be read.
    Failed,
    /// The body was read.
    Parsed,
}

/// What follows the outcome.
pub enum FetchAction {
    /// Ask the endpoint of this position next.
    TryEndpoint(usize),
    /// Stop: with the position of the endpoint that answered, or none if all failed.
    Done(Option<usize>),
}

/// The step after the request to endpoint `tried` of `n`.
pub fn next_fetch_step(tried: usize, n: usize, ev: FetchEvent) -> (a: FetchAction)
    requires
        tried < n,
    ensures
        ev is Parsed ==> a == FetchAction::Done(Some(tried)),
        ev is Failed && tried + 1 < n ==> a == FetchAction::TryEndpoint((tried + 1) as usize),
        ev is Failed && tried + 1 >= n ==> a == FetchAction::Done(None),
{
    match ev {
        FetchEvent::Parsed => FetchAction::Done(Some(tried)),
        FetchEvent::Failed => {
            if tried + 1 < n {
                FetchAction::TryEndpoint(tried + 1)
            } else {
                FetchAction::Done(None)
            }
        },
    }
}

} // verus!
