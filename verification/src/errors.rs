use vstd::prelude::*;

verus! {

/// The failure kinds of the routing pipeline. Every kind is fatal to one
/// invocation; none is retried.
#[derive(Clone, Copy, Debug, PartialEq, Eq, Structural)]
pub enum RouteError {
    /// Remote retrieval of the raw map data, or writing it to disk, failed.
    FetchFailure,
    /// A malformed raw record was met during ingestion.
    DecodeFailure,
    /// A persisted cache artifact failed to parse.
    CacheCorruption,
    /// The search frontier was exhausted without reaching the goal.
    NoRouteFound,
    /// A coordinate sequence could not be encoded.
    EncodingFailure,
}

impl RouteError {
    /// A short description, for reporting at the process edge.
    pub fn describe(&self) -> (r: &'static str)
        ensures
            matches!(*self, RouteError::NoRouteFound) ==> r@ == "no route found"@,
    {
        match self {
            RouteError::FetchFailure => "fetching the raw map data failed",
            RouteError::DecodeFailure => "a raw map record was malformed",
            RouteError::CacheCorruption => "a cache artifact failed to parse",
            RouteError::NoRouteFound => "no route found",
            RouteError::EncodingFailure => "the route could not be encoded",
        }
    }
}

} // verus!
