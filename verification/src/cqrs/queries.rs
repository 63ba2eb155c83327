//! Queries: operations that read with an option and return a result.
use vstd::prelude::*;

verus! {

/// An operation that consumes itself and answers the query option `Q` with a `T`.
pub trait Query<Q, T> {
    fn request(self, query_option: Q) -> T;
}

} // verus!
