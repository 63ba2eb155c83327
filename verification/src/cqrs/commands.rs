//! Commands: operations that change a store and report a result.
use vstd::prelude::*;

verus! {

/// An operation that consumes itself to change a store of type `T1` and
/// returns a `T2`.
pub trait Command<T1, T2> {
    fn exec(self, repo: &mut T1) -> T2;
}

} // verus!
