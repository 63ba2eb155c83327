//! Where the server keeps its posts, oldest first.
use std::collections::VecDeque;
use vstd::prelude::*;

verus! {

/// A store of items, oldest at the front.
pub type Repository<T> = VecDeque<T>;

} // verus!
