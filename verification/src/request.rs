//! The requests that a client sends: a path that names the action and the
//! text that goes with it.
use vstd::prelude::*;

verus! {

/// The header of a request.
#[derive(Debug)]
pub struct Header {
    pub path: String,
}

/// A request: its header and its content.
#[derive(Debug)]
pub struct Request {
    pub header: Header,
    pub content: String,
}

/// The path of a request that posts its content.
pub open spec fn post_path() -> Seq<char> {
    seq!['/', 'p', 'o', 's', 't']
}

/// The path of a request that asks for the board.
pub open spec fn get_path() -> Seq<char> {
    seq!['/', 'g', 'e', 't']
}

impl Request {
    /// The request that posts `content` to the board.
    pub fn post(content: String) -> (r: Request)
        ensures
            r.header.path@ == post_path(),
            r.content@ == content@,
    {
        let path = String::from_str("/post");
        proof {
            reveal_strlit("/post");
        }
        Request { header: Header { path }, content }
    }
}

} // verus!
