//! The responses that the server sends back.
use vstd::prelude::*;

verus! {

/// The header of a response; it carries nothing.
#[derive(Debug)]
pub struct Header {}

/// A response: its header and its content.
#[derive(Debug)]
pub struct Response {
    pub header: Header,
    pub content: String,
}

impl Response {
    /// The response with empty content, sent when a request has no answer.
    pub fn empty() -> (r: Response)
        ensures
            r.content@ == Seq::<char>::empty(),
    {
        Response { header: Header {}, content: String::new() }
    }
}

} // verus!
