//! What the server keeps: posts.
use vstd::prelude::*;

verus! {

/// A post: the text form of the address it came from, and its content.
#[derive(Debug)]
pub struct Post {
    pub address: String,
    pub content: String,
}

impl View for Post {
    type V = (Seq<char>, Seq<char>);

    open spec fn view(&self) -> (Seq<char>, Seq<char>) {
        (self.address@, self.content@)
    }
}

impl Clone for Post {
    fn clone(&self) -> (r: Post)
        ensures
            r == *self,
    {
        Post { address: self.address.clone(), content: self.content.clone() }
    }
}

/// The views of a sequence of posts.
pub open spec fn post_views(posts: Seq<Post>) -> Seq<(Seq<char>, Seq<char>)> {
    posts.map_values(|p: Post| p@)
}

} // verus!
