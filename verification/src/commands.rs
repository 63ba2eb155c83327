//! The command that adds a post to the server's history.
use vstd::prelude::*;
use crate::cqrs::commands::Command;
use crate::models::Post;
use crate::repositories::Repository;

verus! {

/// Past this many posts, the oldest one is dropped before a new one is kept.
pub const HISTORY_THRESHOLD: usize = 50;

/// The history after `item` is posted to `history`: the oldest entry goes
/// when there are more than `HISTORY_THRESHOLD`, and `item` comes last.
pub open spec fn history_after<T>(history: Seq<T>, item: T) -> Seq<T> {
    let kept = if history.len() > HISTORY_THRESHOLD {
        history.skip(1)
    } else {
        history
    };
    kept.push(item)
}

/// Posting keeps the history at no more than one past the threshold, puts
/// the new item last, and keeps every older item in order (all of them
/// when the history was at or below the threshold).
pub proof fn lemma_history_bounded<T>(history: Seq<T>, item: T)
    requires
        history.len() <= HISTORY_THRESHOLD + 1,
    ensures
        history_after(history, item).len() <= HISTORY_THRESHOLD + 1,
        history_after(history, item).last() == item,
        history.len() <= HISTORY_THRESHOLD ==> history_after(history, item) == history.push(item),
        history.len() > HISTORY_THRESHOLD ==> history_after(history, item) == history.skip(
            1,
        ).push(item),
{
}

/// A request to post `post`.
pub struct PostCommand {
    pub post: Post,
}

impl PostCommand {
    /// The command that posts `content`, sent from `address`.
    pub fn new(address: String, content: String) -> (c: Self)
        ensures
            c.post.address == address,
            c.post.content == content,
    {
        PostCommand { post: Post { address, content } }
    }
}

impl Command<Repository<Post>, Vec<Post>> for PostCommand {
    /// Adds the post to the history as `history_after` says, and returns a
    /// copy of the whole history, oldest first.
    fn exec(self, repo: &mut Repository<Post>) -> (r: Vec<Post>)
        ensures
            final(repo)@ == history_after(old(repo)@, self.post),
            r@ == final(repo)@,
    {
        if repo.len() > HISTORY_THRESHOLD {
            repo.pop_front();
        }
        repo.push_back(self.post);
        let mut out: Vec<Post> = Vec::new();
        let mut i: usize = 0;
        while i < repo.len()
            invariant
                i <= repo@.len(),
                out@ == repo@.take(i as int),
            decreases repo@.len() - i,
        {
            out.push(repo[i].clone());
            i = i + 1;
            assert(out@ =~= repo@.take(i as int));
        }
        assert(repo@.take(i as int) =~= repo@);
        out
    }
}

} // verus!
