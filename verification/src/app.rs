//! The server's decisions: what each request does to the post history and
//! what the server answers.
use vstd::prelude::*;
use crate::commands::{history_after, lemma_history_bounded, PostCommand, HISTORY_THRESHOLD};
use crate::cqrs::commands::Command;
use crate::models::{post_views, Post};
use crate::repositories::Repository;
use crate::request::{get_path, post_path, Request};
use crate::response::{Header, Response};
use crate::text::{join_spec, lemma_split_join, push_char, split_spec};

verus! {

/// One line of the board: the address, a colon, and the content.
pub open spec fn line_of(post: (Seq<char>, Seq<char>)) -> Seq<char> {
    post.0.push(':') + post.1
}

/// The lines of the board, oldest post first.
pub open spec fn board_lines(history: Seq<(Seq<char>, Seq<char>)>) -> Seq<Seq<char>> {
    history.map_values(|p: (Seq<char>, Seq<char>)| line_of(p))
}

/// The board as the server sends it: its lines joined by newlines.
pub open spec fn board_text(history: Seq<(Seq<char>, Seq<char>)>) -> Seq<char> {
    join_spec(board_lines(history), '\n')
}

/// Whether `s` ends with `t`.
pub open spec fn ends_with(s: Seq<char>, t: Seq<char>) -> bool {
    t.len() <= s.len() && s.subrange(s.len() - t.len(), s.len() as int) == t
}

/// Adding a post to the history adds one line to the end of the board: the
/// address, a colon and the content exactly as they are, after a newline
/// when the board was not empty.
pub proof fn lemma_board_push(history: Seq<(Seq<char>, Seq<char>)>, post: (Seq<char>, Seq<char>))
    ensures
        board_text(history.push(post)) == if history.len() == 0 {
            post.0 + seq![':'] + post.1
        } else {
            board_text(history) + seq!['\n'] + post.0 + seq![':'] + post.1
        },
{
    let ls = board_lines(history.push(post));
    assert(ls.drop_last() =~= board_lines(history));
    assert(ls.last() =~= post.0 + seq![':'] + post.1);
    if history.len() == 0 {
        assert(ls.len() == 1);
    } else {
        assert(ls.len() > 1);
        assert(join_spec(ls, '\n') == join_spec(ls.drop_last(), '\n').push('\n') + ls.last());
        assert(board_text(history).push('\n') + ls.last() =~= board_text(history) + seq!['\n']
            + post.0 + seq![':'] + post.1);
    }
}

/// The server's state: the posts it keeps, oldest first.
pub struct App {
    posts: Repository<Post>,
}

impl App {
    /// The history never holds more than one post past the threshold.
    #[verifier::type_invariant]
    spec fn bounded(self) -> bool {
        self.posts@.len() <= HISTORY_THRESHOLD + 1
    }
}

impl View for App {
    type V = Seq<(Seq<char>, Seq<char>)>;

    closed spec fn view(&self) -> Seq<(Seq<char>, Seq<char>)> {
        post_views(self.posts@)
    }
}

impl App {
    /// A server with no posts.
    pub fn new() -> (a: App)
        ensures
            a@ == Seq::<(Seq<char>, Seq<char>)>::empty(),
    {
        let a = App { posts: Repository::new() };
        assert(a@ =~= Seq::<(Seq<char>, Seq<char>)>::empty());
        a
    }

    /// Answers a request that came from `address`: `/post` adds the content
    /// to the history and answers with the board, `/get` answers with the
    /// board, and any other path has no answer and changes nothing.
    pub fn handle_request(&mut self, req: Request, address: String) -> (r: Option<Response>)
        ensures
            req.header.path@ == post_path() ==> {
                &&& final(self)@ == history_after(old(self)@, (address@, req.content@))
                &&& r matches Some(resp) && resp.content@ == board_text(final(self)@)
                &&& r matches Some(resp) && ends_with(
                    resp.content@,
                    address@ + seq![':'] + req.content@,
                )
            },
            req.header.path@ == get_path() ==> {
                &&& final(self)@ == old(self)@
                &&& r matches Some(resp) && resp.content@ == board_text(old(self)@)
            },
            req.header.path@ != post_path() && req.header.path@ != get_path() ==> {
                &&& final(self)@ == old(self)@
                &&& r is None
            },
            final(self)@.len() <= HISTORY_THRESHOLD + 1,
    {
        proof {
            use_type_invariant(&*self);
        }
        let post_key = String::from_str("/post");
        let get_key = String::from_str("/get");
        proof {
            reveal_strlit("/post");
            reveal_strlit("/get");
        }
        assert(post_key@ == post_path());
        assert(get_key@ == get_path());
        if req.header.path == post_key {
            let content = req.content;
            self.post(address, content.as_str())
        } else if req.header.path == get_key {
            self.get()
        } else {
            None
        }
    }

    fn post(&mut self, address: String, value: &str) -> (r: Option<Response>)
        ensures
            final(self)@ == history_after(old(self)@, (address@, value@)),
            r matches Some(resp) && resp.content@ == board_text(final(self)@),
            r matches Some(resp) && ends_with(resp.content@, address@ + seq![':'] + value@),
    {
        proof {
            use_type_invariant(&*self);
        }
        let ghost before = self.posts@;
        let command = PostCommand::new(address, String::from_str(value));
        let ghost post = command.post;
        let mut posts = Repository::new();
        std::mem::swap(&mut posts, &mut self.posts);
        command.exec(&mut posts);
        proof {
            lemma_history_bounded(before, post);
        }
        self.posts = posts;
        proof {
            let h = post_views(before);
            if before.len() > HISTORY_THRESHOLD {
                assert(post_views(before.skip(1)) =~= h.skip(1));
                assert(post_views(before.skip(1).push(post)) =~= h.skip(1).push(post@));
            } else {
                assert(post_views(before.push(post)) =~= h.push(post@));
            }
        }
        proof {
            let h = post_views(before);
            let kept = if h.len() > HISTORY_THRESHOLD {
                h.skip(1)
            } else {
                h
            };
            let line = address@ + seq![':'] + value@;
            lemma_board_push(kept, (address@, value@));
            let b = board_text(kept.push((address@, value@)));
            if kept.len() == 0 {
                assert(b.subrange(b.len() - line.len(), b.len() as int) =~= line);
            } else {
                let pre = board_text(kept) + seq!['\n'];
                assert(b =~= pre + line);
                assert(b.subrange(b.len() - line.len(), b.len() as int) =~= line);
            }
        }
        self.get()
    }

    fn get(&self) -> (r: Option<Response>)
        ensures
            r matches Some(resp) && resp.content@ == board_text(self@),
    {
        Some(Response { header: Header {}, content: self.board_content() })
    }

    fn board_content(&self) -> (s: String)
        ensures
            s@ == board_text(self@),
    {
        let ghost h = self@;
        let mut out = String::new();
        let mut i: usize = 0;
        while i < self.posts.len()
            invariant
                h == self@,
                i <= self.posts@.len(),
                out@ == join_spec(board_lines(h.take(i as int)), '\n'),
            decreases self.posts@.len() - i,
        {
            let ghost prev = out@;
            let post = &self.posts[i];
            assert(h[i as int] == post@);
            if i > 0 {
                push_char(&mut out, '\n');
            }
            out.append(post.address.as_str());
            push_char(&mut out, ':');
            out.append(post.content.as_str());
            proof {
                let ls = board_lines(h.take(i + 1));
                assert(ls.drop_last() =~= board_lines(h.take(i as int)));
                assert(ls.last() == line_of(post@));
                if i == 0 {
                    assert(out@ =~= ls[0]);
                } else {
                    assert(out@ =~= prev.push('\n') + line_of(post@));
                }
            }
            i = i + 1;
        }
        assert(h.take(i as int) =~= h);
        out
    }
}

/// The board that the server sends splits back, on newlines, into one line
/// per post, provided that no address or content holds a newline and there
/// is at least one post.
pub proof fn lemma_board_lines_split(history: Seq<(Seq<char>, Seq<char>)>)
    requires
        history.len() >= 1,
        forall|i: int|
            0 <= i < history.len() ==> !(#[trigger] history[i]).0.contains('\n') && !history[i].1.contains(
                '\n',
            ),
    ensures
        split_spec(board_text(history), '\n') == board_lines(history),
{
    let ls = board_lines(history);
    assert forall|i: int| 0 <= i < ls.len() implies !(#[trigger] ls[i]).contains('\n') by {
        let p = history[i];
        assert(ls[i] == p.0.push(':') + p.1);
        if ls[i].contains('\n') {
            let j = choose|j: int| 0 <= j < ls[i].len() && ls[i][j] == '\n';
            if j < p.0.len() {
                assert(p.0[j] == '\n');
            } else if j > p.0.len() {
                assert(p.1[j - p.0.len() - 1] == '\n');
            }
        }
    }
    lemma_split_join(ls, '\n');
}

} // verus!
