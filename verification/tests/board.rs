use std::collections::VecDeque;
use tcp_board::app::App;
use tcp_board::commands::{PostCommand, HISTORY_THRESHOLD};
use tcp_board::cqrs::commands::Command;
use tcp_board::models::Post;
use tcp_board::request::{Header, Request};
use tcp_board::response::Response;
use tcp_board::text::split_on;

fn request(path: &str, content: &str) -> Request {
    Request { header: Header { path: path.to_string() }, content: content.to_string() }
}

fn post(address: &str, content: &str) -> Post {
    Post { address: address.to_string(), content: content.to_string() }
}

#[test]
fn post_request_has_post_path() {
    let r = Request::post("hello".to_string());
    assert_eq!(r.header.path, "/post");
    assert_eq!(r.content, "hello");
}

#[test]
fn empty_response_has_no_content() {
    assert_eq!(Response::empty().content, "");
}

#[test]
fn command_appends_and_returns_history() {
    let mut repo: VecDeque<Post> = VecDeque::new();
    repo.push_back(post("a", "1"));
    let out = PostCommand::new("b".to_string(), "2".to_string()).exec(&mut repo);
    assert_eq!(repo.len(), 2);
    assert_eq!(out.len(), 2);
    assert_eq!(out[0].content, "1");
    assert_eq!(out[1].address, "b");
    assert_eq!(out[1].content, "2");
}

#[test]
fn command_drops_oldest_past_threshold() {
    let mut repo: VecDeque<Post> = VecDeque::new();
    for i in 0..HISTORY_THRESHOLD {
        repo.push_back(post("a", &i.to_string()));
    }
    PostCommand::new("b".to_string(), "x".to_string()).exec(&mut repo);
    assert_eq!(repo.len(), HISTORY_THRESHOLD + 1);
    assert_eq!(repo[0].content, "0");
    let out = PostCommand::new("b".to_string(), "y".to_string()).exec(&mut repo);
    assert_eq!(repo.len(), HISTORY_THRESHOLD + 1);
    assert_eq!(repo[0].content, "1");
    assert_eq!(out.last().unwrap().content, "y");
    assert_eq!(out.len(), HISTORY_THRESHOLD + 1);
}

#[test]
fn history_never_exceeds_threshold_plus_one() {
    let mut repo: VecDeque<Post> = VecDeque::new();
    for i in 0..200 {
        PostCommand::new("a".to_string(), i.to_string()).exec(&mut repo);
        assert!(repo.len() <= HISTORY_THRESHOLD + 1);
    }
    assert_eq!(repo.back().unwrap().content, "199");
    assert_eq!(repo.front().unwrap().content, "149");
}

#[test]
fn post_then_get_shows_the_board() {
    let mut app = App::new();
    let r = app.handle_request(request("/post", "hi"), "127.0.0.1:5000".to_string()).unwrap();
    assert_eq!(r.content, "127.0.0.1:5000:hi");
    let r = app.handle_request(request("/post", "yo"), "10.0.0.2:1".to_string()).unwrap();
    assert_eq!(r.content, "127.0.0.1:5000:hi\n10.0.0.2:1:yo");
    let r = app.handle_request(request("/get", "ignored"), "x".to_string()).unwrap();
    assert_eq!(r.content, "127.0.0.1:5000:hi\n10.0.0.2:1:yo");
}

#[test]
fn get_on_empty_board_is_empty() {
    let mut app = App::new();
    let r = app.handle_request(request("/get", ""), "x".to_string()).unwrap();
    assert_eq!(r.content, "");
}

#[test]
fn unknown_path_has_no_answer_and_changes_nothing() {
    let mut app = App::new();
    app.handle_request(request("/post", "a"), "p".to_string());
    assert!(app.handle_request(request("/delete", "a"), "p".to_string()).is_none());
    assert!(app.handle_request(request("post", "a"), "p".to_string()).is_none());
    let r = app.handle_request(request("/get", ""), "p".to_string()).unwrap();
    assert_eq!(r.content, "p:a");
}

#[test]
fn board_splits_back_into_lines() {
    let mut app = App::new();
    app.handle_request(request("/post", "one"), "a:1".to_string());
    let r = app.handle_request(request("/post", "two"), "b:2".to_string()).unwrap();
    assert_eq!(split_on(&r.content, '\n'), vec!["a:1:one", "b:2:two"]);
}

#[test]
fn board_keeps_the_latest_posts() {
    let mut app = App::new();
    for i in 0..60 {
        app.handle_request(request("/post", &i.to_string()), "a".to_string());
    }
    let r = app.handle_request(request("/get", ""), "a".to_string()).unwrap();
    let lines = split_on(&r.content, '\n');
    assert_eq!(lines.len(), HISTORY_THRESHOLD + 1);
    assert_eq!(lines[0], "a:9");
    assert_eq!(lines[HISTORY_THRESHOLD], "a:59");
}
