//! A small message board spoken over TCP: length-prefixed packets, JSON
//! requests and responses, the server's post history and the client's
//! command-line handling.
pub mod app;
pub mod command_args;
pub mod commands;
pub mod cqrs;
pub mod models;
pub mod packet;
pub mod repositories;
pub mod request;
pub mod response;
pub mod tcp;
pub mod text;
