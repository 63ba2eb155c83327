//! Command and query interfaces over a store.
pub mod commands;
pub mod queries;
