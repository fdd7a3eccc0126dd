//! A directory of multiplayer game lobbies: a binary wire codec for requests
//! and responses, and an in-memory store with credentialed deletion and a
//! filtered, sorted, paginated listing.

pub mod address;
pub mod codec;
pub mod credential;
pub mod database;
pub mod query;
pub mod service;
pub mod text;
