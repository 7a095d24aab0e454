//! A small Raft-replicated key-value store with a Redis-style front end.
pub mod raft;
pub mod kv_store;
pub mod text;
pub mod persistence;
pub mod network;
pub mod node;
