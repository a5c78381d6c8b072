//! The terms of Raft: what nodes keep, and what candidates ask.
pub mod rpc;
pub mod state;
