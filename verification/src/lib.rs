//! Building blocks of a Raft node: data formats, a key-value state machine, and the
//! consensus rules themselves, each stated as a contract and proved.
pub mod assoc;
pub mod base64;
pub mod datum;
pub mod decimal;
pub mod domain;
pub mod json;
pub mod kv;
pub mod maelstrom;
pub mod nodes;
pub mod raft;
pub mod rand;
pub mod serde;
pub mod text;
pub mod utf8;
pub mod words;
