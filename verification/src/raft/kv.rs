//! The store that nodes keep, see [`crate::kv`].
pub use crate::kv::{CASError, Put, Store};
