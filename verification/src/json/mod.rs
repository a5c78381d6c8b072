//! JSON: values, their text, and what separates two of them.
pub mod accepted;
pub mod blame;
pub mod conversions;
pub mod diff;
pub mod diff_laws;
pub mod diff_places;
pub mod equality;
pub mod error;
pub mod fields;
pub mod grammar;
pub mod jdiff;
pub mod locality;
pub mod parser;
pub mod print;
pub mod roundtrip;
pub mod serde;
pub mod spelling;
pub mod value;
pub mod wire;

pub use parser::{parse, Parser};
pub use value::{Json, Number, Object, Value};
