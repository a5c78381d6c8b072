//! Values for common types.
use crate::base64::{ascii_text, encode, encoded};
use crate::decimal::{decimal, i64_to_string, signed_decimal, u64_to_string};
use crate::json::value::{Json, Number, Value};
use vstd::prelude::*;
use vstd::std_specs::convert::FromSpecImpl;

verus! {

impl From<String> for Value {
    fn from(value: String) -> (v: Value) {
        Value::String(value)
    }
}

impl FromSpecImpl<String> for Value {
    open spec fn obeys_from_spec() -> bool {
        true
    }

    open spec fn from_spec(value: String) -> Value {
        Value::String(value)
    }
}

impl From<&str> for Value {
    fn from(value: &str) -> (v: Value)
        ensures
            v@ == Json::String(value@),
    {
        Value::String(value.to_owned())
    }
}

impl FromSpecImpl<&str> for Value {
    open spec fn obeys_from_spec() -> bool {
        false
    }

    open spec fn from_spec(value: &str) -> Value {
        arbitrary()
    }
}

impl From<&[u8]> for Value {
    /// Bytes become base64.
    fn from(value: &[u8]) -> (v: Value)
        ensures
            v@ == Json::String(ascii_text(encoded(value@))),
    {
        Value::String(encode(value))
    }
}

impl FromSpecImpl<&[u8]> for Value {
    open spec fn obeys_from_spec() -> bool {
        false
    }

    open spec fn from_spec(value: &[u8]) -> Value {
        arbitrary()
    }
}

impl From<u64> for Value {
    fn from(value: u64) -> (v: Value)
        ensures
            v@ == Json::Number(decimal(value as nat)),
    {
        Value::Number(Number(u64_to_string(value)))
    }
}

impl FromSpecImpl<u64> for Value {
    open spec fn obeys_from_spec() -> bool {
        false
    }

    open spec fn from_spec(value: u64) -> Value {
        arbitrary()
    }
}

impl From<i64> for Value {
    fn from(value: i64) -> (v: Value)
        ensures
            v@ == Json::Number(signed_decimal(value as int)),
    {
        Value::Number(Number(i64_to_string(value)))
    }
}

impl FromSpecImpl<i64> for Value {
    open spec fn obeys_from_spec() -> bool {
        false
    }

    open spec fn from_spec(value: i64) -> Value {
        arbitrary()
    }
}

impl From<bool> for Value {
    fn from(value: bool) -> (v: Value) {
        Value::Bool(value)
    }
}

impl FromSpecImpl<bool> for Value {
    open spec fn obeys_from_spec() -> bool {
        true
    }

    open spec fn from_spec(value: bool) -> Value {
        Value::Bool(value)
    }
}

} // verus!
