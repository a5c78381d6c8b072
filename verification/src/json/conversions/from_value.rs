//! Common types out of values.
use crate::base64::{decode, decoded, DecodeError};
use crate::decimal::{parse_i64, parse_u64, signed_value, unsigned_value, ParseIntError};
use crate::json::value::{Json, Number, Value};
use vstd::prelude::*;
use vstd::std_specs::convert::TryFromSpecImpl;
use vstd::string::StringExecFns;
use vstd::utf8::encode_utf8;

verus! {

/// What went wrong underneath a conversion.
#[derive(Debug)]
pub enum Reason {
    /// A number could not be read.
    Int(ParseIntError),
    /// A text is no base64.
    Base64(DecodeError),
}

/// An error to signal unsuccessful conversion from [`Value`] to some target type.
#[derive(Debug)]
pub struct TryFromError {
    /// The invalid value for this conversion.
    pub value: Value,
    /// Underlying error, if any.
    pub reason: Option<Reason>,
}

impl Reason {
    /// The message for what went wrong.
    pub open spec fn message(self) -> Seq<char> {
        match self {
            Reason::Int(e) => e.message(),
            Reason::Base64(e) => e.message(),
        }
    }

    /// The message for what went wrong.
    pub fn to_string(&self) -> (s: String)
        ensures
            s@ == self.message(),
    {
        match self {
            Reason::Int(e) => e.to_string(),
            Reason::Base64(e) => e.to_string(),
        }
    }
}

impl TryFromError {
    /// The message for this error, with its value shown as `shown`.
    pub open spec fn message(self, shown: Seq<char>) -> Seq<char> {
        "conversion error for value '"@ + shown + "' "@ + match self.reason {
            Some(r) => "(reason: "@ + r.message() + ")"@,
            None => "(no reason)"@,
        }
    }

    /// The message for this error. How the value is shown to developers is up to the caller.
    pub fn to_string(&self, shown: &str) -> (s: String)
        ensures
            s@ == self.message(shown@),
    {
        let mut s: String = "conversion error for value '".to_owned();
        s.append(shown);
        s.append("' ");
        let mut why: String = String::new();
        match &self.reason {
            Some(r) => {
                why.append("(reason: ");
                why.append(r.to_string().as_str());
                why.append(")");
                assert(why@ =~= "(reason: "@ + r.message() + ")"@);
            },
            None => {
                why.append("(no reason)");
                assert(why@ =~= "(no reason)"@);
            },
        }
        s.append(why.as_str());
        s
    }
}

/// What a [`TryFromError`] is, mathematically.
#[verifier::ext_equal]
pub struct Unconverted {
    pub value: Json,
    pub reason: Option<Reason>,
}

impl View for TryFromError {
    type V = Unconverted;

    open spec fn view(&self) -> Unconverted {
        Unconverted { value: self.value@, reason: self.reason }
    }
}

/// The string that a value holds.
pub open spec fn string_in(j: Json) -> Result<Seq<char>, Unconverted> {
    match j {
        Json::String(s) => Ok(s),
        _ => Err(Unconverted { value: j, reason: None }),
    }
}

/// The bytes that a value holds, as base64.
pub open spec fn bytes_in(j: Json) -> Result<Seq<u8>, Unconverted> {
    match j {
        Json::String(s) => match decoded(encode_utf8(s)) {
            Ok(b) => Ok(b),
            Err(e) => Err(Unconverted { value: j, reason: Some(Reason::Base64(e)) }),
        },
        _ => Err(Unconverted { value: j, reason: None }),
    }
}

/// The unsigned number that a value holds.
pub open spec fn unsigned_in(j: Json) -> Result<nat, Unconverted> {
    match j {
        Json::Number(n) => match unsigned_value(n) {
            Ok(x) => Ok(x),
            Err(e) => Err(Unconverted { value: j, reason: Some(Reason::Int(e)) }),
        },
        _ => Err(Unconverted { value: j, reason: None }),
    }
}

/// The signed number that a value holds.
pub open spec fn signed_in(j: Json) -> Result<int, Unconverted> {
    match j {
        Json::Number(n) => match signed_value(n) {
            Ok(x) => Ok(x),
            Err(e) => Err(Unconverted { value: j, reason: Some(Reason::Int(e)) }),
        },
        _ => Err(Unconverted { value: j, reason: None }),
    }
}

impl TryFrom<Value> for String {
    type Error = TryFromError;

    fn try_from(value: Value) -> (r: Result<Self, TryFromError>)
        ensures
            match r {
                Ok(s) => string_in(value@) == Ok::<Seq<char>, Unconverted>(s@),
                Err(e) => string_in(value@) == Err::<Seq<char>, Unconverted>(e@),
            },
    {
        match value {
            Value::String(s) => Ok(s),
            _ => Err(TryFromError { value, reason: None }),
        }
    }
}

impl TryFromSpecImpl<Value> for String {
    open spec fn obeys_try_from_spec() -> bool {
        false
    }

    open spec fn try_from_spec(value: Value) -> Result<Self, TryFromError> {
        arbitrary()
    }
}

impl TryFrom<Value> for Vec<u8> {
    type Error = TryFromError;

    fn try_from(value: Value) -> (r: Result<Self, TryFromError>)
        ensures
            match r {
                Ok(b) => bytes_in(value@) == Ok::<Seq<u8>, Unconverted>(b@),
                Err(e) => bytes_in(value@) == Err::<Seq<u8>, Unconverted>(e@),
            },
    {
        match value {
            Value::String(s) => match decode(s.as_str()) {
                Ok(b) => Ok(b),
                Err(e) => Err(
                    TryFromError { value: Value::String(s), reason: Some(Reason::Base64(e)) },
                ),
            },
            // Could also support array of numbers 0-255.
            _ => Err(TryFromError { value, reason: None }),
        }
    }
}

impl TryFromSpecImpl<Value> for Vec<u8> {
    open spec fn obeys_try_from_spec() -> bool {
        false
    }

    open spec fn try_from_spec(value: Value) -> Result<Self, TryFromError> {
        arbitrary()
    }
}

impl TryFrom<Value> for u64 {
    type Error = TryFromError;

    fn try_from(value: Value) -> (r: Result<Self, TryFromError>)
        ensures
            match r {
                Ok(n) => unsigned_in(value@) == Ok::<nat, Unconverted>(n as nat),
                Err(e) => unsigned_in(value@) == Err::<nat, Unconverted>(e@),
            },
    {
        match value {
            Value::Number(n) => match parse_u64(n.0.as_str()) {
                Ok(x) => Ok(x),
                Err(e) => Err(TryFromError { value: Value::Number(n), reason: Some(Reason::Int(e)) }),
            },
            _ => Err(TryFromError { value, reason: None }),
        }
    }
}

impl TryFromSpecImpl<Value> for u64 {
    open spec fn obeys_try_from_spec() -> bool {
        false
    }

    open spec fn try_from_spec(value: Value) -> Result<Self, TryFromError> {
        arbitrary()
    }
}

impl TryFrom<Value> for i64 {
    type Error = TryFromError;

    fn try_from(value: Value) -> (r: Result<Self, TryFromError>)
        ensures
            match r {
                Ok(n) => signed_in(value@) == Ok::<int, Unconverted>(n as int),
                Err(e) => signed_in(value@) == Err::<int, Unconverted>(e@),
            },
    {
        match value {
            Value::Number(n) => match parse_i64(n.0.as_str()) {
                Ok(x) => Ok(x),
                Err(e) => Err(TryFromError { value: Value::Number(n), reason: Some(Reason::Int(e)) }),
            },
            _ => Err(TryFromError { value, reason: None }),
        }
    }
}

impl TryFromSpecImpl<Value> for i64 {
    open spec fn obeys_try_from_spec() -> bool {
        false
    }

    open spec fn try_from_spec(value: Value) -> Result<Self, TryFromError> {
        arbitrary()
    }
}

impl TryFrom<Number> for u64 {
    type Error = ParseIntError;

    fn try_from(value: Number) -> (r: Result<Self, ParseIntError>)
        ensures
            match r {
                Ok(n) => unsigned_value(value@) == Ok::<nat, ParseIntError>(n as nat),
                Err(e) => unsigned_value(value@) == Err::<nat, ParseIntError>(e),
            },
    {
        parse_u64(value.0.as_str())
    }
}

impl TryFromSpecImpl<Number> for u64 {
    open spec fn obeys_try_from_spec() -> bool {
        false
    }

    open spec fn try_from_spec(value: Number) -> Result<Self, ParseIntError> {
        arbitrary()
    }
}

impl TryFrom<&Number> for u64 {
    type Error = ParseIntError;

    fn try_from(value: &Number) -> (r: Result<Self, ParseIntError>)
        ensures
            match r {
                Ok(n) => unsigned_value(value@) == Ok::<nat, ParseIntError>(n as nat),
                Err(e) => unsigned_value(value@) == Err::<nat, ParseIntError>(e),
            },
    {
        parse_u64(value.0.as_str())
    }
}

impl TryFromSpecImpl<&Number> for u64 {
    open spec fn obeys_try_from_spec() -> bool {
        false
    }

    open spec fn try_from_spec(value: &Number) -> Result<Self, ParseIntError> {
        arbitrary()
    }
}

impl TryFrom<Number> for i64 {
    type Error = ParseIntError;

    fn try_from(value: Number) -> (r: Result<Self, ParseIntError>)
        ensures
            match r {
                Ok(n) => signed_value(value@) == Ok::<int, ParseIntError>(n as int),
                Err(e) => signed_value(value@) == Err::<int, ParseIntError>(e),
            },
    {
        parse_i64(value.0.as_str())
    }
}

impl TryFromSpecImpl<Number> for i64 {
    open spec fn obeys_try_from_spec() -> bool {
        false
    }

    open spec fn try_from_spec(value: Number) -> Result<Self, ParseIntError> {
        arbitrary()
    }
}

impl TryFrom<&Number> for i64 {
    type Error = ParseIntError;

    fn try_from(value: &Number) -> (r: Result<Self, ParseIntError>)
        ensures
            match r {
                Ok(n) => signed_value(value@) == Ok::<int, ParseIntError>(n as int),
                Err(e) => signed_value(value@) == Err::<int, ParseIntError>(e),
            },
    {
        parse_i64(value.0.as_str())
    }
}

impl TryFromSpecImpl<&Number> for i64 {
    open spec fn obeys_try_from_spec() -> bool {
        false
    }

    open spec fn try_from_spec(value: &Number) -> Result<Self, ParseIntError> {
        arbitrary()
    }
}

} // verus!
