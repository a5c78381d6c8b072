//! Whole documents: from a type to its text, and back.
use crate::json::error::{Error, Fault};
use crate::json::parser::{parse, parsed};
use crate::json::print::text;
use crate::json::roundtrip::{parse_inverts_to_string, printable};
use crate::json::serde::{
    reads_back, Deserialize, DeserializeError, Serialize, SerializeError, Undeserialized,
};
use vstd::prelude::*;
use vstd::utf8::encode_utf8;

verus! {

/// Why a text could not be read.
#[derive(Debug)]
pub enum ReadError {
    /// It is not JSON.
    Parse(Error),
    /// It is JSON, but not what was wanted.
    Deserialize(DeserializeError),
}

/// What a [`ReadError`] is, mathematically.
#[verifier::ext_equal]
pub enum Unread {
    Parse(Fault, nat),
    Deserialize(Undeserialized),
}

impl View for ReadError {
    type V = Unread;

    open spec fn view(&self) -> Unread {
        match *self {
            ReadError::Parse(e) => Unread::Parse(e.kind@, e.pos as nat),
            ReadError::Deserialize(e) => Unread::Deserialize(e@),
        }
    }
}

/// What a text stands for.
pub open spec fn read_as<T: Deserialize>(data: Seq<u8>) -> Result<T::V, Unread> {
    match parsed(data) {
        Err((k, pos)) => Err(Unread::Parse(k, pos)),
        Ok(j) => match T::from_json(j) {
            Err(e) => Err(Unread::Deserialize(e)),
            Ok(x) => Ok(x),
        },
    }
}

/// Reads a text.
pub fn read_document<T: Deserialize>(data: &[u8]) -> (r: Result<T, ReadError>)
    ensures
        match r {
            Ok(x) => read_as::<T>(data@) == Ok::<T::V, Unread>(x.deep_view()),
            Err(e) => read_as::<T>(data@) == Err::<T::V, Unread>(e@),
        },
{
    match parse(data) {
        Ok(v) => match T::deserialize(v) {
            Ok(x) => Ok(x),
            Err(e) => Err(ReadError::Deserialize(e)),
        },
        Err(e) => Err(ReadError::Parse(e)),
    }
}

/// Writes a text.
pub fn write_document<T: Serialize + ?Sized>(x: &T) -> (r: Result<String, SerializeError>)
    ensures
        r matches Ok(s) && s@ == text(x.json()),
{
    match x.serialize() {
        Ok(v) => Ok(v.to_string()),
        Err(e) => Err(e),
    }
}

/// What is read of a written text is what was written, where it reads back as JSON, and
/// the JSON as text.
pub proof fn read_inverts_write<T: Serialize + Deserialize>(x: T)
    requires
        reads_back(x),
        printable(x.json(), 0),
    ensures
        read_as::<T>(encode_utf8(text(x.json()))) == Ok::<T::V, Unread>(x.deep_view()),
{
    parse_inverts_to_string(x.json());
}

} // verus!
