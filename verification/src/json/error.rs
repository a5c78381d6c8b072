//! What can be wrong with a JSON text.
use crate::decimal::{decimal, hexadecimal, push_decimal, push_hexadecimal};
use crate::utf8::Utf8Error;
use vstd::prelude::*;
use vstd::string::StringExecFns;

verus! {

/// An error in JSON processing.
#[derive(Debug)]
pub struct Error {
    /// The kind of error.
    pub kind: Kind,
    /// The position in the input at which the error occurred.
    pub pos: usize,
}

/// The kind of error in processing.
#[derive(Debug)]
pub enum Kind {
    /// I/O-related error, like stream closing.
    Io(String),
    /// Input ended unexpectedly when more data was needed.
    UnexpectedEOF,
    /// A byte is invalid at the current position.
    InvalidByte {
        /// The encountered, invalid byte.
        byte: u8,
        /// Reason it is invalid at this position.
        reason: String,
    },
    /// A provided escape sequence is invalid, like `\\a`.
    InvalidEscapeSequence(u8),
    /// A provided character is outside the hexadecimal alphabet, such as `z`.
    InvalidHexCharacter(char),
    /// The input contained invalid Unicode.
    UnicodeError(UnicodeError),
    /// Values are nested this deep, which is too deep.
    NestingTooDeep(usize),
}

/// Invalid Unicode was encountered.
#[derive(Debug, Clone, Copy, PartialEq, Eq, Structural)]
pub enum UnicodeError {
    /// A UTF-16 surrogate pair codepoint sequence is invalid. The surrogate that has no
    /// partner is provided.
    InvalidUTF16(u16),
    /// A high surrogate is unpaired (no valid low surrogate following).
    ///
    /// Subsequent JSON-escaped Unicode code points might form a UTF-16 surrogate pair,
    /// such as `"\\ud834\\udd1e"`, but the pairing might be invalid.
    ///
    /// The unpaired high surrogate codepoint is provided.
    UnpairedHighSurrogate(u16),
    /// A low surrogate occurred without a preceding high surrogate. It is "orphaned".
    UnpairedLowSurrogate(u16),
    /// A byte sequence is invalid UTF-8.
    InvalidUTF8(Utf8Error),
    /// The start of a non-ASCII (**assumed UTF-8**) sequence was encountered, but the
    /// encountered byte is invalid UTF-8.
    InvalidUTF8Start(u8),
}

/// What a [`Kind`] is, mathematically.
#[verifier::ext_equal]
pub enum Fault {
    Io(Seq<char>),
    UnexpectedEOF,
    InvalidByte { byte: u8, reason: Seq<char> },
    InvalidEscapeSequence(u8),
    InvalidHexCharacter(char),
    UnicodeError(UnicodeError),
    NestingTooDeep(nat),
}

impl View for Kind {
    type V = Fault;

    open spec fn view(&self) -> Fault {
        match *self {
            Kind::Io(e) => Fault::Io(e@),
            Kind::UnexpectedEOF => Fault::UnexpectedEOF,
            Kind::InvalidByte { byte, reason } => Fault::InvalidByte { byte, reason: reason@ },
            Kind::InvalidEscapeSequence(b) => Fault::InvalidEscapeSequence(b),
            Kind::InvalidHexCharacter(c) => Fault::InvalidHexCharacter(c),
            Kind::UnicodeError(e) => Fault::UnicodeError(e),
            Kind::NestingTooDeep(d) => Fault::NestingTooDeep(d as nat),
        }
    }
}

impl From<Utf8Error> for Kind {
    fn from(value: Utf8Error) -> (k: Kind) {
        Kind::UnicodeError(UnicodeError::InvalidUTF8(value))
    }
}

impl vstd::std_specs::convert::FromSpecImpl<Utf8Error> for Kind {
    open spec fn obeys_from_spec() -> bool {
        true
    }

    open spec fn from_spec(value: Utf8Error) -> Kind {
        Kind::UnicodeError(UnicodeError::InvalidUTF8(value))
    }
}

/// How a [`Utf8Error`] is shown to developers.
pub open spec fn utf8_error_debug(e: Utf8Error) -> Seq<char> {
    "Utf8Error { valid_up_to: "@ + decimal(e.valid_up_to as nat) + ", error_len: "@ + (
    match e.error_len {
        Some(n) => "Some("@ + decimal(n as nat) + ")"@,
        None => "None"@,
    }) + " }"@
}

impl Fault {
    /// The message for this fault.
    pub open spec fn message(self) -> Seq<char> {
        match self {
            Fault::Io(e) => "i/o error: "@ + e,
            Fault::UnexpectedEOF => "unexpected end of input"@,
            Fault::InvalidByte { byte, reason } => "invalid byte: '"@ + hexadecimal(byte as nat)
                + "' ("@ + reason + ")"@,
            Fault::InvalidEscapeSequence(b) => "invalid escape sequence: '"@ + hexadecimal(
                b as nat,
            ) + "'"@,
            Fault::InvalidHexCharacter(c) => "invalid hexadecimal character: '"@ + seq![c] + "'"@,
            Fault::UnicodeError(UnicodeError::InvalidUTF16(s)) =>
                "UTF16 error: unpaired surrogate found: "@ + hexadecimal(s as nat),
            Fault::UnicodeError(UnicodeError::UnpairedHighSurrogate(s)) =>
                "unpaired UTF16 high surrogate: "@ + hexadecimal(s as nat),
            Fault::UnicodeError(UnicodeError::UnpairedLowSurrogate(s)) =>
                "orphaned UTF16 low surrogate: "@ + hexadecimal(s as nat),
            Fault::UnicodeError(UnicodeError::InvalidUTF8(e)) => "UTF8 error: '"@
                + utf8_error_debug(e) + "'"@,
            Fault::UnicodeError(UnicodeError::InvalidUTF8Start(b)) =>
                "invalid UTF8 start byte: '"@ + hexadecimal(b as nat) + "'"@,
            Fault::NestingTooDeep(d) => "values nested too deep: "@ + decimal(d),
        }
    }
}

fn utf8_error_text(e: &Utf8Error) -> (s: String)
    ensures
        s@ == utf8_error_debug(*e),
{
    let mut s: String = "Utf8Error { valid_up_to: ".to_owned();
    push_decimal(&mut s, e.valid_up_to as u64);
    s.append(", error_len: ");
    let mut inner: String = String::new();
    match e.error_len {
        Some(n) => {
            inner.append("Some(");
            push_decimal(&mut inner, n as u64);
            inner.append(")");
            assert(inner@ =~= "Some("@ + decimal(n as nat) + ")"@);
        },
        None => {
            inner.append("None");
            assert(inner@ =~= "None"@);
        },
    }
    s.append(inner.as_str());
    s.append(" }");
    s
}

impl Kind {
    /// The message for this kind of error.
    pub fn to_string(&self) -> (s: String)
        ensures
            s@ == self@.message(),
    {
        let mut s: String = String::new();
        match self {
            Kind::Io(e) => {
                s.append("i/o error: ");
                s.append(e.as_str());
            },
            Kind::UnexpectedEOF => {
                s.append("unexpected end of input");
            },
            Kind::InvalidByte { byte, reason } => {
                s.append("invalid byte: '");
                push_hexadecimal(&mut s, *byte as u64);
                s.append("' (");
                s.append(reason.as_str());
                s.append(")");
            },
            Kind::InvalidEscapeSequence(b) => {
                s.append("invalid escape sequence: '");
                push_hexadecimal(&mut s, *b as u64);
                s.append("'");
            },
            Kind::InvalidHexCharacter(c) => {
                s.append("invalid hexadecimal character: '");
                s.push(*c);
                s.append("'");
            },
            Kind::UnicodeError(UnicodeError::InvalidUTF16(x)) => {
                s.append("UTF16 error: unpaired surrogate found: ");
                push_hexadecimal(&mut s, *x as u64);
            },
            Kind::UnicodeError(UnicodeError::UnpairedHighSurrogate(x)) => {
                s.append("unpaired UTF16 high surrogate: ");
                push_hexadecimal(&mut s, *x as u64);
            },
            Kind::UnicodeError(UnicodeError::UnpairedLowSurrogate(x)) => {
                s.append("orphaned UTF16 low surrogate: ");
                push_hexadecimal(&mut s, *x as u64);
            },
            Kind::UnicodeError(UnicodeError::InvalidUTF8(e)) => {
                s.append("UTF8 error: '");
                s.append(utf8_error_text(e).as_str());
                s.append("'");
            },
            Kind::UnicodeError(UnicodeError::InvalidUTF8Start(b)) => {
                s.append("invalid UTF8 start byte: '");
                push_hexadecimal(&mut s, *b as u64);
                s.append("'");
            },
            Kind::NestingTooDeep(d) => {
                s.append("values nested too deep: ");
                push_decimal(&mut s, *d as u64);
            },
        }
        assert(s@ =~= self@.message());
        s
    }
}

impl Error {
    /// The kind of error.
    pub fn kind(&self) -> (k: &Kind)
        ensures
            *k == self.kind,
    {
        &self.kind
    }

    /// The position in the input at which the error occurred.
    pub fn pos(&self) -> (p: usize)
        ensures
            p == self.pos,
    {
        self.pos
    }

    /// The message for this error.
    pub open spec fn message(self) -> Seq<char> {
        "JSON parsing error at byte offset "@ + decimal(self.pos as nat) + ": "@
            + self.kind@.message()
    }

    /// The message for this error.
    pub fn to_string(&self) -> (s: String)
        ensures
            s@ == self.message(),
    {
        let mut s: String = "JSON parsing error at byte offset ".to_owned();
        push_decimal(&mut s, self.pos as u64);
        s.append(": ");
        s.append(self.kind.to_string().as_str());
        s
    }
}

} // verus!
