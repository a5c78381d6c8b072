//! What a JSON text means: which value it stands for, or what is wrong with it, and how
//! far it has to be read to know.
//!
//! The functions follow the diagrams at <https://www.json.org/json-en.html>.
use crate::assoc::put;
use crate::json::error::{Fault, UnicodeError};
use crate::json::value::Json;
use crate::utf8::utf8_fault;
use vstd::prelude::*;
use vstd::utf8::{decode_utf8, valid_utf8};

verus! {

/// Maximum permissible depth in parsing values. Documents with values (objects, arrays)
/// nested deeper than this are rejected.
pub const MAX_DEPTH: usize = 256;

/// What there is to read: some bytes, then the end, or a failure to read on.
pub struct Input {
    pub bytes: Seq<u8>,
    pub failure: Option<Seq<char>>,
}

/// How far reading has come.
pub struct At {
    /// The next byte to read.
    pub cur: nat,
    /// How many bytes count as read, for reporting.
    pub pos: nat,
    /// How many values are open around this place.
    pub depth: nat,
    /// A UTF-16 high surrogate that waits for its partner.
    pub pending: Option<u16>,
}

/// Something that was read, or what kept it from being read; and how far reading came.
pub type Outcome<T> = Result<(T, At), (Fault, At)>;

pub open spec fn invalid<T>(byte: u8, reason: Seq<char>, at: At) -> Outcome<T> {
    Err((Fault::InvalidByte { byte, reason }, at))
}

/// The next byte, without reading it.
pub open spec fn peek(input: Input, at: At) -> Option<u8> {
    if at.cur < input.bytes.len() {
        Some(input.bytes[at.cur as int])
    } else {
        None
    }
}

/// Reads a byte that has to be there.
pub open spec fn next(input: Input, at: At) -> Outcome<u8> {
    if at.cur < input.bytes.len() {
        Ok((input.bytes[at.cur as int], At { cur: at.cur + 1, pos: at.pos + 1, ..at }))
    } else {
        match input.failure {
            Some(m) => Err((Fault::Io(m), at)),
            None => Err((Fault::UnexpectedEOF, at)),
        }
    }
}

/// Note JSON whitespace differs from Unicode whitespace, it's a narrower definition.
pub open spec fn is_space(b: u8) -> bool {
    b == 0x20 || b == 0x0a || b == 0x0d || b == 0x09
}

/// Skips whitespace, if there is any.
pub open spec fn spaces(input: Input, at: At) -> At
    decreases input.bytes.len() - at.cur,
{
    if at.cur < input.bytes.len() && is_space(input.bytes[at.cur as int]) {
        spaces(input, At { cur: at.cur + 1, pos: at.pos + 1, ..at })
    } else {
        at
    }
}

/// Reads the bytes of `word` from its `i`-th on.
pub open spec fn word(input: Input, at: At, word: Seq<u8>, i: int, scanning: Seq<char>) -> Outcome<()>
    decreases word.len() - i,
{
    if i >= word.len() {
        Ok(((), at))
    } else {
        match next(input, at) {
            Err(e) => Err(e),
            Ok((got, at1)) => if got != word[i] {
                invalid(
                    got,
                    "expected "@ + seq![word[i] as char] + scanning + seq![got as char],
                    at1,
                )
            } else {
                self::word(input, at1, word, i + 1, scanning)
            },
        }
    }
}

/// Reads `true` or `false`; the first byte tells which it has to be.
pub open spec fn boolean(input: Input, at: At) -> Outcome<bool> {
    match next(input, at) {
        Err(e) => Err(e),
        Ok((b, at1)) => {
            let rest = if b == 0x74 {
                seq![0x72u8, 0x75, 0x65]
            } else {
                seq![0x61u8, 0x6c, 0x73, 0x65]
            };
            match word(input, at1, rest, 0, " scanning boolean value, got "@) {
                Err(e) => Err(e),
                Ok((_, at2)) => Ok((b == 0x74, at2)),
            }
        },
    }
}

/// Reads `null`.
pub open spec fn null(input: Input, at: At) -> Outcome<()> {
    word(input, at, seq![0x6eu8, 0x75, 0x6c, 0x6c], 0, " scanning for null, got "@)
}

pub open spec fn is_digit(b: u8) -> bool {
    0x30 <= b <= 0x39
}

/// Reads digits for as long as there are any, and appends them to `number`.
pub open spec fn digits(input: Input, at: At, number: Seq<char>) -> (Seq<char>, At)
    decreases input.bytes.len() - at.cur,
{
    if at.cur < input.bytes.len() && is_digit(input.bytes[at.cur as int]) {
        digits(
            input,
            At { cur: at.cur + 1, pos: at.pos + 1, ..at },
            number.push(input.bytes[at.cur as int] as char),
        )
    } else {
        (number, at)
    }
}

/// The integral part of a number: a sign or none, then either a lone zero or digits that
/// do not start with one.
pub open spec fn integral(input: Input, at: At, number: Seq<char>) -> Outcome<Seq<char>> {
    let (signed, at1) = if peek(input, at) == Some(0x2du8) {
        (number.push('-'), At { cur: at.cur + 1, pos: at.pos + 1, ..at })
    } else {
        (number, at)
    };
    match next(input, at1) {
        Err(e) => Err(e),
        Ok((b, at2)) => if b == 0x30 {
            Ok((signed.push('0'), at2))
        } else if is_digit(b) {
            Ok(digits(input, at2, signed.push(b as char)))
        } else {
            invalid(b, "expected digit after - sign scanning number"@, at2)
        },
    }
}

/// The fractional part of a number, if there is one: a point and at least one digit.
pub open spec fn fractional(input: Input, at: At, number: Seq<char>) -> Outcome<Seq<char>> {
    if peek(input, at) != Some(0x2eu8) {
        Ok((number, at))
    } else {
        match next(input, At { cur: at.cur + 1, pos: at.pos + 1, ..at }) {
            Err(e) => Err(e),
            Ok((b, at1)) => if is_digit(b) {
                Ok(digits(input, at1, number.push('.').push(b as char)))
            } else {
                invalid(b, "expected at least one digit for fractional part"@, at1)
            },
        }
    }
}

/// The exponent part of a number, if there is one: `e` (or `E`, which becomes `e`), a
/// sign or none, and at least one digit.
pub open spec fn exponent(input: Input, at: At, number: Seq<char>) -> Outcome<Seq<char>> {
    if peek(input, at) != Some(0x65u8) && peek(input, at) != Some(0x45u8) {
        Ok((number, at))
    } else {
        match next(input, At { cur: at.cur + 1, pos: at.pos + 1, ..at }) {
            Err(e) => Err(e),
            Ok((b, at1)) => if b == 0x2b || b == 0x2d {
                match next(input, at1) {
                    Err(e) => Err(e),
                    Ok((c, at2)) => if is_digit(c) {
                        Ok(digits(input, at2, number.push('e').push(b as char).push(c as char)))
                    } else {
                        invalid(c, "expected digit after sign scanning number exponent"@, at2)
                    },
                }
            } else if is_digit(b) {
                Ok(digits(input, at1, number.push('e').push(b as char)))
            } else {
                invalid(b, "expected digit or sign scanning number exponent"@, at1)
            },
        }
    }
}

/// A number. A digit right behind it means that it had a leading zero.
pub open spec fn number(input: Input, at: At) -> Outcome<Seq<char>> {
    match integral(input, at, seq![]) {
        Err(e) => Err(e),
        Ok((n1, at1)) => match fractional(input, at1, n1) {
            Err(e) => Err(e),
            Ok((n2, at2)) => match exponent(input, at2, n2) {
                Err(e) => Err(e),
                Ok((n3, at3)) => match peek(input, at3) {
                    Some(b) => if is_digit(b) {
                        invalid(
                            b,
                            "unexpected digit remaining after processing number ('Number(\""@ + n3
                                + "\")')"@,
                            at3,
                        )
                    } else {
                        Ok((n3, at3))
                    },
                    None => Ok((n3, at3)),
                },
            },
        },
    }
}

/// The value of a hexadecimal digit.
pub open spec fn hex_digit(b: u8) -> Option<int> {
    if 0x30 <= b <= 0x39 {
        Some(b - 0x30)
    } else if 0x61 <= b <= 0x66 {
        Some(b - 0x61 + 10)
    } else if 0x41 <= b <= 0x46 {
        Some(b - 0x41 + 10)
    } else {
        None
    }
}

/// Reads `n` hexadecimal digits behind the number `val`.
pub open spec fn hex(input: Input, at: At, n: nat, val: int) -> Outcome<int>
    decreases n,
{
    if n == 0 {
        Ok((val, at))
    } else {
        match next(input, at) {
            Err(e) => Err(e),
            Ok((b, at1)) => match hex_digit(b) {
                None => Err((Fault::InvalidHexCharacter(b as char), at1)),
                Some(d) => hex(input, at1, (n - 1) as nat, val * 16 + d),
            },
        }
    }
}

/// The character for a UTF-16 surrogate pair.
pub open spec fn paired(high: int, low: int) -> char {
    (0x10000 + (high - 0xd800) * 0x400 + (low - 0xdc00)) as char
}

/// Reads the partner of the high surrogate that waits for one.
pub open spec fn partner(input: Input, at: At, high: u16) -> Outcome<char> {
    match next(input, at) {
        Err(e) => Err(e),
        Ok((b1, at1)) => match next(input, at1) {
            Err(e) => Err(e),
            Ok((b2, at2)) => if b1 != 0x5c || b2 != 0x75 {
                Err((Fault::UnicodeError(UnicodeError::UnpairedHighSurrogate(high)), at2))
            } else {
                match hex(input, at2, 4, 0) {
                    Err(e) => Err(e),
                    Ok((low, at3)) => if 0xdc00 <= low <= 0xdfff {
                        Ok((paired(high as int, low), At { pending: None, ..at3 }))
                    } else {
                        Err((Fault::UnicodeError(UnicodeError::InvalidUTF16(high)), at3))
                    },
                }
            },
        },
    }
}

/// What an escape of one letter stands for.
pub open spec fn short_escape(b: u8) -> Option<char> {
    if b == 0x22 {
        Some('"')
    } else if b == 0x5c {
        Some('\\')
    } else if b == 0x2f {
        Some('/')
    } else if b == 0x62 {
        Some('\u{8}')
    } else if b == 0x66 {
        Some('\u{c}')
    } else if b == 0x6e {
        Some('\n')
    } else if b == 0x72 {
        Some('\r')
    } else if b == 0x74 {
        Some('\t')
    } else {
        None
    }
}

/// What stands behind a backslash. A high surrogate gives nothing yet.
pub open spec fn escape_sequence(input: Input, at: At) -> Outcome<Seq<char>> {
    match next(input, at) {
        Err(e) => Err(e),
        Ok((b, at1)) => match short_escape(b) {
            Some(c) => Ok((seq![c], at1)),
            None => if b == 0x75 {
                match hex(input, at1, 4, 0) {
                    Err(e) => Err(e),
                    Ok((v, at2)) => if 0xd800 <= v <= 0xdbff {
                        Ok((seq![], At { pending: Some(v as u16), ..at2 }))
                    } else if 0xdc00 <= v <= 0xdfff {
                        Err(
                            (
                                Fault::UnicodeError(UnicodeError::UnpairedLowSurrogate(v as u16)),
                                at2,
                            ),
                        )
                    } else {
                        Ok((seq![v as char], at2))
                    },
                }
            } else {
                Err((Fault::InvalidEscapeSequence(b), at1))
            },
        },
    }
}

/// How many bytes a character takes, going by the bits of its first byte alone.
pub open spec fn utf8_width(b: u8) -> Option<nat> {
    if b / 32 % 2 == 0 {
        Some(2)
    } else if b / 16 % 2 == 0 {
        Some(3)
    } else if b / 8 % 2 == 0 {
        Some(4)
    } else {
        None
    }
}

/// Reads `n` more bytes behind `got`.
pub open spec fn more(input: Input, at: At, n: nat, got: Seq<u8>) -> Outcome<Seq<u8>>
    decreases n,
{
    if n == 0 {
        Ok((got, at))
    } else {
        match next(input, at) {
            Err(e) => Err(e),
            Ok((b, at1)) => more(input, at1, (n - 1) as nat, got.push(b)),
        }
    }
}

/// Reads the rest of a character that starts with the non-ASCII byte `b`.
pub open spec fn multi_byte(input: Input, at: At, b: u8) -> Outcome<Seq<char>> {
    match utf8_width(b) {
        None => Err((Fault::UnicodeError(UnicodeError::InvalidUTF8Start(b)), at)),
        Some(w) => match more(input, at, (w - 1) as nat, seq![b]) {
            Err(e) => Err(e),
            Ok((bytes, at1)) => if valid_utf8(bytes) {
                Ok((decode_utf8(bytes), at1))
            } else {
                Err(
                    (
                        Fault::UnicodeError(
                            UnicodeError::InvalidUTF8(utf8_fault(bytes, 0)->Some_0),
                        ),
                        at1,
                    ),
                )
            },
        },
    }
}

/// One piece of a string: what it adds, and whether it was the end.
pub struct Piece {
    pub adds: Seq<char>,
    pub ends: bool,
}

/// Reads one piece of a string.
pub open spec fn piece(input: Input, at: At) -> Outcome<Piece> {
    match next(input, at) {
        Err(e) => Err(e),
        Ok((b, at1)) => if b == 0x22 {
            Ok((Piece { adds: seq![], ends: true }, at1))
        } else if b == 0x5c {
            match escape_sequence(input, at1) {
                Err(e) => Err(e),
                Ok((s, at2)) => Ok((Piece { adds: s, ends: false }, at2)),
            }
        } else if b <= 0x1f {
            // Note: DELETE aka 0x7F is permitted literally in JSON strings, cf.
            // https://datatracker.ietf.org/doc/html/rfc8259#section-7.
            invalid(b, "unescaped control character"@, at1)
        } else if b <= 0x7f {
            Ok((Piece { adds: seq![b as char], ends: false }, at1))
        } else {
            match multi_byte(input, at1, b) {
                Err(e) => Err(e),
                Ok((s, at2)) => Ok((Piece { adds: s, ends: false }, at2)),
            }
        },
    }
}

/// Reads the partner of a waiting high surrogate, if one waits, and then one piece.
pub open spec fn pending_piece(input: Input, at: At) -> Outcome<Piece> {
    match at.pending {
        None => piece(input, at),
        Some(high) => match partner(input, at, high) {
            Err(e) => Err(e),
            Ok((c, at1)) => match piece(input, at1) {
                Err(e) => Err(e),
                Ok((p, at2)) => Ok((Piece { adds: seq![c] + p.adds, ends: p.ends }, at2)),
            },
        },
    }
}

/// Reading went on from `a` to `b`, inside the same values and at least `n` bytes far.
pub open spec fn onward(input: Input, a: At, b: At, n: int) -> bool {
    &&& b.cur >= a.cur + n
    &&& b.cur - a.cur == b.pos - a.pos
    &&& a.cur <= input.bytes.len() ==> b.cur <= input.bytes.len()
    &&& b.depth == a.depth
}

/// Where an outcome leaves off: at least `n` bytes on, if it succeeds.
pub open spec fn reads_on<T>(input: Input, a: At, r: Outcome<T>, n: int) -> bool {
    match r {
        Ok((_, b)) => onward(input, a, b, n),
        Err((_, b)) => onward(input, a, b, 0),
    }
}

pub proof fn lemma_hex_at(input: Input, at: At, n: nat, val: int)
    ensures
        reads_on(input, at, hex(input, at, n, val), n as int),
        hex(input, at, n, val) matches Ok((_, b)) ==> b.pending == at.pending,
    decreases n,
{
    if n > 0 {
        if let Ok((b, at1)) = next(input, at) {
            if let Some(d) = hex_digit(b) {
                lemma_hex_at(input, at1, (n - 1) as nat, val * 16 + d);
            }
        }
    }
}

pub proof fn lemma_more_at(input: Input, at: At, n: nat, got: Seq<u8>)
    ensures
        reads_on(input, at, more(input, at, n, got), n as int),
        more(input, at, n, got) matches Ok((_, b)) ==> b.pending == at.pending,
    decreases n,
{
    if n > 0 {
        if let Ok((b, at1)) = next(input, at) {
            lemma_more_at(input, at1, (n - 1) as nat, got.push(b));
        }
    }
}

pub proof fn lemma_piece_at(input: Input, at: At)
    ensures
        reads_on(input, at, piece(input, at), 1),
{
    if let Ok((b, at1)) = next(input, at) {
        if let Ok((_, at2)) = next(input, at1) {
            lemma_hex_at(input, at2, 4, 0);
        }
        if let Some(w) = utf8_width(b) {
            lemma_more_at(input, at1, (w - 1) as nat, seq![b]);
        }
    }
}

pub proof fn lemma_pending_piece_at(input: Input, at: At)
    ensures
        reads_on(input, at, pending_piece(input, at), 1),
{
    match at.pending {
        None => {
            lemma_piece_at(input, at);
        },
        Some(high) => {
            if let Ok((_, at1)) = next(input, at) {
                if let Ok((_, at2)) = next(input, at1) {
                    lemma_hex_at(input, at2, 4, 0);
                }
            }
            if let Ok((_, at1)) = partner(input, at, high) {
                lemma_piece_at(input, at1);
            }
        },
    }
}

/// Reads a string to its end, behind what was read of it already.
pub open spec fn string_rest(input: Input, at: At, s: Seq<char>) -> Outcome<Seq<char>>
    decreases input.bytes.len() - at.cur,
{
    proof {
        lemma_pending_piece_at(input, at);
    }
    match pending_piece(input, at) {
        Err(e) => Err(e),
        Ok((p, at1)) => if p.ends {
            Ok((s + p.adds, at1))
        } else {
            string_rest(input, at1, s + p.adds)
        },
    }
}

/// Reads a string, from its opening quote on.
pub open spec fn string(input: Input, at: At) -> Outcome<Seq<char>> {
    match next(input, at) {
        Err(e) => Err(e),
        Ok((b, at1)) => if b != 0x22 {
            invalid(b, "expected \" for start of string"@, at1)
        } else {
            string_rest(input, at1, seq![])
        },
    }
}

pub proof fn lemma_string_rest_at(input: Input, at: At, s: Seq<char>)
    ensures
        reads_on(input, at, string_rest(input, at, s), 1),
    decreases input.bytes.len() - at.cur,
{
    lemma_pending_piece_at(input, at);
    if let Ok((p, at1)) = pending_piece(input, at) {
        if !p.ends {
            lemma_string_rest_at(input, at1, s + p.adds);
        }
    }
}

pub proof fn lemma_string_at(input: Input, at: At)
    ensures
        reads_on(input, at, string(input, at), 2),
{
    if let Ok((b, at1)) = next(input, at) {
        lemma_string_rest_at(input, at1, seq![]);
    }
}

pub proof fn lemma_spaces_at(input: Input, at: At)
    ensures
        onward(input, at, spaces(input, at), 0),
        spaces(input, at).pending == at.pending,
        peek(input, spaces(input, at)) matches Some(b) ==> !is_space(b),
    decreases input.bytes.len() - at.cur,
{
    if at.cur < input.bytes.len() && is_space(input.bytes[at.cur as int]) {
        lemma_spaces_at(input, At { cur: at.cur + 1, pos: at.pos + 1, ..at });
    }
}

pub proof fn lemma_digits_at(input: Input, at: At, number: Seq<char>)
    ensures
        onward(input, at, digits(input, at, number).1, 0),
        digits(input, at, number).1.pending == at.pending,
    decreases input.bytes.len() - at.cur,
{
    if at.cur < input.bytes.len() && is_digit(input.bytes[at.cur as int]) {
        lemma_digits_at(
            input,
            At { cur: at.cur + 1, pos: at.pos + 1, ..at },
            number.push(input.bytes[at.cur as int] as char),
        );
    }
}

pub proof fn lemma_integral_at(input: Input, at: At, n: Seq<char>)
    ensures
        reads_on(input, at, integral(input, at, n), 1),
{
    let (signed, at1) = if peek(input, at) == Some(0x2du8) {
        (n.push('-'), At { cur: at.cur + 1, pos: at.pos + 1, ..at })
    } else {
        (n, at)
    };
    if let Ok((b, at2)) = next(input, at1) {
        lemma_digits_at(input, at2, signed.push(b as char));
    }
}

pub proof fn lemma_fractional_at(input: Input, at: At, n: Seq<char>)
    ensures
        reads_on(input, at, fractional(input, at, n), 0),
{
    if let Ok((b, at1)) = next(input, At { cur: at.cur + 1, pos: at.pos + 1, ..at }) {
        lemma_digits_at(input, at1, n.push('.').push(b as char));
    }
}

pub proof fn lemma_exponent_at(input: Input, at: At, n: Seq<char>)
    ensures
        reads_on(input, at, exponent(input, at, n), 0),
{
    if let Ok((b, at1)) = next(input, At { cur: at.cur + 1, pos: at.pos + 1, ..at }) {
        lemma_digits_at(input, at1, n.push('e').push(b as char));
        if let Ok((c, at2)) = next(input, at1) {
            lemma_digits_at(input, at2, n.push('e').push(b as char).push(c as char));
        }
    }
}

pub proof fn lemma_number_at(input: Input, at: At)
    ensures
        reads_on(input, at, number(input, at), 1),
{
    lemma_integral_at(input, at, seq![]);
    if let Ok((n1, at1)) = integral(input, at, seq![]) {
        lemma_fractional_at(input, at1, n1);
        if let Ok((n2, at2)) = fractional(input, at1, n1) {
            lemma_exponent_at(input, at2, n2);
        }
    }
}

pub proof fn lemma_word_at(input: Input, at: At, w: Seq<u8>, i: int, scanning: Seq<char>)
    requires
        0 <= i <= w.len(),
    ensures
        reads_on(input, at, word(input, at, w, i, scanning), w.len() - i),
    decreases w.len() - i,
{
    if i < w.len() {
        if let Ok((got, at1)) = next(input, at) {
            if got == w[i] {
                lemma_word_at(input, at1, w, i + 1, scanning);
            }
        }
    }
}

/// How much deeper values may be nested.
pub open spec fn room(at: At) -> nat {
    if at.depth <= MAX_DEPTH {
        (MAX_DEPTH + 1 - at.depth) as nat
    } else {
        0
    }
}

/// Reads the members of an object from a key on, to its closing brace. A key that comes
/// again replaces the value that it had.
pub open spec fn members(input: Input, at: At, m: Seq<(Seq<char>, Json)>) -> Outcome<
    Seq<(Seq<char>, Json)>,
>
    decreases room(at), input.bytes.len() - at.cur, 1int,
{
    proof {
        lemma_string_at(input, at);
    }
    match string(input, at) {
        Err(e) => Err(e),
        Ok((k, at1)) => {
            proof {
                lemma_spaces_at(input, at1);
            }
            match next(input, spaces(input, at1)) {
                Err(e) => Err(e),
                Ok((b, at2)) => if b != 0x3a {
                    invalid(b, "parsing object, expected : after key"@, at2)
                } else {
                    match value(input, at2) {
                        Err(e) => Err(e),
                        Ok((v, at3)) => match next(input, at3) {
                            Err(e) => Err(e),
                            Ok((c, at4)) => if c == 0x7d {
                                Ok((put(m, k, v), at4))
                            } else if c != 0x2c {
                                invalid(
                                    c,
                                    "parsing object, expected } or , after parsing a key/value pair"@,
                                    at4,
                                )
                            } else {
                                proof {
                                    lemma_spaces_at(input, at4);
                                }
                                // Reading a value never leads back.
                                if onward(input, at2, at3, 1) {
                                    members(input, spaces(input, at4), put(m, k, v))
                                } else {
                                    Err((Fault::UnexpectedEOF, at4))
                                }
                            },
                        },
                    }
                },
            }
        },
    }
}

/// Reads an object.
pub open spec fn object(input: Input, at: At) -> Outcome<Seq<(Seq<char>, Json)>>
    decreases room(at), input.bytes.len() - at.cur, 2int,
{
    match next(input, at) {
        Err(e) => Err(e),
        Ok((_, at1)) => {
            proof {
                lemma_spaces_at(input, at1);
            }
            let at2 = spaces(input, at1);
            if peek(input, at2) == Some(0x7du8) {
                Ok((seq![], At { cur: at2.cur + 1, pos: at2.pos + 1, ..at2 }))
            } else {
                members(input, at2, seq![])
            }
        },
    }
}

/// Reads the items of an array from one on, to its closing bracket.
pub open spec fn items(input: Input, at: At, a: Seq<Json>) -> Outcome<Seq<Json>>
    decreases room(at), input.bytes.len() - at.cur, 1int,
{
    match value(input, at) {
        Err(e) => Err(e),
        Ok((v, at1)) => match next(input, at1) {
            Err(e) => Err(e),
            Ok((c, at2)) => if c == 0x5d {
                Ok((a.push(v), at2))
            } else if c != 0x2c {
                invalid(
                    c,
                    "parsing array, need ] or , after parsing an array element"@,
                    at2,
                )
            } else {
                // Reading a value never leads back.
                if onward(input, at, at1, 1) {
                    items(input, at2, a.push(v))
                } else {
                    Err((Fault::UnexpectedEOF, at2))
                }
            },
        },
    }
}

/// Reads an array.
pub open spec fn array(input: Input, at: At) -> Outcome<Seq<Json>>
    decreases room(at), input.bytes.len() - at.cur, 2int,
{
    match next(input, at) {
        Err(e) => Err(e),
        Ok((_, at1)) => {
            proof {
                lemma_spaces_at(input, at1);
            }
            let at2 = spaces(input, at1);
            if peek(input, at2) == Some(0x5du8) {
                Ok((seq![], At { cur: at2.cur + 1, pos: at2.pos + 1, ..at2 }))
            } else {
                items(input, at2, seq![])
            }
        },
    }
}

/// Reads what its first byte says it is.
pub open spec fn bare_value(input: Input, at: At) -> Outcome<Json>
    decreases room(at), input.bytes.len() - at.cur, 3int,
{
    match peek(input, at) {
        None => Err((Fault::UnexpectedEOF, at)),
        Some(b) => if b == 0x22 {
            match string(input, at) {
                Err(e) => Err(e),
                Ok((s, at1)) => Ok((Json::String(s), at1)),
            }
        } else if b == 0x7b {
            match object(input, at) {
                Err(e) => Err(e),
                Ok((m, at1)) => Ok((Json::Object(m), at1)),
            }
        } else if b == 0x5b {
            match array(input, at) {
                Err(e) => Err(e),
                Ok((a, at1)) => Ok((Json::Array(a), at1)),
            }
        } else if b == 0x74 || b == 0x66 {
            match boolean(input, at) {
                Err(e) => Err(e),
                Ok((t, at1)) => Ok((Json::Bool(t), at1)),
            }
        } else if b == 0x6e {
            match null(input, at) {
                Err(e) => Err(e),
                Ok((_, at1)) => Ok((Json::Null, at1)),
            }
        } else if b == 0x2d || is_digit(b) {
            match number(input, at) {
                Err(e) => Err(e),
                Ok((n, at1)) => Ok((Json::Number(n), at1)),
            }
        } else {
            invalid(b, "invalid byte looking for beginning of value"@, at)
        },
    }
}

/// Reads a value, with whitespace on either side.
pub open spec fn value(input: Input, at: At) -> Outcome<Json>
    decreases room(at), input.bytes.len() - at.cur, 0int,
{
    let inside = At { depth: at.depth + 1, ..at };
    if inside.depth > MAX_DEPTH {
        Err((Fault::NestingTooDeep(inside.depth), inside))
    } else {
        proof {
            lemma_spaces_at(input, inside);
        }
        match bare_value(input, spaces(input, inside)) {
            Err(e) => Err(e),
            Ok((v, at1)) => {
                let at2 = spaces(input, at1);
                Ok((v, At { depth: (at2.depth - 1) as nat, ..at2 }))
            },
        }
    }
}

/// Reads a document: one value, and nothing behind it.
pub open spec fn document(input: Input, at: At) -> Outcome<Json> {
    match value(input, at) {
        Err(e) => Err(e),
        Ok((v, at1)) => match next(input, at1) {
            Ok((more, at2)) => invalid(
                more,
                "excessive data in input after parsing one JSON value"@,
                At { pos: at1.pos, ..at2 },
            ),
            Err((Fault::Io(m), at2)) => Err((Fault::Io(m), at2)),
            Err(_) => Ok((v, at1)),
        },
    }
}

/// Where an outcome leaves off, if it succeeds.
pub open spec fn goes_on<T>(input: Input, a: At, r: Outcome<T>, n: int) -> bool {
    r matches Ok((_, b)) ==> onward(input, a, b, n)
}

pub proof fn lemma_members_at(input: Input, at: At, m: Seq<(Seq<char>, Json)>)
    ensures
        goes_on(input, at, members(input, at, m), 1),
    decreases room(at), input.bytes.len() - at.cur, 1int,
{
    lemma_string_at(input, at);
    if let Ok((k, at1)) = string(input, at) {
        lemma_spaces_at(input, at1);
        if let Ok((b, at2)) = next(input, spaces(input, at1)) {
            if b == 0x3a {
                lemma_value_at(input, at2);
                if let Ok((v, at3)) = value(input, at2) {
                    if let Ok((c, at4)) = next(input, at3) {
                        if c == 0x2c {
                            lemma_spaces_at(input, at4);
                            lemma_members_at(input, spaces(input, at4), put(m, k, v));
                        }
                    }
                }
            }
        }
    }
}

pub proof fn lemma_items_at(input: Input, at: At, a: Seq<Json>)
    ensures
        goes_on(input, at, items(input, at, a), 1),
    decreases room(at), input.bytes.len() - at.cur, 1int,
{
    lemma_value_at(input, at);
    if let Ok((v, at1)) = value(input, at) {
        if let Ok((c, at2)) = next(input, at1) {
            if c == 0x2c {
                lemma_items_at(input, at2, a.push(v));
            }
        }
    }
}

pub proof fn lemma_bare_value_at(input: Input, at: At)
    ensures
        goes_on(input, at, bare_value(input, at), 1),
    decreases room(at), input.bytes.len() - at.cur, 3int,
{
    lemma_string_at(input, at);
    lemma_number_at(input, at);
    lemma_word_at(
        input,
        at,
        seq![0x6eu8, 0x75, 0x6c, 0x6c],
        0,
        " scanning for null, got "@,
    );
    if let Ok((b, at1)) = next(input, at) {
        lemma_word_at(
            input,
            at1,
            seq![0x72u8, 0x75, 0x65],
            0,
            " scanning boolean value, got "@,
        );
        lemma_word_at(
            input,
            at1,
            seq![0x61u8, 0x6c, 0x73, 0x65],
            0,
            " scanning boolean value, got "@,
        );
        lemma_spaces_at(input, at1);
        lemma_members_at(input, spaces(input, at1), seq![]);
        lemma_items_at(input, spaces(input, at1), seq![]);
    }
}

/// Reading a value goes on by at least a byte, and ends as deep as it began.
pub proof fn lemma_value_at(input: Input, at: At)
    ensures
        goes_on(input, at, value(input, at), 1),
    decreases room(at), input.bytes.len() - at.cur, 0int,
{
    let inside = At { depth: at.depth + 1, ..at };
    if inside.depth <= MAX_DEPTH {
        lemma_spaces_at(input, inside);
        lemma_bare_value_at(input, spaces(input, inside));
        if let Ok((v, at1)) = bare_value(input, spaces(input, inside)) {
            lemma_spaces_at(input, at1);
        }
    }
}

} // verus!
