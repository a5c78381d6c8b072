//! What an error complains of is there, where the error says.
use crate::assoc::put;
use crate::json::error::Fault;
use crate::json::grammar::{
    bare_value, fractional, hex, hex_digit, integral, items, lemma_bare_value_at, lemma_exponent_at,
    lemma_fractional_at, lemma_integral_at, lemma_pending_piece_at, lemma_spaces_at, lemma_string_at,
    lemma_value_at, members, more, next, number, partner, pending_piece, piece, room, spaces, string, string_rest,
    utf8_width, value, word, At, Input, Outcome,
};
use crate::json::parser::parsed;
use crate::json::value::Json;
use vstd::prelude::*;

verus! {

/// Reading has come as far as it says, and not beyond the end.
spec fn within(input: Input, at: At) -> bool {
    at.pos == at.cur && at.cur <= input.bytes.len()
}

/// Reading can go on from here.
spec fn fair(input: Input, at: At) -> bool {
    within(input, at) && at.depth <= 256
}

/// A byte lies just in front of `at`, or there.
spec fn lies_at(input: Input, at: At, b: u8) -> bool {
    (at.cur > 0 && input.bytes[at.cur - 1] == b) || (at.cur < input.bytes.len()
        && input.bytes[at.cur as int] == b)
}

/// What a fault complains of is there.
spec fn true_of(input: Input, k: Fault, at: At) -> bool {
    &&& within(input, at)
    &&& match k {
        Fault::InvalidByte { byte, .. } => lies_at(input, at, byte),
        Fault::InvalidEscapeSequence(b) => at.cur > 0 && input.bytes[at.cur - 1] == b,
        Fault::InvalidHexCharacter(c) => at.cur > 0 && input.bytes[at.cur - 1] as char == c,
        Fault::UnexpectedEOF => at.cur == input.bytes.len(),
        Fault::NestingTooDeep(d) => d == 257,
        _ => true,
    }
}

spec fn blames<T>(input: Input, a: At, r: Outcome<T>) -> bool {
    fair(input, a) && input.failure is None ==> match r {
        Ok((_, b)) => fair(input, b),
        Err((k, b)) => true_of(input, k, b),
    }
}

proof fn lemma_word_blames(input: Input, at: At, w: Seq<u8>, i: int, scanning: Seq<char>)
    ensures
        blames(input, at, word(input, at, w, i, scanning)),
    decreases w.len() - i,
{
    if i < w.len() {
        if let Ok((got, at1)) = next(input, at) {
            if got == w[i] {
                lemma_word_blames(input, at1, w, i + 1, scanning);
            }
        }
    }
}

proof fn lemma_hex_blames(input: Input, at: At, n: nat, val: int)
    ensures
        blames(input, at, hex(input, at, n, val)),
    decreases n,
{
    if n > 0 {
        if let Ok((b, at1)) = next(input, at) {
            if let Some(d) = hex_digit(b) {
                lemma_hex_blames(input, at1, (n - 1) as nat, val * 16 + d);
            }
        }
    }
}

proof fn lemma_more_blames(input: Input, at: At, n: nat, got: Seq<u8>)
    ensures
        blames(input, at, more(input, at, n, got)),
    decreases n,
{
    if n > 0 {
        if let Ok((b, at1)) = next(input, at) {
            lemma_more_blames(input, at1, (n - 1) as nat, got.push(b));
        }
    }
}

proof fn lemma_number_blames(input: Input, at: At)
    ensures
        blames(input, at, number(input, at)),
{
    lemma_integral_at(input, at, seq![]);
    if let Ok((n1, at1)) = integral(input, at, seq![]) {
        lemma_fractional_at(input, at1, n1);
        if let Ok((n2, at2)) = fractional(input, at1, n1) {
            lemma_exponent_at(input, at2, n2);
        }
    }
}

proof fn lemma_piece_blames(input: Input, at: At)
    ensures
        blames(input, at, piece(input, at)),
{
    if let Ok((b, at1)) = next(input, at) {
        if let Ok((_, at2)) = next(input, at1) {
            lemma_hex_blames(input, at2, 4, 0);
        }
        if let Some(w) = utf8_width(b) {
            lemma_more_blames(input, at1, (w - 1) as nat, seq![b]);
        }
    }
}

proof fn lemma_pending_blames(input: Input, at: At)
    ensures
        blames(input, at, pending_piece(input, at)),
{
    match at.pending {
        None => {
            lemma_piece_blames(input, at);
        },
        Some(high) => {
            if let Ok((_, at1)) = next(input, at) {
                if let Ok((_, at2)) = next(input, at1) {
                    lemma_hex_blames(input, at2, 4, 0);
                }
            }
            if let Ok((_, at1)) = partner(input, at, high) {
                lemma_piece_blames(input, at1);
            }
        },
    }
}

proof fn lemma_string_rest_blames(input: Input, at: At, s: Seq<char>)
    ensures
        blames(input, at, string_rest(input, at, s)),
    decreases input.bytes.len() - at.cur,
{
    lemma_pending_piece_at(input, at);
    lemma_pending_blames(input, at);
    if let Ok((p, at1)) = pending_piece(input, at) {
        if !p.ends {
            lemma_string_rest_blames(input, at1, s + p.adds);
        }
    }
}

proof fn lemma_string_blames(input: Input, at: At)
    ensures
        blames(input, at, string(input, at)),
{
    if let Ok((b, at1)) = next(input, at) {
        lemma_string_rest_blames(input, at1, seq![]);
    }
}

proof fn lemma_members_blame(input: Input, at: At, m: Seq<(Seq<char>, Json)>)
    ensures
        blames(input, at, members(input, at, m)),
    decreases room(at), input.bytes.len() - at.cur, 1int,
{
    lemma_string_at(input, at);
    lemma_string_blames(input, at);
    if let Ok((k, at1)) = string(input, at) {
        lemma_spaces_at(input, at1);
        if let Ok((b, at2)) = next(input, spaces(input, at1)) {
            if b == 0x3a {
                lemma_value_at(input, at2);
                lemma_value_blames(input, at2);
                if let Ok((v, at3)) = value(input, at2) {
                    if let Ok((c, at4)) = next(input, at3) {
                        if c == 0x2c {
                            lemma_spaces_at(input, at4);
                            lemma_members_blame(input, spaces(input, at4), put(m, k, v));
                        }
                    }
                }
            }
        }
    }
}

proof fn lemma_items_blame(input: Input, at: At, a: Seq<Json>)
    ensures
        blames(input, at, items(input, at, a)),
    decreases room(at), input.bytes.len() - at.cur, 1int,
{
    lemma_value_at(input, at);
    lemma_value_blames(input, at);
    if let Ok((v, at1)) = value(input, at) {
        if let Ok((c, at2)) = next(input, at1) {
            if c == 0x2c {
                lemma_items_blame(input, at2, a.push(v));
            }
        }
    }
}

proof fn lemma_bare_blames(input: Input, at: At)
    ensures
        blames(input, at, bare_value(input, at)),
    decreases room(at), input.bytes.len() - at.cur, 3int,
{
    lemma_string_blames(input, at);
    lemma_number_blames(input, at);
    lemma_word_blames(
        input,
        at,
        seq![0x6eu8, 0x75, 0x6c, 0x6c],
        0,
        " scanning for null, got "@,
    );
    if let Ok((b, at1)) = next(input, at) {
        lemma_word_blames(
            input,
            at1,
            seq![0x72u8, 0x75, 0x65],
            0,
            " scanning boolean value, got "@,
        );
        lemma_word_blames(
            input,
            at1,
            seq![0x61u8, 0x6c, 0x73, 0x65],
            0,
            " scanning boolean value, got "@,
        );
        lemma_spaces_at(input, at1);
        lemma_members_blame(input, spaces(input, at1), seq![]);
        lemma_items_blame(input, spaces(input, at1), seq![]);
    }
}

proof fn lemma_value_blames(input: Input, at: At)
    ensures
        blames(input, at, value(input, at)),
    decreases room(at), input.bytes.len() - at.cur, 0int,
{
    let inside = At { depth: at.depth + 1, ..at };
    if inside.depth <= 256 {
        lemma_spaces_at(input, inside);
        lemma_bare_value_at(input, spaces(input, inside));
        lemma_bare_blames(input, spaces(input, inside));
        if let Ok((v, at1)) = bare_value(input, spaces(input, inside)) {
            lemma_spaces_at(input, at1);
        }
    }
}

/// The byte that an error complains of lies just in front of the error's position, or there. An
/// unexpected end is the end of the data. What lies too deep lies deeper than 256 values.
pub proof fn errors_complain_of_what_is_there(data: Seq<u8>)
    ensures
        parsed(data) matches Err((k, pos)) ==> pos <= data.len() && match k {
            Fault::InvalidByte { byte, .. } => (pos > 0 && data[pos - 1] == byte) || (pos < data.len()
                && data[pos as int] == byte),
            Fault::InvalidEscapeSequence(b) => pos > 0 && data[pos - 1] == b,
            Fault::InvalidHexCharacter(c) => pos > 0 && data[pos - 1] as char == c,
            Fault::UnexpectedEOF => pos == data.len(),
            Fault::NestingTooDeep(d) => d == 257,
            _ => true,
        },
{
    let input = Input { bytes: data, failure: None };
    let at = At { cur: 0, pos: 0, depth: 0, pending: None };
    lemma_value_blames(input, at);
}

} // verus!
