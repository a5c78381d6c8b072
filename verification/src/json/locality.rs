//! Where reading a JSON text fails, and what that depends on.
use crate::assoc::put;
use crate::json::error::Fault;
use crate::json::grammar::{
    array, bare_value, boolean, digits, escape_sequence, exponent, fractional, hex, hex_digit, integral, is_digit,
    is_space, items, lemma_digits_at, lemma_exponent_at, lemma_fractional_at, lemma_hex_at, lemma_integral_at,
    lemma_more_at, lemma_number_at, lemma_pending_piece_at, lemma_piece_at, lemma_spaces_at, lemma_string_at,
    lemma_string_rest_at, lemma_word_at, members, more, multi_byte, next, null, number, object, partner, peek,
    pending_piece, piece, room, spaces, string, string_rest, utf8_width, value, word, At, Input, Outcome, MAX_DEPTH,
};
use crate::json::parser::parsed;
use crate::json::value::Json;
use vstd::prelude::*;

verus! {

/// Two inputs that end behind their bytes, and have the first `n` of them in common.
spec fn agree(x: Input, y: Input, n: nat) -> bool {
    &&& n <= x.bytes.len()
    &&& n <= y.bytes.len()
    &&& x.failure is None
    &&& y.failure is None
    &&& forall|i: int| 0 <= i < n ==> x.bytes[i] == y.bytes[i]
}

/// How far reading came.
spec fn end<T>(r: Outcome<T>) -> At {
    match r {
        Ok((_, b)) => b,
        Err((_, b)) => b,
    }
}

/// Reading never leads back, nor beyond the end.
spec fn forward<T>(x: Input, a: At, r: Outcome<T>) -> bool {
    &&& a.cur <= end(r).cur
    &&& a.cur <= x.bytes.len() ==> end(r).cur <= x.bytes.len()
    &&& end(r).cur - a.cur == end(r).pos - a.pos
}

/// Reading goes forward. At the end, there is nothing more to read.
spec fn steady<T>(x: Input, a: At, r: Outcome<T>) -> bool {
    &&& forward(x, a, r)
    &&& a.cur >= x.bytes.len() && x.failure is None ==> (match r {
        Ok(_) => true,
        Err((k, _)) => k is UnexpectedEOF,
    })
}

/// Reading goes forward. At the end, there is nothing more to read, or it lay too deep anyway.
spec fn steady_or_deep<T>(x: Input, a: At, r: Outcome<T>) -> bool {
    &&& forward(x, a, r)
    &&& a.cur >= x.bytes.len() && x.failure is None ==> (match r {
        Ok(_) => true,
        Err((k, _)) => k is UnexpectedEOF || k is NestingTooDeep,
    })
}

/// Bytes that end behind the opening bracket of an array, or in whitespace behind it.
pub open spec fn ends_open(s: Seq<u8>) -> bool
    decreases s.len(),
{
    s.len() > 0 && (s.last() == 0x5b || (is_space(s.last()) && ends_open(s.drop_last())))
}

/// The first `n` bytes are enough to tell an outcome.
spec fn decided<T>(x: Input, r: Outcome<T>, n: nat) -> bool {
    end(r).cur < n || (n == x.bytes.len() && r is Err && !(r->Err_0.0 is UnexpectedEOF) && !(
    r->Err_0.0 is NestingTooDeep && ends_open(x.bytes)))
}

/// What the first `n` bytes are enough to tell is the same for inputs that have them in common.
spec fn local<T>(x: Input, rx: Outcome<T>, ry: Outcome<T>, n: nat) -> bool {
    decided(x, rx, n) ==> rx == ry
}

proof fn lemma_spaces_local(x: Input, y: Input, at: At, n: nat)
    requires
        agree(x, y, n),
    ensures
        spaces(x, at).cur < n ==> spaces(y, at) == spaces(x, at),
    decreases x.bytes.len() - at.cur,
{
    lemma_spaces_at(x, at);
    if at.cur < n && is_space(x.bytes[at.cur as int]) {
        lemma_spaces_local(x, y, At { cur: at.cur + 1, pos: at.pos + 1, ..at }, n);
    }
}

/// Whitespace behind an opening bracket, up to the end.
proof fn lemma_spaces_end_open(x: Input, at: At)
    requires
        at.cur <= x.bytes.len(),
        ends_open(x.bytes.take(at.cur as int)),
        spaces(x, at).cur >= x.bytes.len(),
    ensures
        ends_open(x.bytes),
    decreases x.bytes.len() - at.cur,
{
    if at.cur < x.bytes.len() && is_space(x.bytes[at.cur as int]) {
        let s = x.bytes.take(at.cur as int + 1);
        assert(s.drop_last() =~= x.bytes.take(at.cur as int));
        lemma_spaces_end_open(x, At { cur: at.cur + 1, pos: at.pos + 1, ..at });
    } else {
        assert(x.bytes.take(at.cur as int) =~= x.bytes);
    }
}

proof fn lemma_digits_local(x: Input, y: Input, at: At, s: Seq<char>, n: nat)
    requires
        agree(x, y, n),
    ensures
        digits(x, at, s).1.cur < n ==> digits(y, at, s) == digits(x, at, s),
    decreases x.bytes.len() - at.cur,
{
    lemma_digits_at(x, at, s);
    if at.cur < n && is_digit(x.bytes[at.cur as int]) {
        lemma_digits_local(
            x,
            y,
            At { cur: at.cur + 1, pos: at.pos + 1, ..at },
            s.push(x.bytes[at.cur as int] as char),
            n,
        );
    }
}

proof fn lemma_word_local(
    x: Input,
    y: Input,
    at: At,
    w: Seq<u8>,
    i: int,
    scanning: Seq<char>,
    n: nat,
)
    requires
        agree(x, y, n),
        0 <= i <= w.len(),
    ensures
        local(x, word(x, at, w, i, scanning), word(y, at, w, i, scanning), n),
        x.failure is None ==> steady(x, at, word(x, at, w, i, scanning)),
    decreases w.len() - i,
{
    lemma_word_at(x, at, w, i, scanning);
    if i < w.len() {
        if let Ok((got, at1)) = next(x, at) {
            if got == w[i] {
                lemma_word_local(x, y, at1, w, i + 1, scanning, n);
            }
        }
    }
}

proof fn lemma_hex_local(x: Input, y: Input, at: At, k: nat, val: int, n: nat)
    requires
        agree(x, y, n),
    ensures
        local(x, hex(x, at, k, val), hex(y, at, k, val), n),
        hex(x, at, k, val) matches Ok((_, b)) ==> b.cur <= n ==> hex(y, at, k, val) == hex(
            x,
            at,
            k,
            val,
        ),
        steady(x, at, hex(x, at, k, val)),
    decreases k,
{
    lemma_hex_at(x, at, k, val);
    if k > 0 {
        if let Ok((b, at1)) = next(x, at) {
            if let Some(d) = hex_digit(b) {
                lemma_hex_local(x, y, at1, (k - 1) as nat, val * 16 + d, n);
            }
        }
    }
}

proof fn lemma_more_local(x: Input, y: Input, at: At, k: nat, got: Seq<u8>, n: nat)
    requires
        agree(x, y, n),
    ensures
        local(x, more(x, at, k, got), more(y, at, k, got), n),
        more(x, at, k, got) matches Ok((_, b)) ==> b.cur <= n ==> more(y, at, k, got) == more(
            x,
            at,
            k,
            got,
        ),
        steady(x, at, more(x, at, k, got)),
    decreases k,
{
    lemma_more_at(x, at, k, got);
    if k > 0 {
        if let Ok((b, at1)) = next(x, at) {
            lemma_more_local(x, y, at1, (k - 1) as nat, got.push(b), n);
        }
    }
}

proof fn lemma_integral_local(x: Input, y: Input, at: At, s: Seq<char>, n: nat)
    requires
        agree(x, y, n),
    ensures
        local(x, integral(x, at, s), integral(y, at, s), n),
        steady(x, at, integral(x, at, s)),
{
    lemma_integral_at(x, at, s);
    let (signed, at1) = if peek(x, at) == Some(0x2du8) {
        (s.push('-'), At { cur: at.cur + 1, pos: at.pos + 1, ..at })
    } else {
        (s, at)
    };
    if let Ok((b, at2)) = next(x, at1) {
        lemma_digits_local(x, y, at2, signed.push(b as char), n);
        lemma_digits_at(x, at2, signed.push(b as char));
    }
}

proof fn lemma_fractional_local(x: Input, y: Input, at: At, s: Seq<char>, n: nat)
    requires
        agree(x, y, n),
    ensures
        local(x, fractional(x, at, s), fractional(y, at, s), n),
        steady(x, at, fractional(x, at, s)),
{
    lemma_fractional_at(x, at, s);
    if let Ok((b, at1)) = next(x, At { cur: at.cur + 1, pos: at.pos + 1, ..at }) {
        lemma_digits_local(x, y, at1, s.push('.').push(b as char), n);
        lemma_digits_at(x, at1, s.push('.').push(b as char));
    }
}

proof fn lemma_exponent_local(x: Input, y: Input, at: At, s: Seq<char>, n: nat)
    requires
        agree(x, y, n),
    ensures
        local(x, exponent(x, at, s), exponent(y, at, s), n),
        steady(x, at, exponent(x, at, s)),
{
    lemma_exponent_at(x, at, s);
    if let Ok((b, at1)) = next(x, At { cur: at.cur + 1, pos: at.pos + 1, ..at }) {
        let t = s.push('e').push(b as char);
        lemma_digits_local(x, y, at1, t, n);
        lemma_digits_at(x, at1, t);
        if let Ok((c, at2)) = next(x, at1) {
            lemma_digits_local(x, y, at2, t.push(c as char), n);
            lemma_digits_at(x, at2, t.push(c as char));
        }
    }
}

proof fn lemma_number_local(x: Input, y: Input, at: At, n: nat)
    requires
        agree(x, y, n),
    ensures
        local(x, number(x, at), number(y, at), n),
        steady(x, at, number(x, at)),
{
    lemma_number_at(x, at);
    lemma_integral_local(x, y, at, seq![], n);
    if let Ok((n1, at1)) = integral(x, at, seq![]) {
        lemma_fractional_local(x, y, at1, n1, n);
        if let Ok((n2, at2)) = fractional(x, at1, n1) {
            lemma_exponent_local(x, y, at2, n2, n);
        }
    }
}

proof fn lemma_piece_local(x: Input, y: Input, at: At, n: nat)
    requires
        agree(x, y, n),
    ensures
        local(x, piece(x, at), piece(y, at), n),
        steady(x, at, piece(x, at)),
{
    lemma_piece_at(x, at);
    if let Ok((b, at1)) = next(x, at) {
        if let Ok((_, at2)) = next(x, at1) {
            lemma_hex_local(x, y, at2, 4, 0, n);
            lemma_hex_at(x, at2, 4, 0);
        }
        if let Some(w) = utf8_width(b) {
            lemma_more_local(x, y, at1, (w - 1) as nat, seq![b], n);
            lemma_more_at(x, at1, (w - 1) as nat, seq![b]);
        }
        assert(local(x, escape_sequence(x, at1), escape_sequence(y, at1), n));
        assert(local(x, multi_byte(x, at1, b), multi_byte(y, at1, b), n));
    }
}

proof fn lemma_pending_piece_local(x: Input, y: Input, at: At, n: nat)
    requires
        agree(x, y, n),
    ensures
        local(x, pending_piece(x, at), pending_piece(y, at), n),
        steady(x, at, pending_piece(x, at)),
{
    lemma_pending_piece_at(x, at);
    match at.pending {
        None => {
            lemma_piece_local(x, y, at, n);
        },
        Some(high) => {
            if let Ok((_, at1)) = next(x, at) {
                if let Ok((_, at2)) = next(x, at1) {
                    lemma_hex_local(x, y, at2, 4, 0, n);
                    lemma_hex_at(x, at2, 4, 0);
                }
            }
            assert(local(x, partner(x, at, high), partner(y, at, high), n));
            if let Ok((_, at1)) = partner(x, at, high) {
                lemma_piece_local(x, y, at1, n);
            }
        },
    }
}

proof fn lemma_string_rest_local(x: Input, y: Input, at: At, s: Seq<char>, n: nat)
    requires
        agree(x, y, n),
    ensures
        local(x, string_rest(x, at, s), string_rest(y, at, s), n),
        steady(x, at, string_rest(x, at, s)),
    decreases x.bytes.len() - at.cur,
{
    lemma_string_rest_at(x, at, s);
    lemma_pending_piece_at(x, at);
    lemma_pending_piece_local(x, y, at, n);
    if let Ok((p, at1)) = pending_piece(x, at) {
        if !p.ends {
            lemma_string_rest_local(x, y, at1, s + p.adds, n);
        }
    }
}

proof fn lemma_string_local(x: Input, y: Input, at: At, n: nat)
    requires
        agree(x, y, n),
    ensures
        local(x, string(x, at), string(y, at), n),
        steady(x, at, string(x, at)),
{
    lemma_string_at(x, at);
    if let Ok((b, at1)) = next(x, at) {
        lemma_string_rest_local(x, y, at1, seq![], n);
    }
}

proof fn lemma_literals_local(x: Input, y: Input, at: At, n: nat)
    requires
        agree(x, y, n),
    ensures
        local(x, boolean(x, at), boolean(y, at), n),
        steady(x, at, boolean(x, at)),
        local(x, null(x, at), null(y, at), n),
        steady(x, at, null(x, at)),
{
    lemma_word_local(
        x,
        y,
        at,
        seq![0x6eu8, 0x75, 0x6c, 0x6c],
        0,
        " scanning for null, got "@,
        n,
    );
    if let Ok((b, at1)) = next(x, at) {
        lemma_word_local(
            x,
            y,
            at1,
            seq![0x72u8, 0x75, 0x65],
            0,
            " scanning boolean value, got "@,
            n,
        );
        lemma_word_local(
            x,
            y,
            at1,
            seq![0x61u8, 0x6c, 0x73, 0x65],
            0,
            " scanning boolean value, got "@,
            n,
        );
    }
}

proof fn lemma_members_local(x: Input, y: Input, at: At, m: Seq<(Seq<char>, Json)>, n: nat)
    requires
        agree(x, y, n),
    ensures
        local(x, members(x, at, m), members(y, at, m), n),
        steady(x, at, members(x, at, m)),
    decreases room(at), x.bytes.len() - at.cur, 1int,
{
    lemma_string_at(x, at);
    lemma_string_local(x, y, at, n);
    if let Ok((k, at1)) = string(x, at) {
        lemma_spaces_at(x, at1);
        lemma_spaces_local(x, y, at1, n);
        if let Ok((b, at2)) = next(x, spaces(x, at1)) {
            if b == 0x3a {
                lemma_value_local(x, y, at2, n);
                crate::json::grammar::lemma_value_at(x, at2);
                crate::json::grammar::lemma_value_at(y, at2);
                if let Ok((v, at3)) = value(x, at2) {
                    if let Ok((c, at4)) = next(x, at3) {
                        if c == 0x2c {
                            lemma_spaces_at(x, at4);
                            lemma_spaces_local(x, y, at4, n);
                            lemma_members_local(x, y, spaces(x, at4), put(m, k, v), n);
                        }
                    }
                }
            }
        }
    }
}

proof fn lemma_items_local(x: Input, y: Input, at: At, a: Seq<Json>, n: nat)
    requires
        agree(x, y, n),
    ensures
        local(x, items(x, at, a), items(y, at, a), n),
        steady_or_deep(x, at, items(x, at, a)),
    decreases room(at), x.bytes.len() - at.cur, 1int,
{
    lemma_value_local(x, y, at, n);
    crate::json::grammar::lemma_value_at(x, at);
    crate::json::grammar::lemma_value_at(y, at);
    if let Ok((v, at1)) = value(x, at) {
        if let Ok((c, at2)) = next(x, at1) {
            if c == 0x2c {
                lemma_items_local(x, y, at2, a.push(v), n);
            }
        }
    }
}

proof fn lemma_object_local(x: Input, y: Input, at: At, n: nat)
    requires
        agree(x, y, n),
    ensures
        local(x, object(x, at), object(y, at), n),
        steady(x, at, object(x, at)),
    decreases room(at), x.bytes.len() - at.cur, 2int,
{
    if let Ok((_, at1)) = next(x, at) {
        lemma_spaces_at(x, at1);
        lemma_spaces_local(x, y, at1, n);
        lemma_members_local(x, y, spaces(x, at1), seq![], n);
    }
}

proof fn lemma_array_local(x: Input, y: Input, at: At, n: nat)
    requires
        agree(x, y, n),
        peek(x, at) == Some(0x5bu8),
    ensures
        local(x, array(x, at), array(y, at), n),
        steady(x, at, array(x, at)),
    decreases room(at), x.bytes.len() - at.cur, 2int,
{
    if let Ok((_, at1)) = next(x, at) {
        lemma_spaces_at(x, at1);
        lemma_spaces_local(x, y, at1, n);
        lemma_items_local(x, y, spaces(x, at1), seq![], n);
        if spaces(x, at1).cur >= x.bytes.len() {
            assert(x.bytes.take(at1.cur as int).last() == 0x5b);
            lemma_spaces_end_open(x, at1);
        }
    }
}

proof fn lemma_bare_value_local(x: Input, y: Input, at: At, n: nat)
    requires
        agree(x, y, n),
    ensures
        local(x, bare_value(x, at), bare_value(y, at), n),
        steady(x, at, bare_value(x, at)),
    decreases room(at), x.bytes.len() - at.cur, 3int,
{
    lemma_string_local(x, y, at, n);
    lemma_number_local(x, y, at, n);
    lemma_literals_local(x, y, at, n);
    lemma_object_local(x, y, at, n);
    if peek(x, at) == Some(0x5bu8) {
        lemma_array_local(x, y, at, n);
    }
}

proof fn lemma_value_local(x: Input, y: Input, at: At, n: nat)
    requires
        agree(x, y, n),
    ensures
        local(x, value(x, at), value(y, at), n),
        steady_or_deep(x, at, value(x, at)),
    decreases room(at), x.bytes.len() - at.cur, 0int,
{
    let inside = At { depth: at.depth + 1, ..at };
    if inside.depth <= MAX_DEPTH {
        lemma_spaces_at(x, inside);
        lemma_spaces_local(x, y, inside, n);
        lemma_bare_value_local(x, y, spaces(x, inside), n);
        if let Ok((v, at1)) = bare_value(x, spaces(x, inside)) {
            lemma_spaces_at(x, at1);
            lemma_spaces_local(x, y, at1, n);
        }
    }
}

/// Where a document starts.
spec fn start() -> At {
    At { cur: 0, pos: 0, depth: 0, pending: None }
}

/// The position of an error lies within the data.
pub proof fn error_position_is_within(data: Seq<u8>)
    ensures
        parsed(data) matches Err((_, pos)) ==> pos <= data.len(),
{
    let x = Input { bytes: data, failure: None };
    lemma_value_local(x, x, start(), data.len());
}

/// An error depends on the bytes up to its position, and the one there, alone: data that
/// begins in the same way fails in the same way, at the same position. This leaves out an
/// unexpected end, which more data may mend. So it may where an item would lie too deep in the
/// array that is opened last: the array may turn out to be empty.
pub proof fn error_depends_on_what_is_in_front(data: Seq<u8>, other: Seq<u8>, k: Fault, pos: nat)
    requires
        parsed(data) == Err::<Json, (Fault, nat)>((k, pos)),
        !(k is UnexpectedEOF),
        !(k is NestingTooDeep && pos == data.len() && ends_open(data)),
        ({
            let n = if pos < data.len() {
                (pos + 1) as nat
            } else {
                data.len()
            };
            n <= other.len() && data.take(n as int) == other.take(n as int)
        }),
    ensures
        parsed(other) == Err::<Json, (Fault, nat)>((k, pos)),
{
    let x = Input { bytes: data, failure: None };
    let y = Input { bytes: other, failure: None };
    error_position_is_within(data);
    let n = if pos < data.len() {
        (pos + 1) as nat
    } else {
        data.len()
    };
    assert forall|i: int| 0 <= i < n implies x.bytes[i] == y.bytes[i] by {
        assert(data.take(n as int)[i] == other.take(n as int)[i]);
    }
    lemma_value_local(x, y, start(), n);
}

/// How many arrays and objects bytes open.
pub open spec fn opened(s: Seq<u8>) -> nat
    decreases s.len(),
{
    if s.len() == 0 {
        0
    } else {
        opened(s.drop_last()) + if s.last() == 0x5b || s.last() == 0x7b {
            1nat
        } else {
            0nat
        }
    }
}

proof fn lemma_opened_grows(s: Seq<u8>, a: int, b: int)
    requires
        0 <= a <= b <= s.len(),
    ensures
        opened(s.take(a)) <= opened(s.take(b)),
        a < b && (s[a] == 0x5b || s[a] == 0x7b) ==> opened(s.take(a)) + 1 <= opened(s.take(b)),
    decreases b - a,
{
    if a < b {
        assert(s.take(b).drop_last() =~= s.take(b - 1));
        if a < b - 1 {
            lemma_opened_grows(s, a, b - 1);
        }
    }
}

/// Too many values are open only where that many were opened.
spec fn opened_enough<T>(x: Input, a: At, r: Outcome<T>) -> bool {
    r matches Err((k, b)) ==> k is NestingTooDeep ==> opened(x.bytes.take(b.cur as int))
        + a.depth >= opened(x.bytes.take(a.cur as int)) + MAX_DEPTH
}

proof fn lemma_hex_plain(x: Input, at: At, k: nat, val: int)
    ensures
        hex(x, at, k, val) matches Err((f, _)) ==> !(f is NestingTooDeep),
    decreases k,
{
    if k > 0 {
        if let Ok((b, at1)) = next(x, at) {
            if let Some(d) = hex_digit(b) {
                lemma_hex_plain(x, at1, (k - 1) as nat, val * 16 + d);
            }
        }
    }
}

proof fn lemma_more_plain(x: Input, at: At, k: nat, got: Seq<u8>)
    ensures
        more(x, at, k, got) matches Err((f, _)) ==> !(f is NestingTooDeep),
    decreases k,
{
    if k > 0 {
        if let Ok((b, at1)) = next(x, at) {
            lemma_more_plain(x, at1, (k - 1) as nat, got.push(b));
        }
    }
}

proof fn lemma_word_plain(x: Input, at: At, w: Seq<u8>, i: int, scanning: Seq<char>)
    ensures
        word(x, at, w, i, scanning) matches Err((f, _)) ==> !(f is NestingTooDeep),
    decreases w.len() - i,
{
    if i < w.len() {
        if let Ok((b, at1)) = next(x, at) {
            lemma_word_plain(x, at1, w, i + 1, scanning);
        }
    }
}

proof fn lemma_piece_plain(x: Input, at: At)
    ensures
        piece(x, at) matches Err((f, _)) ==> !(f is NestingTooDeep),
{
    if let Ok((b, at1)) = next(x, at) {
        if let Ok((_, at2)) = next(x, at1) {
            lemma_hex_plain(x, at2, 4, 0);
        }
        if let Some(w) = utf8_width(b) {
            lemma_more_plain(x, at1, (w - 1) as nat, seq![b]);
        }
    }
}

proof fn lemma_string_rest_plain(x: Input, at: At, s: Seq<char>)
    ensures
        string_rest(x, at, s) matches Err((f, _)) ==> !(f is NestingTooDeep),
    decreases x.bytes.len() - at.cur,
{
    lemma_pending_piece_at(x, at);
    lemma_piece_plain(x, at);
    if let Some(high) = at.pending {
        if let Ok((_, at1)) = next(x, at) {
            if let Ok((_, at2)) = next(x, at1) {
                lemma_hex_plain(x, at2, 4, 0);
            }
        }
        if let Ok((_, at1)) = partner(x, at, high) {
            lemma_piece_plain(x, at1);
        }
    }
    if let Ok((p, at1)) = pending_piece(x, at) {
        if !p.ends {
            lemma_string_rest_plain(x, at1, s + p.adds);
        }
    }
}

proof fn lemma_string_plain(x: Input, at: At)
    ensures
        string(x, at) matches Err((f, _)) ==> !(f is NestingTooDeep),
{
    if let Ok((_, at1)) = next(x, at) {
        lemma_string_rest_plain(x, at1, seq![]);
    }
}

proof fn lemma_members_opened(x: Input, at: At, m: Seq<(Seq<char>, Json)>)
    requires
        at.cur <= x.bytes.len(),
        at.depth <= MAX_DEPTH,
        x.failure is None,
    ensures
        opened_enough(x, at, members(x, at, m)),
    decreases room(at), x.bytes.len() - at.cur, 1int,
{
    lemma_string_at(x, at);
    lemma_string_plain(x, at);
    if let Ok((k, at1)) = string(x, at) {
        lemma_spaces_at(x, at1);
        if let Ok((b, at2)) = next(x, spaces(x, at1)) {
            if b == 0x3a {
                lemma_opened_grows(x.bytes, at.cur as int, at2.cur as int);
                lemma_value_opened(x, at2);
                crate::json::grammar::lemma_value_at(x, at2);
                if let Ok((v, at3)) = value(x, at2) {
                    if let Ok((c, at4)) = next(x, at3) {
                        if c == 0x2c {
                            lemma_spaces_at(x, at4);
                            let at5 = spaces(x, at4);
                            lemma_opened_grows(x.bytes, at.cur as int, at5.cur as int);
                            lemma_members_opened(x, at5, put(m, k, v));
                        }
                    }
                }
            }
        }
    }
}

proof fn lemma_items_opened(x: Input, at: At, a: Seq<Json>)
    requires
        at.cur <= x.bytes.len(),
        at.depth <= MAX_DEPTH,
        x.failure is None,
    ensures
        opened_enough(x, at, items(x, at, a)),
    decreases room(at), x.bytes.len() - at.cur, 1int,
{
    lemma_value_opened(x, at);
    crate::json::grammar::lemma_value_at(x, at);
    if let Ok((v, at1)) = value(x, at) {
        if let Ok((c, at2)) = next(x, at1) {
            if c == 0x2c {
                lemma_opened_grows(x.bytes, at.cur as int, at2.cur as int);
                lemma_items_opened(x, at2, a.push(v));
            }
        }
    }
}

/// Too many values are open in a value only where enough were opened in it.
proof fn lemma_value_opened(x: Input, at: At)
    requires
        at.cur <= x.bytes.len(),
        at.depth <= MAX_DEPTH,
        x.failure is None,
    ensures
        opened_enough(x, at, value(x, at)),
    decreases room(at), x.bytes.len() - at.cur, 0int,
{
    let inside = At { depth: at.depth + 1, ..at };
    if inside.depth <= MAX_DEPTH {
        lemma_spaces_at(x, inside);
        let first = spaces(x, inside);
        lemma_opened_grows(x.bytes, at.cur as int, first.cur as int);
        lemma_string_plain(x, first);
        lemma_word_plain(
            x,
            first,
            seq![0x6eu8, 0x75, 0x6c, 0x6c],
            0,
            " scanning for null, got "@,
        );
        if let Ok((b, at1)) = next(x, first) {
            lemma_word_plain(
                x,
                at1,
                seq![0x72u8, 0x75, 0x65],
                0,
                " scanning boolean value, got "@,
            );
            lemma_word_plain(
                x,
                at1,
                seq![0x61u8, 0x6c, 0x73, 0x65],
                0,
                " scanning boolean value, got "@,
            );
            lemma_spaces_at(x, at1);
            let at2 = spaces(x, at1);
            lemma_opened_grows(x.bytes, first.cur as int, at2.cur as int);
            if b == 0x7b {
                lemma_members_opened(x, at2, seq![]);
            } else if b == 0x5b {
                lemma_items_opened(x, at2, seq![]);
            }
        }
        assert(opened_enough(x, at, bare_value(x, first)));
    }
}

/// What becomes of a document that is cut short.
proof fn lemma_cut_short(data: Seq<u8>, n: int)
    requires
        parsed(data) is Ok,
        0 <= n < data.len(),
        parsed(data.take(n)) is Err,
    ensures
        ({
            let (k, pos) = parsed(data.take(n))->Err_0;
            k is UnexpectedEOF || (k is NestingTooDeep && pos == n && ends_open(data.take(n))
                && opened(data.take(n)) >= MAX_DEPTH)
        }),
{
    let cut = data.take(n);
    let (k, pos) = parsed(cut)->Err_0;
    let x = Input { bytes: cut, failure: None };
    error_position_is_within(cut);
    if k is NestingTooDeep {
        lemma_value_opened(x, start());
        lemma_value_local(x, x, start(), cut.len());
        lemma_opened_grows(cut, pos as int, n);
        assert(cut.take(n) =~= cut);
    }
    if !(k is UnexpectedEOF) && !(k is NestingTooDeep && pos == n && ends_open(cut)) {
        let m = if pos < n {
            pos as int + 1
        } else {
            n
        };
        assert(cut.take(m) =~= data.take(m));
        error_depends_on_what_is_in_front(cut, data, k, pos);
    }
}

/// A document that is cut short, and does not happen to be a document still, fails with an
/// unexpected end. It is never reported as a bad byte. Only where the cut is behind the bracket
/// that opens an array, and as many arrays and objects are open as may be, it is reported that
/// the value to come lies too deep.
pub proof fn documents_cut_short_end_unexpectedly(data: Seq<u8>, n: int)
    requires
        parsed(data) is Ok,
        0 <= n < data.len(),
    ensures
        parsed(data.take(n)) matches Err((k, pos)) ==> k is UnexpectedEOF || (k is NestingTooDeep
            && pos == n && ends_open(data.take(n)) && opened(data.take(n)) >= MAX_DEPTH),
{
    if parsed(data.take(n)) is Err {
        lemma_cut_short(data, n);
    }
}

} // verus!
