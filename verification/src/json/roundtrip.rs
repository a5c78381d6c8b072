//! Reading back what was written.
use crate::assoc::{distinct, lemma_position, lemma_position_is, lookup, position, put};
use crate::decimal::{
    decimal, digit_char, lemma_decimal_digits, number_from, signed_decimal, signed_value, unsigned_value,
    ParseIntError,
};
use crate::json::equality::{json_eq, Doubles};
use crate::json::error::Fault;
use crate::json::grammar::{
    array, bare_value, boolean, digits, exponent, fractional, hex, hex_digit, integral, is_digit, is_space, items,
    members, more, next, null, number, object, onward, peek, piece, spaces, string, string_rest, utf8_width, value,
    word, At, Input, Outcome, Piece, MAX_DEPTH,
};
use crate::json::parser::parsed;
use crate::json::print::{
    escape, escaped, is_control, items_text, key_text, members_text, more_items_text,
    more_members_text, text,
};
use crate::json::value::Json;
use vstd::prelude::*;
use vstd::utf8::{encode_scalar, encode_utf8, is_ascii_chars};

verus! {

/// A character that may stand in a string as it is.
pub open spec fn is_plain(c: char) -> bool {
    c >= ' ' && c != '"' && c != '\\'
}

/// The first place from `i` on that holds no digit.
pub open spec fn digits_end(n: Seq<char>, i: int) -> int
    decreases n.len() - i,
{
    if 0 <= i < n.len() && '0' <= n[i] <= '9' {
        digits_end(n, i + 1)
    } else {
        i
    }
}

pub open spec fn digit_at(n: Seq<char>, i: int) -> bool {
    0 <= i < n.len() && '0' <= n[i] <= '9'
}

/// Where the integral part of a number ends.
pub open spec fn integral_end(n: Seq<char>) -> Option<int> {
    let i = if n.len() > 0 && n[0] == '-' {
        1int
    } else {
        0int
    };
    if !digit_at(n, i) {
        None
    } else if n[i] == '0' {
        Some(i + 1)
    } else {
        Some(digits_end(n, i + 1))
    }
}

/// Where the fractional part of a number ends that starts at `i`.
pub open spec fn fractional_end(n: Seq<char>, i: int) -> Option<int> {
    if !(0 <= i < n.len() && n[i] == '.') {
        Some(i)
    } else if !digit_at(n, i + 1) {
        None
    } else {
        Some(digits_end(n, i + 2))
    }
}

/// Where the exponent part of a number ends that starts at `i`.
pub open spec fn exponent_end(n: Seq<char>, i: int) -> Option<int> {
    if !(0 <= i < n.len() && (n[i] == 'e' || n[i] == 'E')) {
        Some(i)
    } else {
        let k = if i + 1 < n.len() && (n[i + 1] == '+' || n[i + 1] == '-') {
            i + 2
        } else {
            i + 1
        };
        if !digit_at(n, k) {
            None
        } else {
            Some(digits_end(n, k + 1))
        }
    }
}

/// The text of a number: `-` or none, an integer without leading zeros, a fraction or
/// none, an exponent or none.
pub open spec fn is_number(n: Seq<char>) -> bool {
    match integral_end(n) {
        None => false,
        Some(i) => match fractional_end(n, i) {
            None => false,
            Some(j) => exponent_end(n, j) == Some(n.len() as int),
        },
    }
}

/// A number as it is read: its exponent, if it has one, is written with `e`.
pub open spec fn with_small_e(n: Seq<char>) -> Seq<char> {
    n.map_values(
        |c: char|
            if c == 'E' {
                'e'
            } else {
                c
            },
    )
}

/// A value as it is read: with its numbers as they are read.
pub open spec fn as_read(j: Json) -> Json
    decreases j, 0int,
{
    match j {
        Json::Number(n) => Json::Number(with_small_e(n)),
        Json::Object(e) => Json::Object(members_as_read(e)),
        Json::Array(a) => Json::Array(items_as_read(a)),
        _ => j,
    }
}

/// The members of an object as they are read.
pub open spec fn members_as_read(e: Seq<(Seq<char>, Json)>) -> Seq<(Seq<char>, Json)>
    decreases e, 1int,
{
    Seq::new(
        e.len(),
        |i: int|
            if 0 <= i < e.len() {
                (e[i].0, as_read(e[i].1))
            } else {
                e[i]
            },
    )
}

/// The items of an array as they are read.
pub open spec fn items_as_read(a: Seq<Json>) -> Seq<Json>
    decreases a, 1int,
{
    Seq::new(
        a.len(),
        |i: int|
            if 0 <= i < a.len() {
                as_read(a[i])
            } else {
                a[i]
            },
    )
}

/// A value whose text is JSON, `depth` values deep: its numbers are numbers, no key of an
/// object occurs twice in it, and nothing in it lies too deep.
pub open spec fn legible(j: Json, depth: nat) -> bool
    decreases j,
{
    &&& depth + 1 <= MAX_DEPTH
    &&& match j {
        Json::Number(n) => is_number(n),
        Json::Object(e) => {
            &&& distinct(e)
            &&& forall|i: int| 0 <= i < e.len() ==> legible((#[trigger] e[i]).1, depth + 1)
        },
        Json::Array(a) => forall|i: int| 0 <= i < a.len() ==> legible(#[trigger] a[i], depth + 1),
        _ => true,
    }
}

/// A value whose text is JSON, `depth` values deep, and reads as just that value: exponents
/// are written with `e`.
pub open spec fn printable(j: Json, depth: nat) -> bool
    decreases j,
{
    &&& depth + 1 <= MAX_DEPTH
    &&& match j {
        Json::Number(n) => is_number(n) && !n.contains('E'),
        Json::Object(e) => {
            &&& distinct(e)
            &&& forall|i: int| 0 <= i < e.len() ==> printable((#[trigger] e[i]).1, depth + 1)
        },
        Json::Array(a) => forall|i: int| 0 <= i < a.len() ==> printable(#[trigger] a[i], depth + 1),
        _ => true,
    }
}

/// A printable value is legible, and read as it is.
proof fn lemma_printable_is_legible(j: Json, depth: nat)
    requires
        printable(j, depth),
    ensures
        legible(j, depth),
        as_read(j) == j,
    decreases j,
{
    match j {
        Json::Number(n) => {
            assert forall|i: int| 0 <= i < n.len() implies n[i] != 'E' by {
                assert(n.contains(n[i]));
            }
            assert(with_small_e(n) =~= n);
        },
        Json::Object(e) => {
            assert forall|i: int| 0 <= i < e.len() implies legible((#[trigger] e[i]).1, depth + 1)
                && as_read(e[i].1) == e[i].1 by {
                lemma_printable_is_legible(e[i].1, depth + 1);
            }
            assert(members_as_read(e) =~= e);
        },
        Json::Array(a) => {
            assert forall|i: int| 0 <= i < a.len() implies legible(#[trigger] a[i], depth + 1)
                && as_read(a[i]) == a[i] by {
                lemma_printable_is_legible(a[i], depth + 1);
            }
            assert(items_as_read(a) =~= a);
        },
        _ => {},
    }
}

/// The `n` bytes at `cur`.
pub open spec fn part(input: Input, cur: nat, n: nat) -> Seq<u8> {
    input.bytes.subrange(cur as int, (cur + n) as int)
}

/// The text `t` stands in the input at `cur`.
pub open spec fn stands(input: Input, cur: nat, t: Seq<char>) -> bool {
    &&& cur + encode_utf8(t).len() <= input.bytes.len()
    &&& part(input, cur, encode_utf8(t).len()) == encode_utf8(t)
}

/// How many bytes a text takes.
pub open spec fn size(t: Seq<char>) -> nat {
    encode_utf8(t).len()
}

/// `n` bytes further on.
pub open spec fn moved(at: At, n: nat) -> At {
    At { cur: at.cur + n, pos: at.pos + n, ..at }
}

/// What may follow a value inside another, or at the end.
spec fn closes(input: Input, cur: nat) -> bool {
    cur >= input.bytes.len() || input.bytes[cur as int] == 0x2c || input.bytes[cur as int] == 0x7d
        || input.bytes[cur as int] == 0x5d
}

pub proof fn lemma_encode_concat(a: Seq<char>, b: Seq<char>)
    ensures
        encode_utf8(a + b) == encode_utf8(a) + encode_utf8(b),
    decreases a.len(),
{
    if a.len() == 0 {
        assert(a + b =~= b);
        assert(encode_utf8(a) + encode_utf8(b) =~= encode_utf8(b));
    } else {
        lemma_encode_concat(a.drop_first(), b);
        assert((a + b).drop_first() =~= a.drop_first() + b);
        assert(encode_utf8(a + b) =~= encode_utf8(a) + encode_utf8(b));
    }
}

pub proof fn lemma_stands_split(input: Input, cur: nat, a: Seq<char>, b: Seq<char>)
    requires
        stands(input, cur, a + b),
    ensures
        stands(input, cur, a),
        stands(input, cur + size(a), b),
        size(a + b) == size(a) + size(b),
{
    lemma_encode_concat(a, b);
    let whole = encode_utf8(a + b);
    let s = part(input, cur, whole.len());
    assert(s.subrange(0, size(a) as int) =~= encode_utf8(a));
    assert(s.subrange(size(a) as int, whole.len() as int) =~= encode_utf8(b));
    assert(part(input, cur, size(a)) =~= s.subrange(0, size(a) as int));
    assert(part(input, cur + size(a), size(b)) =~= s.subrange(
        size(a) as int,
        whole.len() as int,
    ));
}

pub proof fn lemma_ascii(input: Input, cur: nat, t: Seq<char>)
    requires
        stands(input, cur, t),
        is_ascii_chars(t),
    ensures
        size(t) == t.len(),
        forall|i: int|
            #![trigger t[i]]
            0 <= i < t.len() ==> input.bytes[cur + i] == t[i] as u8,
{
    vstd::utf8::is_ascii_chars_encode_utf8(t);
    let e = encode_utf8(t);
    assert forall|i: int|
        #![trigger t[i]]
        0 <= i < t.len() implies input.bytes[cur + i] == t[i] as u8 by {
        assert(e[i] == part(input, cur, e.len())[i]);
        assert(e[i] == t[i] as u8);
    }
}

pub proof fn lemma_ascii_one(input: Input, cur: nat, c: char)
    requires
        stands(input, cur, seq![c]),
        c <= '\u{7f}',
    ensures
        size(seq![c]) == 1,
        cur < input.bytes.len(),
        input.bytes[cur as int] == c as u8,
{
    lemma_ascii(input, cur, seq![c]);
    assert(seq![c][0] == c);
}

pub proof fn lemma_more_reads(input: Input, at: At, n: nat, got: Seq<u8>)
    requires
        at.cur + n <= input.bytes.len(),
    ensures
        more(input, at, n, got) == Ok::<_, (Fault, At)>(
            (got + part(input, at.cur, n), moved(at, n)),
        ),
    decreases n,
{
    if n == 0 {
        assert(got + part(input, at.cur, n) =~= got);
    } else {
        let b = input.bytes[at.cur as int];
        let at1 = moved(at, 1);
        lemma_more_reads(input, at1, (n - 1) as nat, got.push(b));
        assert(got.push(b) + part(input, at1.cur, (n - 1) as nat) =~= got
            + part(input, at.cur, n));
    }
}

/// A plain character reads as itself.
pub proof fn lemma_raw_piece(input: Input, at: At, c: char)
    requires
        stands(input, at.cur, seq![c]),
        is_plain(c),
    ensures
        piece(input, at) == Ok::<_, (Fault, At)>(
            (Piece { adds: seq![c], ends: false }, moved(at, size(seq![c]))),
        ),
{
    let t = seq![c];
    let e = encode_utf8(t);
    if c <= '\u{7f}' {
        lemma_ascii_one(input, at.cur, c);
    } else {
        vstd::utf8::encode_utf8_first_scalar(t);
        vstd::utf8::encode_utf8_valid_utf8(t);
        vstd::utf8::encode_utf8_decode_utf8(t);
        assert(t.drop_first() =~= seq![]);
        assert(encode_utf8(t.drop_first()) =~= seq![]);
        assert(e =~= encode_scalar(c as u32));
        let w = e.len();
        let b = e[0];
        let s = part(input, at.cur, w);
        assert(input.bytes[at.cur as int] == s[0]);
        assert(utf8_width(b) == Some(w));
        let at1 = moved(at, 1);
        lemma_more_reads(input, at1, (w - 1) as nat, seq![b]);
        assert(seq![b] + part(input, at1.cur, (w - 1) as nat) =~= e);
    }
}

proof fn lemma_hex_digit(d: nat)
    requires
        d < 16,
    ensures
        hex_digit(digit_char(d) as u8) == Some(d as int),
        digit_char(d) <= '\u{7f}',
{
}

/// An escaped character reads as the character.
proof fn lemma_escaped_piece(input: Input, at: At, c: char)
    requires
        stands(input, at.cur, escape(c)),
        at.pending is None,
    ensures
        piece(input, at) == Ok::<_, (Fault, At)>(
            (Piece { adds: seq![c], ends: false }, moved(at, size(escape(c)))),
        ),
{
    let t = escape(c);
    if t == seq![c] {
        lemma_raw_piece(input, at, c);
    } else {
        if is_control(c) {
            lemma_hex_digit((c as u32 / 16) as nat);
            lemma_hex_digit((c as u32 % 16) as nat);
        }
        assert(is_ascii_chars(t));
        lemma_ascii(input, at.cur, t);
        assert(t[0] == '\\');
        let at2 = moved(at, 2);
        if t.len() == 6 {
            assert(t[2] == '0' && t[3] == '0');
            assert(t[4] == digit_char((c as u32 / 16) as nat));
            assert(t[5] == digit_char((c as u32 % 16) as nat));
            reveal_with_fuel(hex, 5);
            assert(hex(input, at2, 4, 0) == Ok::<_, (Fault, At)>(
                (c as int, moved(at, 6)),
            ));
            assert(c as int as char == c);
        }
    }
}

/// The escaped text of a string reads as the string.
proof fn lemma_string_rest(input: Input, at: At, s: Seq<char>, got: Seq<char>)
    requires
        stands(input, at.cur, escaped(s) + seq!['"']),
        at.pending is None,
    ensures
        string_rest(input, at, got) == Ok::<_, (Fault, At)>(
            (got + s, moved(at, size(escaped(s) + seq!['"']))),
        ),
    decreases s.len(),
{
    if s.len() == 0 {
        assert(escaped(s) + seq!['"'] =~= seq!['"']);
        lemma_ascii_one(input, at.cur, '"');
        assert(got + seq![] =~= got + s);
    } else {
        let rest = escaped(s.drop_first()) + seq!['"'];
        assert(escaped(s) + seq!['"'] =~= escape(s[0]) + rest);
        lemma_stands_split(input, at.cur, escape(s[0]), rest);
        lemma_escaped_piece(input, at, s[0]);
        let at1 = moved(at, size(escape(s[0])));
        lemma_string_rest(input, at1, s.drop_first(), got + seq![s[0]]);
        assert(got + seq![s[0]] + s.drop_first() =~= got + s);
    }
}

proof fn lemma_digits_end(n: Seq<char>, i: int)
    requires
        0 <= i <= n.len(),
    ensures
        i <= digits_end(n, i) <= n.len(),
        !digit_at(n, digits_end(n, i)),
        forall|k: int| i <= k < digits_end(n, i) ==> '0' <= #[trigger] n[k] <= '9',
    decreases n.len() - i,
{
    if digit_at(n, i) {
        lemma_digits_end(n, i + 1);
    }
}

pub proof fn lemma_number_ascii(n: Seq<char>)
    requires
        is_number(n),
    ensures
        is_ascii_chars(n),
        n.len() > 0,
        n[0] == '-' || '0' <= n[0] <= '9',
        ({
            let j = fractional_end(n, integral_end(n)->Some_0)->Some_0;
            forall|x: int| 0 <= x < n.len() && #[trigger] n[x] == 'E' ==> x == j
        }),
{
    let i = integral_end(n)->Some_0;
    let s = if n[0] == '-' {
        1int
    } else {
        0int
    };
    lemma_digits_end(n, s + 1);
    let j = fractional_end(n, i)->Some_0;
    if i < n.len() && n[i] == '.' {
        lemma_digits_end(n, i + 2);
    }
    let k = if j + 1 < n.len() && (n[j + 1] == '+' || n[j + 1] == '-') {
        j + 2
    } else {
        j + 1
    };
    if j < n.len() && (n[j] == 'e' || n[j] == 'E') {
        lemma_digits_end(n, k + 1);
    }
    assert forall|x: int| 0 <= x < n.len() implies '\0' <= #[trigger] n[x] <= '\u{7f}' by {
        if x < i {
        } else if x < j {
        } else {
        }
    }
}

/// The bytes of an ASCII text stand at `cur`.
pub open spec fn bytes_at(input: Input, cur: nat, n: Seq<char>) -> bool {
    &&& cur + n.len() <= input.bytes.len()
    &&& forall|i: int| #![trigger n[i]] 0 <= i < n.len() ==> input.bytes[cur + i] == n[i] as u8
    &&& is_ascii_chars(n)
}

/// No number goes on here.
pub open spec fn number_stops(input: Input, cur: nat) -> bool {
    cur >= input.bytes.len() || {
        let b = input.bytes[cur as int];
        !is_digit(b) && b != 0x2e && b != 0x65 && b != 0x45
    }
}

/// The digits in `n` from the `i`-th on are read behind `m`, which has the same ones.
proof fn lemma_digits_read(input: Input, at: At, n: Seq<char>, m: Seq<char>, i: int)
    requires
        bytes_at(input, at.cur, n),
        number_stops(input, at.cur + n.len()),
        0 <= i <= n.len(),
        m.len() == n.len(),
        forall|k: int| #![trigger m[k]] digit_at(n, k) ==> m[k] == n[k],
    ensures
        digits(input, moved(at, i as nat), m.take(i)) == (
            m.take(digits_end(n, i)),
            moved(at, digits_end(n, i) as nat),
        ),
        i <= digits_end(n, i) <= n.len(),
    decreases n.len() - i,
{
    lemma_digits_end(n, i);
    if digit_at(n, i) {
        lemma_digits_read(input, at, n, m, i + 1);
        let b = input.bytes[at.cur + i];
        assert(b == n[i] as u8);
        assert(b as char == n[i]);
        assert(m[i] == n[i]);
        assert(m.take(i).push(b as char) =~= m.take(i + 1));
    } else {
        if i < n.len() {
            assert(input.bytes[at.cur + i] == n[i] as u8);
        }
    }
}

proof fn lemma_integral_reads(input: Input, at: At, n: Seq<char>)
    requires
        bytes_at(input, at.cur, n),
        number_stops(input, at.cur + n.len()),
        integral_end(n) is Some,
    ensures
        integral(input, at, seq![]) == Ok::<_, (Fault, At)>(
            (n.take(integral_end(n)->Some_0), moved(at, integral_end(n)->Some_0 as nat)),
        ),
        0 < integral_end(n)->Some_0 <= n.len(),
{
    assert(input.bytes[at.cur + 0int] == n[0] as u8);
    let s = if n[0] == '-' {
        1int
    } else {
        0int
    };
    let b = input.bytes[at.cur + s];
    assert(b == n[s] as u8);
    assert(b as char == n[s]);
    assert(Seq::<char>::empty().push('-') =~= seq!['-']);
    lemma_digits_read(input, at, n, n, s + 1);
    if s == 1 {
        assert(n.take(2) =~= seq!['-', n[1]]);
        assert(Seq::<char>::empty().push('-').push(n[1]) =~= n.take(2));
    } else {
        assert(Seq::<char>::empty().push(n[0]) =~= n.take(1));
    }
}

proof fn lemma_fractional_reads(input: Input, at: At, n: Seq<char>, i: int)
    requires
        bytes_at(input, at.cur, n),
        number_stops(input, at.cur + n.len()),
        0 < i <= n.len(),
        fractional_end(n, i) is Some,
    ensures
        fractional(input, moved(at, i as nat), n.take(i)) == Ok::<_, (Fault, At)>(
            (n.take(fractional_end(n, i)->Some_0), moved(at, fractional_end(n, i)->Some_0 as nat)),
        ),
        i <= fractional_end(n, i)->Some_0 <= n.len(),
{
    if i < n.len() {
        assert(input.bytes[at.cur + i] == n[i] as u8);
        if n[i] == '.' {
            let b = input.bytes[at.cur + i + 1];
            assert(b == n[i + 1] as u8);
            assert(b as char == n[i + 1]);
            assert(n.take(i).push('.').push(b as char) =~= n.take(i + 2));
            lemma_digits_read(input, at, n, n, i + 2);
        }
    }
}

proof fn lemma_exponent_reads(input: Input, at: At, n: Seq<char>, i: int)
    requires
        bytes_at(input, at.cur, n),
        number_stops(input, at.cur + n.len()),
        0 < i <= n.len(),
        exponent_end(n, i) == Some(n.len() as int),
        forall|x: int| 0 <= x < n.len() && #[trigger] n[x] == 'E' ==> x == i,
    ensures
        exponent(input, moved(at, i as nat), n.take(i)) == Ok::<_, (Fault, At)>(
            (with_small_e(n), moved(at, n.len())),
        ),
{
    let m = with_small_e(n);
    assert(m.take(n.len() as int) =~= m);
    assert(m.take(i) =~= n.take(i));
    if i < n.len() {
        assert(input.bytes[at.cur + i] == n[i] as u8);
        assert(n[i] == 'e' || n[i] == 'E');
        assert(m[i] == 'e');
        let b = input.bytes[at.cur + i + 1];
        assert(b == n[i + 1] as u8);
        assert(b as char == n[i + 1]);
        if n[i + 1] == '+' || n[i + 1] == '-' {
            let c = input.bytes[at.cur + i + 2];
            assert(c == n[i + 2] as u8);
            assert(c as char == n[i + 2]);
            assert(n.take(i).push('e').push(b as char).push(c as char) =~= m.take(i + 3));
            lemma_digits_read(input, at, n, m, i + 3);
        } else {
            assert(n.take(i).push('e').push(b as char) =~= m.take(i + 2));
            lemma_digits_read(input, at, n, m, i + 2);
        }
    }
}

/// A number reads as itself, but for the letter of its exponent.
pub proof fn lemma_number_reads(input: Input, at: At, n: Seq<char>)
    requires
        stands(input, at.cur, n),
        is_number(n),
        number_stops(input, at.cur + size(n)),
    ensures
        number(input, at) == Ok::<_, (Fault, At)>((with_small_e(n), moved(at, size(n)))),
        size(n) == n.len(),
{
    lemma_number_ascii(n);
    lemma_ascii(input, at.cur, n);
    let i = integral_end(n)->Some_0;
    lemma_integral_reads(input, at, n);
    lemma_fractional_reads(input, at, n, i);
    lemma_exponent_reads(input, at, n, fractional_end(n, i)->Some_0);
}

pub proof fn lemma_word_reads(input: Input, at: At, w: Seq<u8>, i: int, scanning: Seq<char>)
    requires
        0 <= i <= w.len(),
        at.cur + (w.len() - i) <= input.bytes.len(),
        forall|k: int| #![trigger w[k]] i <= k < w.len() ==> input.bytes[at.cur + (k - i)] == w[k],
    ensures
        word(input, at, w, i, scanning) == Ok::<_, (Fault, At)>(
            ((), moved(at, (w.len() - i) as nat)),
        ),
    decreases w.len() - i,
{
    if i < w.len() {
        assert(input.bytes[at.cur + (i - i)] == w[i]);
        let at1 = moved(at, 1);
        assert forall|k: int|
            #![trigger w[k]]
            i + 1 <= k < w.len() implies input.bytes[at1.cur + (k - (i + 1))] == w[k] by {
            assert(at1.cur + (k - (i + 1)) == at.cur + (k - i));
        }
        lemma_word_reads(input, at1, w, i + 1, scanning);
    }
}

pub proof fn lemma_null_reads(input: Input, at: At)
    requires
        stands(input, at.cur, text(Json::Null)),
    ensures
        null(input, at) == Ok::<_, (Fault, At)>(((), moved(at, size(text(Json::Null))))),
        peek(input, at) == Some(0x6eu8),
{
    let t = text(Json::Null);
    assert(is_ascii_chars(t));
    lemma_ascii(input, at.cur, t);
    let w = seq![0x6eu8, 0x75, 0x6c, 0x6c];
    assert(t[0] == 'n' && t[1] == 'u' && t[2] == 'l' && t[3] == 'l');
    assert forall|k: int|
        #![trigger w[k]]
        0 <= k < w.len() implies input.bytes[at.cur + (k - 0)] == w[k] by {
        assert(input.bytes[at.cur + k] == t[k] as u8);
    }
    lemma_word_reads(input, at, w, 0, " scanning for null, got "@);
}

pub proof fn lemma_bool_reads(input: Input, at: At, b: bool)
    requires
        stands(input, at.cur, text(Json::Bool(b))),
    ensures
        boolean(input, at) == Ok::<_, (Fault, At)>((b, moved(at, size(text(Json::Bool(b)))))),
        peek(input, at) == Some(if b { 0x74u8 } else { 0x66u8 }),
{
    let t = text(Json::Bool(b));
    assert(is_ascii_chars(t));
    lemma_ascii(input, at.cur, t);
    let at1 = moved(at, 1);
    if b {
        let w = seq![0x72u8, 0x75, 0x65];
        assert(t[0] == 't' && t[1] == 'r' && t[2] == 'u' && t[3] == 'e');
        assert forall|k: int|
            #![trigger w[k]]
            0 <= k < w.len() implies input.bytes[at1.cur + (k - 0)] == w[k] by {
            assert(input.bytes[at.cur + (k + 1)] == t[k + 1] as u8);
        }
        lemma_word_reads(input, at1, w, 0, " scanning boolean value, got "@);
    } else {
        let w = seq![0x61u8, 0x6c, 0x73, 0x65];
        assert(t[0] == 'f' && t[1] == 'a' && t[2] == 'l' && t[3] == 's' && t[4] == 'e');
        assert forall|k: int|
            #![trigger w[k]]
            0 <= k < w.len() implies input.bytes[at1.cur + (k - 0)] == w[k] by {
            assert(input.bytes[at.cur + (k + 1)] == t[k + 1] as u8);
        }
        lemma_word_reads(input, at1, w, 0, " scanning boolean value, got "@);
    }
}

/// Putting the next member of an object behind those in front of it.
proof fn lemma_put_next(e: Seq<(Seq<char>, Json)>, i: int)
    requires
        distinct(e),
        0 <= i < e.len(),
    ensures
        put(e.take(i), e[i].0, e[i].1) == e.take(i + 1),
{
    let f = e.take(i);
    lemma_position(f, e[i].0, 0);
    if let Some(p) = position(f, e[i].0, 0) {
        assert(f[p] == e[p]);
        assert(e[p].0 != e[i].0);
    }
    assert(f.push((e[i].0, e[i].1)) =~= e.take(i + 1));
}

proof fn lemma_members_distinct(e: Seq<(Seq<char>, Json)>)
    requires
        distinct(e),
    ensures
        distinct(members_as_read(e)),
{
    let r = members_as_read(e);
    assert forall|i: int| 0 <= i < e.len() implies (#[trigger] r[i]).0 == e[i].0 by {}
}

/// `v` was read up to `at`.
pub open spec fn ok_at<T>(v: T, at: At) -> Outcome<T> {
    Ok((v, at))
}

pub proof fn lemma_no_spaces(input: Input, at: At)
    requires
        at.cur >= input.bytes.len() || !is_space(input.bytes[at.cur as int]),
    ensures
        spaces(input, at) == at,
{
}

/// A key reads as itself, up to where its value starts.
proof fn lemma_key_reads(input: Input, at: At, k: Seq<char>, tail: Seq<char>) -> (r: (At, At, At))
    requires
        stands(input, at.cur, key_text(k) + tail),
        at.pending is None,
    ensures
        string(input, at) == ok_at(k, r.0),
        spaces(input, r.0) == r.0,
        next(input, r.0) == ok_at(0x3au8, r.1),
        peek(input, r.1) == Some(0x20u8),
        r.1 == moved(r.0, 1),
        r.2 == moved(r.1, 1),
        r.2 == moved(at, size(key_text(k))),
        stands(input, r.2.cur, tail),
        size(key_text(k) + tail) == size(key_text(k)) + size(tail),
{
    lemma_stands_split(input, at.cur, key_text(k), tail);
    let quoted = escaped(k) + seq!['"'];
    let inner = quoted + seq![':', ' '];
    assert(key_text(k) =~= seq!['"'] + inner);
    lemma_stands_split(input, at.cur, seq!['"'], inner);
    lemma_ascii_one(input, at.cur, '"');
    let a1 = moved(at, 1);
    lemma_stands_split(input, a1.cur, quoted, seq![':', ' ']);
    lemma_string_rest(input, a1, k, seq![]);
    assert(Seq::<char>::empty() + k =~= k);
    let a2 = moved(a1, size(quoted));
    let colon = seq![':', ' '];
    assert(is_ascii_chars(colon));
    lemma_ascii(input, a2.cur, colon);
    assert(colon[0] == ':' && colon[1] == ' ');
    assert(input.bytes[a2.cur + 0int] == 0x3a);
    assert(input.bytes[a2.cur + 1int] == 0x20);
    lemma_no_spaces(input, a2);
    (a2, moved(a2, 1), moved(a2, 2))
}

/// Behind a comma and a space, the next text stands, and it starts with no space.
proof fn lemma_separator(input: Input, at: At, tail: Seq<char>)
    requires
        stands(input, at.cur, seq![',', ' '] + tail),
    ensures
        next(input, at) == ok_at(0x2cu8, moved(at, 1)),
        peek(input, moved(at, 1)) == Some(0x20u8),
        stands(input, at.cur + 2, tail),
        size(seq![',', ' '] + tail) == 2 + size(tail),
{
    let t = seq![',', ' '];
    lemma_stands_split(input, at.cur, t, tail);
    assert(is_ascii_chars(t));
    lemma_ascii(input, at.cur, t);
    assert(t[0] == ',' && t[1] == ' ');
    assert(input.bytes[at.cur + 0int] == 0x2c);
    assert(input.bytes[at.cur + 1int] == 0x20);
}

/// The members of an object are read one by one.
#[verifier::rlimit(40)]
proof fn lemma_members_read(input: Input, at: At, e: Seq<(Seq<char>, Json)>, i: int)
    requires
        0 <= i < e.len(),
        legible(Json::Object(e), (at.depth - 1) as nat),
        at.depth >= 1,
        stands(input, at.cur, members_text(e, i) + seq!['}']),
        at.pending is None,
    ensures
        members(input, at, members_as_read(e).take(i)) == ok_at(
            members_as_read(e),
            moved(at, size(members_text(e, i) + seq!['}'])),
        ),
    decreases e, e.len() - i,
{
    let k = e[i].0;
    let v = e[i].1;
    let rest = more_members_text(e, i + 1) + seq!['}'];
    let whole = members_text(e, i) + seq!['}'];
    assert(whole =~= key_text(k) + (text(v) + rest));
    let (_, a3, a4) = lemma_key_reads(input, at, k, text(v) + rest);
    lemma_stands_split(input, a4.cur, text(v), rest);
    let a5 = moved(a4, size(text(v)));
    let r = members_as_read(e);
    lemma_members_distinct(e);
    lemma_put_next(r, i);
    let d = (at.depth - 1) as nat;
    assert(legible(e[i].1, d + 1));
    if i + 1 < e.len() {
        let body = members_text(e, i + 1) + seq!['}'];
        assert(rest =~= seq![',', ' '] + body);
        lemma_separator(input, a5, body);
        lemma_value_read(input, a3, a4, v);
        let a6 = moved(a5, 1);
        let a7 = moved(a5, 2);
        assert(body =~= seq!['"'] + body.drop_first());
        lemma_stands_split(input, a7.cur, seq!['"'], body.drop_first());
        lemma_ascii_one(input, a7.cur, '"');
        lemma_no_spaces(input, a7);
        assert(spaces(input, a6) == a7);
        lemma_members_read(input, a7, e, i + 1);
        assert(onward(input, a3, a5, 1));
        assert(moved(a7, size(body)) == moved(at, size(whole)));
    } else {
        assert(rest =~= seq!['}']);
        lemma_ascii_one(input, a5.cur, '}');
        lemma_value_read(input, a3, a4, v);
        assert(r.take(i + 1) =~= r);
        assert(moved(a5, 1) == moved(at, size(whole)));
    }
}

proof fn lemma_item_legible(a: Seq<Json>, i: int, depth: nat)
    requires
        legible(Json::Array(a), depth),
        0 <= i < a.len(),
    ensures
        legible(a[i], depth + 1),
{
    let j = Json::Array(a);
    assert(j->Array_0 == a);
    assert(forall|k: int| 0 <= k < a.len() ==> legible(#[trigger] a[k], depth + 1));
}

/// The items of an array are read one by one. A space may stand in front.
proof fn lemma_items_read(input: Input, from: At, at: At, a: Seq<Json>, i: int)
    requires
        0 <= i < a.len(),
        legible(Json::Array(a), (at.depth - 1) as nat),
        at.depth >= 1,
        stands(input, at.cur, items_text(a, i) + seq![']']),
        at.pending is None,
        from == at || (at == moved(from, 1) && peek(input, from) == Some(0x20u8)),
    ensures
        items(input, from, items_as_read(a).take(i)) == ok_at(
            items_as_read(a),
            moved(at, size(items_text(a, i) + seq![']'])),
        ),
    decreases a, a.len() - i,
{
    let v = a[i];
    let d = (at.depth - 1) as nat;
    lemma_item_legible(a, i, d);
    let rest = more_items_text(a, i + 1) + seq![']'];
    let whole = items_text(a, i) + seq![']'];
    assert(whole =~= text(v) + rest);
    lemma_stands_split(input, at.cur, text(v), rest);
    let a1 = moved(at, size(text(v)));
    let r = items_as_read(a);
    assert(r.take(i).push(as_read(v)) =~= r.take(i + 1));
    if i + 1 < a.len() {
        let body = items_text(a, i + 1) + seq![']'];
        assert(rest =~= seq![',', ' '] + body);
        lemma_separator(input, a1, body);
        lemma_value_read(input, from, at, v);
        let a2 = moved(a1, 1);
        let a3 = moved(a1, 2);
        lemma_items_read(input, a2, a3, a, i + 1);
        assert(onward(input, from, a1, 1));
        assert(moved(a3, size(body)) == moved(at, size(whole)));
    } else {
        assert(rest =~= seq![']']);
        lemma_ascii_one(input, a1.cur, ']');
        lemma_value_read(input, from, at, v);
        assert(r.take(i + 1) =~= r);
        assert(moved(a1, 1) == moved(at, size(whole)));
    }
}

/// What the text of a value starts with.
proof fn lemma_text_start(j: Json, depth: nat)
    requires
        legible(j, depth),
    ensures
        text(j).len() > 0,
        ({
            let c = text(j)[0];
            c <= '\u{7f}' && !is_space(c as u8) && c as u8 == match j {
                Json::String(_) => 0x22u8,
                Json::Object(_) => 0x7bu8,
                Json::Array(_) => 0x5bu8,
                Json::Bool(b) => if b {
                    0x74u8
                } else {
                    0x66u8
                },
                Json::Null => 0x6eu8,
                Json::Number(n) => n[0] as u8,
            }
        }),
        j matches Json::Number(n) ==> n[0] == '-' || '0' <= n[0] <= '9',
{
    if let Json::Number(n) = j {
        lemma_number_ascii(n);
    }
}

/// An object is read.
proof fn lemma_object_read(input: Input, at: At, e: Seq<(Seq<char>, Json)>)
    requires
        at.depth >= 1,
        legible(Json::Object(e), (at.depth - 1) as nat),
        stands(input, at.cur, text(Json::Object(e))),
        at.pending is None,
    ensures
        object(input, at) == ok_at(members_as_read(e), moved(at, size(text(Json::Object(e))))),
    decreases e, e.len() + 1,
{
    let t = text(Json::Object(e));
    let body = members_text(e, 0) + seq!['}'];
    assert(t =~= seq!['{'] + body);
    lemma_stands_split(input, at.cur, seq!['{'], body);
    lemma_ascii_one(input, at.cur, '{');
    let a1 = moved(at, 1);
    if e.len() == 0 {
        assert(body =~= seq!['}']);
        lemma_ascii_one(input, a1.cur, '}');
        lemma_no_spaces(input, a1);
        assert(members_as_read(e) =~= seq![]);
    } else {
        assert(body =~= seq!['"'] + body.drop_first());
        lemma_stands_split(input, a1.cur, seq!['"'], body.drop_first());
        lemma_ascii_one(input, a1.cur, '"');
        lemma_no_spaces(input, a1);
        lemma_members_read(input, a1, e, 0);
        assert(members_as_read(e).take(0) =~= seq![]);
        assert(moved(a1, size(body)) == moved(at, size(t)));
    }
}

/// An array is read.
proof fn lemma_array_read(input: Input, at: At, a: Seq<Json>)
    requires
        at.depth >= 1,
        legible(Json::Array(a), (at.depth - 1) as nat),
        stands(input, at.cur, text(Json::Array(a))),
        at.pending is None,
    ensures
        array(input, at) == ok_at(items_as_read(a), moved(at, size(text(Json::Array(a))))),
    decreases a, a.len() + 1,
{
    let t = text(Json::Array(a));
    let body = items_text(a, 0) + seq![']'];
    assert(t =~= seq!['['] + body);
    lemma_stands_split(input, at.cur, seq!['['], body);
    lemma_ascii_one(input, at.cur, '[');
    let a1 = moved(at, 1);
    if a.len() == 0 {
        assert(body =~= seq![']']);
        lemma_ascii_one(input, a1.cur, ']');
        lemma_no_spaces(input, a1);
        assert(items_as_read(a) =~= seq![]);
    } else {
        let d = (at.depth - 1) as nat;
        assert(legible(a[0], d + 1));
        lemma_text_start(a[0], d + 1);
        let c = text(a[0])[0];
        assert(body =~= seq![c] + body.drop_first());
        lemma_stands_split(input, a1.cur, seq![c], body.drop_first());
        lemma_ascii_one(input, a1.cur, c);
        lemma_no_spaces(input, a1);
        assert(c as u8 != 0x5d);
        lemma_items_read(input, a1, a1, a, 0);
        assert(items_as_read(a).take(0) =~= seq![]);
        assert(moved(a1, size(body)) == moved(at, size(t)));
    }
}

/// A string reads as it is.
proof fn lemma_string_read(input: Input, at: At, s: Seq<char>)
    requires
        stands(input, at.cur, text(Json::String(s))),
        at.pending is None,
    ensures
        string(input, at) == ok_at(s, moved(at, size(text(Json::String(s))))),
{
    let body = escaped(s) + seq!['"'];
    assert(text(Json::String(s)) =~= seq!['"'] + body);
    lemma_stands_split(input, at.cur, seq!['"'], body);
    lemma_ascii_one(input, at.cur, '"');
    lemma_string_rest(input, moved(at, 1), s, seq![]);
    assert(Seq::<char>::empty() + s =~= s);
}

/// A value is read, without whitespace around it.
#[verifier::rlimit(40)]
proof fn lemma_bare_value_read(input: Input, at: At, j: Json)
    requires
        at.depth >= 1,
        legible(j, (at.depth - 1) as nat),
        stands(input, at.cur, text(j)),
        at.pending is None,
        closes(input, at.cur + size(text(j))),
    ensures
        bare_value(input, at) == ok_at(as_read(j), moved(at, size(text(j)))),
        size(text(j)) > 0,
    decreases j, 0int,
{
    let t = text(j);
    lemma_text_start(j, (at.depth - 1) as nat);
    assert(t =~= seq![t[0]] + t.drop_first());
    lemma_stands_split(input, at.cur, seq![t[0]], t.drop_first());
    lemma_ascii_one(input, at.cur, t[0]);
    match j {
        Json::String(s) => {
            lemma_string_read(input, at, s);
        },
        Json::Number(n) => {
            lemma_number_reads(input, at, n);
        },
        Json::Bool(b) => {
            lemma_bool_reads(input, at, b);
        },
        Json::Null => {
            lemma_null_reads(input, at);
        },
        Json::Object(e) => {
            lemma_object_read(input, at, e);
        },
        Json::Array(a) => {
            lemma_array_read(input, at, a);
        },
    }
}

/// A value is read, with or without a space in front.
proof fn lemma_value_read(input: Input, from: At, at: At, j: Json)
    requires
        legible(j, at.depth),
        stands(input, at.cur, text(j)),
        at.pending is None,
        closes(input, at.cur + size(text(j))),
        from == at || (at == moved(from, 1) && peek(input, from) == Some(0x20u8)),
    ensures
        value(input, from) == ok_at(as_read(j), moved(at, size(text(j)))),
        size(text(j)) > 0,
    decreases j, 1int,
{
    let inside = At { depth: at.depth + 1, ..at };
    let outside = At { depth: from.depth + 1, ..from };
    let t = text(j);
    lemma_text_start(j, at.depth);
    assert(t =~= seq![t[0]] + t.drop_first());
    lemma_stands_split(input, at.cur, seq![t[0]], t.drop_first());
    lemma_ascii_one(input, at.cur, t[0]);
    lemma_no_spaces(input, inside);
    assert(spaces(input, outside) == inside);
    lemma_bare_value_read(input, inside, j);
    lemma_no_spaces(input, moved(inside, size(t)));
}

/// What is printed of a value is JSON, and parses as that value, but that exponents are
/// written with `e` from then on. A number has to be one, and nothing may be nested deeper than
/// the parser goes.
pub proof fn printed_values_parse(j: Json)
    requires
        legible(j, 0),
    ensures
        parsed(encode_utf8(text(j))) == Ok::<Json, (Fault, nat)>(as_read(j)),
{
    let bytes = encode_utf8(text(j));
    let input = Input { bytes, failure: None };
    let at = At { cur: 0, pos: 0, depth: 0, pending: None };
    assert(part(input, 0, bytes.len()) =~= bytes);
    lemma_value_read(input, at, at, j);
}

/// Parsing gives back the very value that was written, where exponents are written with `e`.
pub proof fn parse_inverts_to_string(j: Json)
    requires
        printable(j, 0),
    ensures
        parsed(encode_utf8(text(j))) == Ok::<Json, (Fault, nat)>(j),
{
    lemma_printable_is_legible(j, 0);
    printed_values_parse(j);
}

proof fn lemma_small_e_digits(n: Seq<char>, i: int, acc: nat, max: nat, over: ParseIntError)
    requires
        0 <= i,
    ensures
        number_from(with_small_e(n), i, acc, max, over) == number_from(n, i, acc, max, over),
    decreases n.len() - i,
{
    if i < n.len() && crate::decimal::is_digit(n[i]) {
        lemma_small_e_digits(n, i + 1, (acc * 10 + (n[i] as nat - 48)) as nat, max, over);
    }
}

/// A number and the number as it is read are the same integer, if any.
proof fn lemma_small_e_integer(n: Seq<char>)
    ensures
        unsigned_value(with_small_e(n)) == unsigned_value(n),
        signed_value(with_small_e(n)) == signed_value(n),
{
    let at = if n.len() > 0 && (n[0] == '+' || n[0] == '-') {
        1int
    } else {
        0int
    };
    lemma_small_e_digits(n, at, 0, u64::MAX as nat, ParseIntError::PosOverflow);
    lemma_small_e_digits(n, 0, 0, u64::MAX as nat, ParseIntError::PosOverflow);
    lemma_small_e_digits(n, at, 0, i64::MAX as nat, ParseIntError::PosOverflow);
    lemma_small_e_digits(n, at, 0, 0x8000_0000_0000_0000, ParseIntError::NegOverflow);
}

/// Double precision does not tell `e` from `E`.
pub open spec fn takes_either_e(doubles: Doubles) -> bool {
    forall|n: Seq<char>|
        is_number(n) ==> #[trigger] doubles(with_small_e(n), n) == Some(true)
}

proof fn lemma_as_read_is_equal(j: Json, depth: nat, doubles: Doubles)
    requires
        legible(j, depth),
        takes_either_e(doubles),
    ensures
        json_eq(as_read(j), j, doubles),
    decreases j,
{
    match j {
        Json::Number(n) => {
            lemma_small_e_integer(n);
            assert(doubles(with_small_e(n), n) == Some(true));
        },
        Json::Object(e) => {
            let r = members_as_read(e);
            assert forall|i: int| 0 <= i < r.len() implies (match lookup(e, (#[trigger] r[i]).0) {
                Some(v) => json_eq(r[i].1, v, doubles),
                None => false,
            }) by {
                assert(legible(e[i].1, depth + 1));
                lemma_as_read_is_equal(e[i].1, depth + 1, doubles);
                lemma_position_is(e, e[i].0, i);
            }
        },
        Json::Array(a) => {
            let r = items_as_read(a);
            assert forall|i: int| 0 <= i < r.len() implies json_eq(#[trigger] r[i], a[i], doubles) by {
                assert(legible(a[i], depth + 1));
                lemma_as_read_is_equal(a[i], depth + 1, doubles);
            }
        },
        _ => {},
    }
}

/// What is printed of a value parses as a value that is the same, whatever the strings and the
/// keys in it, where double precision does not tell `e` from `E`.
pub proof fn printed_values_parse_back(j: Json, doubles: Doubles)
    requires
        legible(j, 0),
        takes_either_e(doubles),
    ensures
        parsed(encode_utf8(text(j))) matches Ok(k) && json_eq(k, j, doubles),
{
    printed_values_parse(j);
    lemma_as_read_is_equal(j, 0, doubles);
}

/// An unsigned number in base ten is the text of a number.
pub proof fn lemma_decimal_is_number(n: nat)
    ensures
        is_number(decimal(n)),
        !decimal(n).contains('E'),
{
    lemma_decimal_digits(n);
    let s = decimal(n);
    assert(crate::decimal::is_digit(s[0]));
    lemma_digits_end(s, 1);
    if digits_end(s, 1) < s.len() {
        assert(crate::decimal::is_digit(s[digits_end(s, 1)]));
    }
    if s[0] == '0' {
        assert(s.len() == 1);
    }
}

/// A signed number in base ten is the text of a number.
pub proof fn lemma_signed_decimal_is_number(n: int)
    ensures
        is_number(signed_decimal(n)),
        !signed_decimal(n).contains('E'),
{
    if n >= 0 {
        lemma_decimal_is_number(n as nat);
    } else {
        let m = (-n) as nat;
        lemma_decimal_digits(m);
        let d = decimal(m);
        let s = signed_decimal(n);
        assert forall|i: int| 1 <= i < s.len() implies crate::decimal::is_digit(#[trigger] s[i]) by {
            assert(s[i] == d[i - 1]);
        }
        assert(s[1] == d[0]);
        lemma_digits_end(s, 2);
        if digits_end(s, 2) < s.len() {
            assert(crate::decimal::is_digit(s[digits_end(s, 2)]));
        }
    }
}

} // verus!
