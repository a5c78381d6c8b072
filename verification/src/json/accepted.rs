//! Nothing is read that is not a JSON document.
use crate::assoc::put;
use crate::json::error::Fault;
use crate::json::grammar::{
    array, bare_value, boolean, digits, escape_sequence, exponent, fractional, hex, hex_digit, integral, is_digit,
    is_space, items, lemma_spaces_at, members, more, multi_byte, next, null, number, object, partner, peek,
    pending_piece, piece, room, short_escape, spaces, string, string_rest, utf8_width, value, word, At, Input,
};
use crate::json::parser::parsed;
use crate::json::roundtrip::{
    digits_end, exponent_end, fractional_end, integral_end, is_number, lemma_encode_concat, lemma_more_reads, moved,
    part, with_small_e,
};
use crate::json::spelling::{
    are_nibbles, bare_text, comma, correct, documents_are_read_however_written, glyph_char, glyph_fits, glyph_text,
    glyphs_chars, glyphs_fit, glyphs_text, is_blank, items_meaning, meaning, member_text, members_meaning, nibble,
    padded_text, unit, written_items, written_members, Glyph, Member, Padded, Written,
};
use crate::json::value::Json;
use vstd::prelude::*;
use vstd::utf8::{decode_utf8, encode_utf8, is_ascii_chars};

verus! {

/// The bytes from `a` up to `b` are the text `t`.
pub open spec fn spells(input: Input, a: nat, b: nat, t: Seq<char>) -> bool {
    &&& a <= b <= input.bytes.len()
    &&& encode_utf8(t) == input.bytes.subrange(a as int, b as int)
}

proof fn lemma_spells_both(input: Input, a: nat, b: nat, c: nat, t: Seq<char>, u: Seq<char>)
    requires
        spells(input, a, b, t),
        spells(input, b, c, u),
    ensures
        spells(input, a, c, t + u),
{
    lemma_encode_concat(t, u);
    assert(input.bytes.subrange(a as int, b as int) + input.bytes.subrange(b as int, c as int)
        =~= input.bytes.subrange(a as int, c as int));
}

proof fn lemma_spells_ascii(input: Input, a: nat, t: Seq<char>)
    requires
        a + t.len() <= input.bytes.len(),
        is_ascii_chars(t),
        forall|i: int| #![trigger t[i]] 0 <= i < t.len() ==> input.bytes[a + i] == t[i] as u8,
    ensures
        spells(input, a, a + t.len(), t),
{
    vstd::utf8::is_ascii_chars_encode_utf8(t);
    let e = encode_utf8(t);
    assert forall|i: int| 0 <= i < t.len() implies e[i] == #[trigger] input.bytes.subrange(
        a as int,
        a + t.len() as int,
    )[i] by {
        assert(e[i] == t[i] as u8);
    }
    assert(e =~= input.bytes.subrange(a as int, a + t.len() as int));
}

proof fn lemma_spells_one(input: Input, a: nat, c: char)
    requires
        a < input.bytes.len(),
        c <= '\u{7f}',
        input.bytes[a as int] == c as u8,
    ensures
        spells(input, a, a + 1, seq![c]),
{
    let t = seq![c];
    assert(is_ascii_chars(t));
    assert forall|i: int| #![trigger t[i]] 0 <= i < t.len() implies input.bytes[a + i] == t[i] as u8 by {}
    lemma_spells_ascii(input, a, t);
}

proof fn lemma_spells_none(input: Input, a: nat)
    requires
        a <= input.bytes.len(),
    ensures
        spells(input, a, a, seq![]),
{
    assert(input.bytes.subrange(a as int, a as int) =~= seq![]);
}

/// What was skipped is whitespace.
proof fn lemma_skipped(input: Input, at: At) -> (s: Seq<char>)
    requires
        at.cur <= input.bytes.len(),
    ensures
        is_blank(s),
        spells(input, at.cur, spaces(input, at).cur, s),
        spaces(input, at).pending == at.pending,
        spaces(input, at).depth == at.depth,
    decreases input.bytes.len() - at.cur,
{
    if at.cur < input.bytes.len() && is_space(input.bytes[at.cur as int]) {
        let c = input.bytes[at.cur as int] as char;
        let rest = lemma_skipped(input, moved(at, 1));
        lemma_spells_one(input, at.cur, c);
        lemma_spells_both(input, at.cur, at.cur + 1, spaces(input, at).cur, seq![c], rest);
        let s = seq![c] + rest;
        assert forall|i: int| 0 <= i < s.len() implies #[trigger] s[i] == ' ' || s[i] == '\n' || s[i]
            == '\r' || s[i] == '\t' by {
            if i > 0 {
                assert(s[i] == rest[i - 1]);
            }
        }
        s
    } else {
        lemma_spells_none(input, at.cur);
        seq![]
    }
}

/// A word was read, so it was there.
proof fn lemma_word_was(input: Input, at: At, w: Seq<u8>, i: int, scanning: Seq<char>)
    requires
        word(input, at, w, i, scanning) is Ok,
        0 <= i <= w.len(),
        at.cur <= input.bytes.len(),
    ensures
        at.cur + (w.len() - i) <= input.bytes.len(),
        word(input, at, w, i, scanning)->Ok_0.1 == moved(at, (w.len() - i) as nat),
        forall|k: int| #![trigger w[k]] i <= k < w.len() ==> input.bytes[at.cur + (k - i)] == w[k],
    decreases w.len() - i,
{
    if i < w.len() {
        let at1 = moved(at, 1);
        lemma_word_was(input, at1, w, i + 1, scanning);
        assert forall|k: int| #![trigger w[k]] i <= k < w.len() implies input.bytes[at.cur + (k - i)]
            == w[k] by {
            if k > i {
                assert(at1.cur + (k - (i + 1)) == at.cur + (k - i));
            }
        }
    }
}

/// The bytes from `a` up to `b`, one character each.
pub open spec fn chars(input: Input, a: nat, b: nat) -> Seq<char> {
    Seq::new((b - a) as nat, |i: int| input.bytes[a + i] as char)
}

/// Digits were read, up to where there are none.
proof fn lemma_digits_were(input: Input, at: At, n: Seq<char>)
    requires
        at.cur <= input.bytes.len(),
    ensures
        ({
            let (r, b) = digits(input, at, n);
            &&& at.cur <= b.cur <= input.bytes.len()
            &&& b == moved(at, (b.cur - at.cur) as nat)
            &&& r == n + chars(input, at.cur, b.cur)
            &&& forall|k: int| at.cur <= k < b.cur ==> is_digit(#[trigger] input.bytes[k])
            &&& b.cur < input.bytes.len() ==> !is_digit(input.bytes[b.cur as int])
        }),
    decreases input.bytes.len() - at.cur,
{
    if at.cur < input.bytes.len() && is_digit(input.bytes[at.cur as int]) {
        let c = input.bytes[at.cur as int] as char;
        let at1 = moved(at, 1);
        lemma_digits_were(input, at1, n.push(c));
        let (r, b) = digits(input, at, n);
        assert(n.push(c) + chars(input, at1.cur, b.cur) =~= n + chars(input, at.cur, b.cur));
    } else {
        assert(n + chars(input, at.cur, at.cur) =~= n);
    }
}

/// Digits end where they end.
proof fn lemma_digits_end_is(n: Seq<char>, i: int, e: int)
    requires
        0 <= i <= e <= n.len(),
        forall|k: int| i <= k < e ==> '0' <= #[trigger] n[k] <= '9',
        e < n.len() ==> !('0' <= n[e] <= '9'),
    ensures
        digits_end(n, i) == e,
    decreases e - i,
{
    if i < e {
        lemma_digits_end_is(n, i + 1, e);
    }
}

/// What an integral part that was read looks like.
proof fn lemma_integral_was(input: Input, at: At) -> (s: nat)
    requires
        integral(input, at, seq![]) is Ok,
        at.cur <= input.bytes.len(),
    ensures
        ({
            let (n, b) = integral(input, at, seq![])->Ok_0;
            &&& at.cur + s < b.cur <= input.bytes.len()
            &&& b == moved(at, (b.cur - at.cur) as nat)
            &&& n == chars(input, at.cur, b.cur)
            &&& s == (if input.bytes[at.cur as int] == 0x2d {
                1nat
            } else {
                0nat
            })
            &&& is_digit(input.bytes[at.cur + s as int])
            &&& if input.bytes[at.cur + s as int] == 0x30 {
                b.cur == at.cur + s + 1
            } else {
                &&& forall|k: int| at.cur + s <= k < b.cur ==> is_digit(#[trigger] input.bytes[k])
                &&& b.cur < input.bytes.len() ==> !is_digit(input.bytes[b.cur as int])
            }
        }),
{
    let minus = peek(input, at) == Some(0x2du8);
    let s: nat = if minus {
        1
    } else {
        0
    };
    let signed = if minus {
        seq!['-']
    } else {
        seq![]
    };
    assert(Seq::<char>::empty().push('-') =~= seq!['-']);
    let b0 = input.bytes[at.cur + s as int];
    let (n, b) = integral(input, at, seq![])->Ok_0;
    if b0 != 0x30 {
        lemma_digits_were(input, moved(at, s + 1), signed.push(b0 as char));
        assert(signed.push(b0 as char) =~= chars(input, at.cur, at.cur + s + 1));
        assert(chars(input, at.cur, at.cur + s + 1) + chars(input, at.cur + s + 1, b.cur) =~= chars(
            input,
            at.cur,
            b.cur,
        ));
    } else {
        assert(signed.push('0') =~= chars(input, at.cur, at.cur + s + 1));
    }
    s
}

/// What a fractional part that was read looks like.
proof fn lemma_fractional_was(input: Input, at: At, n: Seq<char>)
    requires
        fractional(input, at, n) is Ok,
        at.cur <= input.bytes.len(),
    ensures
        ({
            let (r, b) = fractional(input, at, n)->Ok_0;
            &&& at.cur <= b.cur <= input.bytes.len()
            &&& b == moved(at, (b.cur - at.cur) as nat)
            &&& r == n + chars(input, at.cur, b.cur)
            &&& if at.cur < input.bytes.len() && input.bytes[at.cur as int] == 0x2e {
                &&& at.cur + 1 < b.cur
                &&& forall|k: int| at.cur + 1 <= k < b.cur ==> is_digit(#[trigger] input.bytes[k])
                &&& b.cur < input.bytes.len() ==> !is_digit(input.bytes[b.cur as int])
            } else {
                b.cur == at.cur
            }
        }),
{
    let (r, b) = fractional(input, at, n)->Ok_0;
    if peek(input, at) == Some(0x2eu8) {
        let c = input.bytes[at.cur as int + 1] as char;
        lemma_digits_were(input, moved(at, 2), n.push('.').push(c));
        assert(n.push('.').push(c) + chars(input, at.cur + 2, b.cur) =~= n + chars(
            input,
            at.cur,
            b.cur,
        ));
    } else {
        assert(n + chars(input, at.cur, at.cur) =~= n);
    }
}

/// What an exponent that was read looks like.
proof fn lemma_exponent_was(input: Input, at: At, n: Seq<char>) -> (k: nat)
    requires
        exponent(input, at, n) is Ok,
        at.cur <= input.bytes.len(),
    ensures
        ({
            let (r, b) = exponent(input, at, n)->Ok_0;
            &&& at.cur <= b.cur <= input.bytes.len()
            &&& b == moved(at, (b.cur - at.cur) as nat)
            &&& if at.cur < input.bytes.len() && (input.bytes[at.cur as int] == 0x65
                || input.bytes[at.cur as int] == 0x45) {
                &&& at.cur + 1 < input.bytes.len()
                &&& k == (if input.bytes[at.cur + 1 as int] == 0x2b || input.bytes[at.cur + 1 as int]
                    == 0x2d {
                    2nat
                } else {
                    1nat
                })
                &&& at.cur + k < b.cur
                &&& r == n + (seq!['e'] + chars(input, at.cur + 1, b.cur))
                &&& forall|x: int| at.cur + k <= x < b.cur ==> is_digit(#[trigger] input.bytes[x])
                &&& b.cur < input.bytes.len() ==> !is_digit(input.bytes[b.cur as int])
            } else {
                b.cur == at.cur && r == n
            }
        }),
{
    let (r, b) = exponent(input, at, n)->Ok_0;
    let exp = peek(input, at) == Some(0x65u8) || peek(input, at) == Some(0x45u8);
    if exp {
        let b2 = input.bytes[at.cur as int + 1];
        if b2 == 0x2b || b2 == 0x2d {
            let b3 = input.bytes[at.cur as int + 2];
            let m = n.push('e').push(b2 as char).push(b3 as char);
            lemma_digits_were(input, moved(at, 3), m);
            assert(m + chars(input, at.cur + 3, b.cur) =~= n + (seq!['e'] + chars(
                input,
                at.cur + 1,
                b.cur,
            )));
            2
        } else {
            let m = n.push('e').push(b2 as char);
            lemma_digits_were(input, moved(at, 2), m);
            assert(m + chars(input, at.cur + 2, b.cur) =~= n + (seq!['e'] + chars(
                input,
                at.cur + 1,
                b.cur,
            )));
            1
        }
    } else {
        0
    }
}

/// What was read as a number is the text of one.
#[verifier::rlimit(60)]
proof fn lemma_number_was(input: Input, at: At) -> (n: Seq<char>)
    requires
        number(input, at) is Ok,
        at.cur <= input.bytes.len(),
    ensures
        is_number(n),
        number(input, at)->Ok_0.0 == with_small_e(n),
        spells(input, at.cur, number(input, at)->Ok_0.1.cur, n),
        number(input, at)->Ok_0.1.pending == at.pending,
        number(input, at)->Ok_0.1.depth == at.depth,
{
    let a = at.cur;
    let (n1, at1) = integral(input, at, seq![])->Ok_0;
    let s = lemma_integral_was(input, at);
    let (n2, at2) = fractional(input, at1, n1)->Ok_0;
    lemma_fractional_was(input, at1, n1);
    let (n3, at3) = exponent(input, at2, n2)->Ok_0;
    let k = lemma_exponent_was(input, at2, n2);
    let n = chars(input, a, at3.cur);
    let i = at1.cur - a;
    let j = at2.cur - a;
    let e = at3.cur - a;
    assert forall|x: int| 0 <= x < n.len() implies #[trigger] n[x] == input.bytes[a + x] as char by {}
    if n[s as int] != '0' {
        assert forall|x: int| s + 1 <= x < i implies '0' <= #[trigger] n[x] <= '9' by {
            assert(is_digit(input.bytes[a + x]));
        }
        lemma_digits_end_is(n, s as int + 1, i);
    }
    assert(integral_end(n) == Some(i));
    if j > i {
        assert(n[i] == '.');
        assert forall|x: int| i + 1 <= x < j implies '0' <= #[trigger] n[x] <= '9' by {
            assert(is_digit(input.bytes[a + x]));
        }
        lemma_digits_end_is(n, i + 2, j);
    }
    assert(fractional_end(n, i) == Some(j));
    if e > j {
        assert(n[j] == 'e' || n[j] == 'E');
        assert forall|x: int| j + k <= x < e implies '0' <= #[trigger] n[x] <= '9' by {
            assert(is_digit(input.bytes[a + x]));
        }
        assert(n[j + 1] == input.bytes[at2.cur + 1 as int] as char);
        lemma_digits_end_is(n, j + k + 1, e);
    }
    assert(exponent_end(n, j) == Some(e));
    assert forall|x: int| 0 <= x < n.len() implies '\0' <= #[trigger] n[x] <= '\u{7f}' && (n[x]
        != 'E' || x == j) by {
        assert(n[x] == input.bytes[a + x] as char);
        if x < s {
        } else if x < i {
            assert(is_digit(input.bytes[a + x]));
        } else if x < j {
            if x > i {
                assert(is_digit(input.bytes[a + x]));
            }
        } else if x >= j + k {
            assert(is_digit(input.bytes[a + x]));
        }
    }
    lemma_spells_ascii(input, a, n);
    assert(n3 =~= with_small_e(n));
    n
}

/// Four hexadecimal digits were read.
proof fn lemma_unit_was(input: Input, at: At) -> (q: (char, char, char, char))
    requires
        hex(input, at, 4, 0) is Ok,
        at.cur <= input.bytes.len(),
    ensures
        are_nibbles(q),
        at.cur + 4 <= input.bytes.len(),
        hex(input, at, 4, 0)->Ok_0 == (unit(q), moved(at, 4)),
        0 <= unit(q) <= 0xffff,
        spells(input, at.cur, at.cur + 4, seq![q.0, q.1, q.2, q.3]),
{
    reveal_with_fuel(hex, 5);
    let a = at.cur as int;
    let q = (
        input.bytes[a] as char,
        input.bytes[a + 1] as char,
        input.bytes[a + 2] as char,
        input.bytes[a + 3] as char,
    );
    assert(next(input, at) is Ok);
    assert(next(input, moved(at, 1)) is Ok);
    assert(next(input, moved(at, 2)) is Ok);
    assert(next(input, moved(at, 3)) is Ok);
    assert(hex_digit(input.bytes[a]) == Some(nibble(q.0)));
    assert(hex_digit(input.bytes[a + 1]) == Some(nibble(q.1)));
    assert(hex_digit(input.bytes[a + 2]) == Some(nibble(q.2)));
    assert(hex_digit(input.bytes[a + 3]) == Some(nibble(q.3)));
    let t = seq![q.0, q.1, q.2, q.3];
    assert(is_ascii_chars(t));
    assert forall|i: int| #![trigger t[i]] 0 <= i < t.len() implies input.bytes[at.cur + i]
        == t[i] as u8 by {}
    lemma_spells_ascii(input, at.cur, t);
    q
}

/// A character of several bytes was read.
proof fn lemma_multi_was(input: Input, at: At, b: u8) -> (c: char)
    requires
        at.cur < input.bytes.len(),
        b == input.bytes[at.cur as int],
        b > 0x7f,
        multi_byte(input, moved(at, 1), b) is Ok,
    ensures
        c > '\u{7f}',
        multi_byte(input, moved(at, 1), b)->Ok_0.0 == seq![c],
        ({
            let at1 = multi_byte(input, moved(at, 1), b)->Ok_0.1;
            &&& at.cur < at1.cur
            &&& at1 == moved(at, (at1.cur - at.cur) as nat)
            &&& spells(input, at.cur, at1.cur, seq![c])
        }),
{
    let w = utf8_width(b)->Some_0;
    let at1 = moved(at, 1);
    let (bytes, at2) = more(input, at1, (w - 1) as nat, seq![b])->Ok_0;
    lemma_more_was(input, at1, (w - 1) as nat, seq![b]);
    assert(bytes =~= input.bytes.subrange(at.cur as int, at2.cur as int));
    assert(bytes.len() == w);
    let rest = vstd::utf8::pop_first_scalar(bytes);
    assert(vstd::utf8::valid_first_scalar(bytes));
    assert(vstd::utf8::length_of_first_scalar(bytes) == w);
    assert(rest =~= seq![]);
    assert(decode_utf8(rest) =~= seq![]);
    let v = vstd::utf8::decode_first_scalar(bytes);
    let c = v as char;
    assert(decode_utf8(bytes) =~= seq![c]);
    vstd::utf8::decode_utf8_encode_utf8(bytes);
    if c <= '\u{7f}' {
        assert(is_ascii_chars(seq![c]));
        vstd::utf8::is_ascii_chars_encode_utf8(seq![c]);
        assert(encode_utf8(seq![c]).len() == 1);
    }
    c
}

/// Bytes were read one after the other.
proof fn lemma_more_was(input: Input, at: At, n: nat, got: Seq<u8>)
    requires
        more(input, at, n, got) is Ok,
        at.cur <= input.bytes.len(),
    ensures
        at.cur + n <= input.bytes.len(),
        more(input, at, n, got)->Ok_0 == (got + part(input, at.cur, n), moved(at, n)),
    decreases n,
{
    if n > 0 {
        let b = input.bytes[at.cur as int];
        lemma_more_was(input, moved(at, 1), (n - 1) as nat, got.push(b));
    }
    lemma_more_reads(input, at, n, got);
}

/// A waiting high surrogate is read with its partner, and reading goes on behind them.
proof fn lemma_partner_was(input: Input, at: At, high: u16, got: Seq<char>) -> (q: (char, char, char, char))
    requires
        at.pending == Some(high),
        0xd800 <= high <= 0xdbff,
        at.cur <= input.bytes.len(),
        string_rest(input, at, got) is Ok,
    ensures
        are_nibbles(q),
        0xdc00 <= unit(q) <= 0xdfff,
        spells(input, at.cur, at.cur + 6, seq!['\\', 'u', q.0, q.1, q.2, q.3]),
        string_rest(input, at, got) == string_rest(
            input,
            At { pending: None, ..moved(at, 6) },
            got + seq![(0x10000 + (high - 0xd800) * 0x400 + (unit(q) - 0xdc00)) as char],
        ),
{
    assert(pending_piece(input, at) is Ok);
    let (c, behind) = partner(input, at, high)->Ok_0;
    let a = at.cur;
    assert(input.bytes[a as int] == 0x5c && input.bytes[a as int + 1] == 0x75);
    let q = lemma_unit_was(input, moved(at, 2));
    lemma_spells_one(input, a, '\\');
    lemma_spells_one(input, a + 1, 'u');
    lemma_spells_both(input, a, a + 1, a + 2, seq!['\\'], seq!['u']);
    lemma_spells_both(
        input,
        a,
        a + 2,
        a + 6,
        seq!['\\'] + seq!['u'],
        seq![q.0, q.1, q.2, q.3],
    );
    assert(seq!['\\'] + seq!['u'] + seq![q.0, q.1, q.2, q.3] =~= seq![
        '\\',
        'u',
        q.0,
        q.1,
        q.2,
        q.3,
    ]);
    let (p, _) = piece(input, behind)->Ok_0;
    assert(got + (seq![c] + p.adds) =~= (got + seq![c]) + p.adds);
    q
}

/// What was read as a string was written as one.
#[verifier::rlimit(60)]
proof fn lemma_string_was(input: Input, at: At, got: Seq<char>) -> (s: Seq<Glyph>)
    requires
        string_rest(input, at, got) is Ok,
        at.cur <= input.bytes.len(),
        at.pending is None,
    ensures
        glyphs_fit(s),
        ({
            let (r, b) = string_rest(input, at, got)->Ok_0;
            &&& at.cur < b.cur
            &&& b == moved(at, (b.cur - at.cur) as nat)
            &&& r == got + glyphs_chars(s)
            &&& spells(input, at.cur, b.cur, glyphs_text(s))
        }),
    decreases input.bytes.len() - at.cur, 0int,
{
    let (p, at1) = piece(input, at)->Ok_0;
    let (r, end) = string_rest(input, at, got)->Ok_0;
    let a = at.cur;
    let b = input.bytes[a as int];
    if b == 0x22 {
        lemma_spells_one(input, a, '"');
        let s: Seq<Glyph> = seq![];
        assert(got + seq![] =~= got + glyphs_chars(s));
        s
    } else if b == 0x5c {
        let e = input.bytes[a as int + 1];
        assert(escape_sequence(input, moved(at, 1)) is Ok);
        assert(a + 1 < input.bytes.len());
        lemma_spells_one(input, a, '\\');
        if short_escape(e) is Some {
            let c = e as char;
            lemma_spells_one(input, a + 1, c);
            lemma_spells_both(input, a, a + 1, a + 2, seq!['\\'], seq![c]);
            assert(seq!['\\'] + seq![c] =~= seq!['\\', c]);
            let g = Glyph::Short(c);
            lemma_string_goes_on(input, at, a + 2, g, got)
        } else {
            assert(e == 0x75);
            lemma_spells_one(input, a + 1, 'u');
            lemma_spells_both(input, a, a + 1, a + 2, seq!['\\'], seq!['u']);
            let q = lemma_unit_was(input, moved(at, 2));
            let t = seq![q.0, q.1, q.2, q.3];
            lemma_spells_both(input, a, a + 2, a + 6, seq!['\\'] + seq!['u'], t);
            let u = seq!['\\', 'u', q.0, q.1, q.2, q.3];
            assert(seq!['\\'] + seq!['u'] + t =~= u);
            if 0xd800 <= unit(q) <= 0xdbff {
                let high = unit(q) as u16;
                let waiting = At { pending: Some(high), ..moved(at, 6) };
                assert(got + seq![] =~= got);
                assert(string_rest(input, at, got) == string_rest(input, waiting, got));
                let l = lemma_partner_was(input, waiting, high, got);
                let v = seq!['\\', 'u', l.0, l.1, l.2, l.3];
                lemma_spells_both(input, a, a + 6, a + 12, u, v);
                let g = Glyph::Pair(q, l);
                assert(glyph_text(g) =~= u + v);
                lemma_string_goes_on(input, at, a + 12, g, got)
            } else {
                let g = Glyph::Code(q.0, q.1, q.2, q.3);
                lemma_string_goes_on(input, at, a + 6, g, got)
            }
        }
    } else if b <= 0x7f {
        lemma_spells_one(input, a, b as char);
        lemma_string_goes_on(input, at, a + 1, Glyph::Plain(b as char), got)
    } else {
        let c = lemma_multi_was(input, at, b);
        lemma_string_goes_on(input, at, at1.cur, Glyph::Plain(c), got)
    }
}

/// Behind one character the string goes on.
proof fn lemma_string_goes_on(input: Input, at: At, cur: nat, g: Glyph, got: Seq<char>) -> (s: Seq<Glyph>)
    requires
        at.pending is None,
        at.cur < cur <= input.bytes.len(),
        glyph_fits(g),
        spells(input, at.cur, cur, glyph_text(g)),
        string_rest(input, at, got) is Ok,
        string_rest(input, at, got) == string_rest(
            input,
            moved(at, (cur - at.cur) as nat),
            got + seq![glyph_char(g)],
        ),
    ensures
        glyphs_fit(s),
        ({
            let (r, b) = string_rest(input, at, got)->Ok_0;
            &&& at.cur < b.cur
            &&& b == moved(at, (b.cur - at.cur) as nat)
            &&& r == got + glyphs_chars(s)
            &&& spells(input, at.cur, b.cur, glyphs_text(s))
        }),
    decreases input.bytes.len() - cur, 1int,
{
    let next_at = moved(at, (cur - at.cur) as nat);
    let rest = lemma_string_was(input, next_at, got + seq![glyph_char(g)]);
    let s = seq![g] + rest;
    assert(s.drop_first() =~= rest);
    assert(s[0] == g);
    let (r, b) = string_rest(input, at, got)->Ok_0;
    lemma_spells_both(input, at.cur, cur, b.cur, glyph_text(g), glyphs_text(rest));
    assert(glyphs_text(s) == glyph_text(g) + glyphs_text(rest));
    assert(got + seq![glyph_char(g)] + glyphs_chars(rest) =~= got + glyphs_chars(s));
    assert forall|i: int| 0 <= i < s.len() implies glyph_fits(#[trigger] s[i]) by {
        if i > 0 {
            assert(s[i] == rest[i - 1]);
        }
    }
    s
}

proof fn lemma_blank_both(a: Seq<char>, b: Seq<char>)
    requires
        is_blank(a),
        is_blank(b),
    ensures
        is_blank(a + b),
{
    let s = a + b;
    assert forall|i: int| 0 <= i < s.len() implies #[trigger] s[i] == ' ' || s[i] == '\n' || s[i]
        == '\r' || s[i] == '\t' by {
        if i < a.len() {
            assert(s[i] == a[i]);
        } else {
            assert(s[i] == b[i - a.len()]);
        }
    }
}

/// An item that is correct, with the whitespace around it.
pub open spec fn item_fits(p: Padded, depth: nat) -> bool {
    is_blank(p.before) && is_blank(p.after) && correct(p.it, depth)
}

/// A member that is correct, with the whitespace around its parts.
pub open spec fn member_fits(m: Member, depth: nat) -> bool {
    is_blank(m.before) && glyphs_fit(m.key) && is_blank(m.between) && item_fits(m.value, depth)
}

/// The items behind the first one are written as if they stood alone.
proof fn lemma_items_shift(p: Padded, rest: Seq<Padded>, i: int)
    requires
        0 < i <= rest.len(),
    ensures
        written_items(seq![p] + rest, i + 1) == written_items(rest, i),
    decreases rest.len() - i,
{
    let a = seq![p] + rest;
    if i < rest.len() {
        assert(a[i + 1] == rest[i]);
        lemma_items_shift(p, rest, i + 1);
        assert(written_items(a, i + 1) == comma(i + 1) + padded_text(a[i + 1]) + written_items(
            a,
            i + 2,
        ));
    }
}

proof fn lemma_items_front(p: Padded, rest: Seq<Padded>)
    ensures
        rest.len() == 0 ==> written_items(seq![p] + rest, 0) == padded_text(p) + seq![']'],
        rest.len() > 0 ==> written_items(seq![p] + rest, 0) == padded_text(p) + (seq![',']
            + written_items(rest, 0)),
        items_meaning(seq![p] + rest) == seq![meaning(p.it)] + items_meaning(rest),
{
    let a = seq![p] + rest;
    assert(a[0] == p);
    assert(written_items(a, 0) == comma(0) + padded_text(p) + written_items(a, 1));
    assert(comma(0) + padded_text(p) =~= padded_text(p));
    if rest.len() > 0 {
        assert(a[1] == rest[0]);
        lemma_items_shift(p, rest, 1);
        assert(written_items(a, 1) == comma(1) + padded_text(a[1]) + written_items(a, 2));
        assert(written_items(rest, 0) == comma(0) + padded_text(rest[0]) + written_items(rest, 1));
        assert(comma(0) + padded_text(rest[0]) =~= padded_text(rest[0]));
        assert(written_items(a, 1) =~= seq![','] + written_items(rest, 0));
    }
    assert forall|i: int| 0 <= i < a.len() implies #[trigger] items_meaning(a)[i] == (seq![
        meaning(p.it),
    ] + items_meaning(rest))[i] by {
        if i > 0 {
            assert(a[i] == rest[i - 1]);
        }
    }
    assert(items_meaning(a) =~= seq![meaning(p.it)] + items_meaning(rest));
}

/// The first `n` members put onto others.
pub open spec fn onto(e: Seq<(Seq<char>, Json)>, m: Seq<Member>, n: nat) -> Seq<(Seq<char>, Json)>
    decreases n,
{
    if n == 0 || n > m.len() {
        e
    } else {
        put(onto(e, m, (n - 1) as nat), glyphs_chars(m[n - 1].key), meaning(m[n - 1].value.it))
    }
}

proof fn lemma_onto_none(m: Seq<Member>, n: nat)
    requires
        n <= m.len(),
    ensures
        onto(seq![], m, n) == members_meaning(m, n),
    decreases n,
{
    if n > 0 {
        lemma_onto_none(m, (n - 1) as nat);
    }
}

proof fn lemma_onto_front(e: Seq<(Seq<char>, Json)>, x: Member, rest: Seq<Member>, n: nat)
    requires
        n <= rest.len(),
    ensures
        onto(e, seq![x] + rest, n + 1) == onto(
            put(e, glyphs_chars(x.key), meaning(x.value.it)),
            rest,
            n,
        ),
    decreases n,
{
    let m = seq![x] + rest;
    if n == 0 {
        assert(m[0] == x);
        assert(onto(e, m, 0) == e);
    } else {
        lemma_onto_front(e, x, rest, (n - 1) as nat);
        assert(m[n as int] == rest[n - 1]);
    }
}

proof fn lemma_members_shift(x: Member, rest: Seq<Member>, i: int)
    requires
        0 < i <= rest.len(),
    ensures
        written_members(seq![x] + rest, i + 1) == written_members(rest, i),
    decreases rest.len() - i,
{
    let m = seq![x] + rest;
    if i < rest.len() {
        assert(m[i + 1] == rest[i]);
        lemma_members_shift(x, rest, i + 1);
        assert(written_members(m, i + 1) == comma(i + 1) + m[i + 1].before + seq!['"'] + glyphs_text(
            m[i + 1].key,
        ) + m[i + 1].between + seq![':'] + padded_text(m[i + 1].value) + written_members(m, i + 2));
    }
}

proof fn lemma_members_front(x: Member, rest: Seq<Member>)
    ensures
        rest.len() == 0 ==> written_members(seq![x] + rest, 0) == x.before + member_text(x) + seq![
            '}',
        ],
        rest.len() > 0 ==> written_members(seq![x] + rest, 0) == x.before + member_text(x) + (seq![
            ',',
        ] + written_members(rest, 0)),
{
    let m = seq![x] + rest;
    assert(m[0] == x);
    assert(written_members(m, 0) == comma(0) + m[0].before + seq!['"'] + glyphs_text(m[0].key)
        + m[0].between + seq![':'] + padded_text(m[0].value) + written_members(m, 1));
    assert(written_members(m, 0) =~= x.before + member_text(x) + written_members(m, 1));
    if rest.len() > 0 {
        assert(m[1] == rest[0]);
        lemma_members_shift(x, rest, 1);
        assert(written_members(m, 1) == comma(1) + m[1].before + seq!['"'] + glyphs_text(m[1].key)
            + m[1].between + seq![':'] + padded_text(m[1].value) + written_members(m, 2));
        assert(written_members(rest, 0) == comma(0) + rest[0].before + seq!['"'] + glyphs_text(
            rest[0].key,
        ) + rest[0].between + seq![':'] + padded_text(rest[0].value) + written_members(rest, 1));
        assert(written_members(m, 1) =~= seq![','] + written_members(rest, 0));
    }
}

/// What was read as a value was written as one, with whitespace around it.
proof fn lemma_value_was(input: Input, at: At) -> (p: Padded)
    requires
        value(input, at) is Ok,
        at.cur <= input.bytes.len(),
        at.pending is None,
    ensures
        item_fits(p, at.depth),
        ({
            let (v, b) = value(input, at)->Ok_0;
            &&& at.cur < b.cur
            &&& b == moved(at, (b.cur - at.cur) as nat)
            &&& v == meaning(p.it)
            &&& spells(input, at.cur, b.cur, padded_text(p))
        }),
    decreases room(at), input.bytes.len() - at.cur, 0int,
{
    let inside = At { depth: at.depth + 1, ..at };
    let before = lemma_skipped(input, inside);
    let a1 = spaces(input, inside);
    lemma_spaces_at(input, inside);
    let (v, a2) = bare_value(input, a1)->Ok_0;
    let it = lemma_bare_was(input, a1);
    let after = lemma_skipped(input, a2);
    lemma_spaces_at(input, a2);
    let a3 = spaces(input, a2);
    lemma_spells_both(input, at.cur, a1.cur, a2.cur, before, bare_text(it));
    lemma_spells_both(input, at.cur, a2.cur, a3.cur, before + bare_text(it), after);
    Padded { before, it, after }
}

/// `true` or `false` was read.
proof fn lemma_bool_was(input: Input, at: At)
    requires
        boolean(input, at) is Ok,
        at.cur < input.bytes.len(),
        input.bytes[at.cur as int] == 0x74 || input.bytes[at.cur as int] == 0x66,
    ensures
        ({
            let (v, b) = boolean(input, at)->Ok_0;
            &&& at.cur < b.cur
            &&& b == moved(at, (b.cur - at.cur) as nat)
            &&& v == (input.bytes[at.cur as int] == 0x74)
            &&& spells(input, at.cur, b.cur, bare_text(Written::Bool(v)))
        }),
{
    let a = at.cur;
    let a1 = moved(at, 1);
    let truth = input.bytes[a as int] == 0x74;
    let w = if truth {
        seq![0x72u8, 0x75, 0x65]
    } else {
        seq![0x61u8, 0x6c, 0x73, 0x65]
    };
    lemma_word_was(input, a1, w, 0, " scanning boolean value, got "@);
    let t = bare_text(Written::Bool(truth));
    assert(is_ascii_chars(t));
    assert forall|i: int| #![trigger t[i]] 0 <= i < t.len() implies input.bytes[a + i]
        == t[i] as u8 by {
        if i > 0 {
            assert(input.bytes[a1.cur + ((i - 1) - 0)] == w[i - 1]);
        }
    }
    lemma_spells_ascii(input, a, t);
}

/// `null` was read.
proof fn lemma_null_was(input: Input, at: At)
    requires
        null(input, at) is Ok,
        at.cur <= input.bytes.len(),
    ensures
        ({
            let b = null(input, at)->Ok_0.1;
            &&& at.cur < b.cur
            &&& b == moved(at, (b.cur - at.cur) as nat)
            &&& spells(input, at.cur, b.cur, bare_text(Written::Null))
        }),
{
    let w = seq![0x6eu8, 0x75, 0x6c, 0x6c];
    lemma_word_was(input, at, w, 0, " scanning for null, got "@);
    let t = bare_text(Written::Null);
    assert(is_ascii_chars(t));
    assert forall|i: int| #![trigger t[i]] 0 <= i < t.len() implies input.bytes[at.cur + i]
        == t[i] as u8 by {
        assert(input.bytes[at.cur + (i - 0)] == w[i]);
    }
    lemma_spells_ascii(input, at.cur, t);
}

/// What was read as a value was written as one.
#[verifier::rlimit(60)]
proof fn lemma_bare_was(input: Input, at: At) -> (w: Written)
    requires
        bare_value(input, at) is Ok,
        at.cur <= input.bytes.len(),
        at.pending is None,
        1 <= at.depth <= 256,
    ensures
        correct(w, (at.depth - 1) as nat),
        ({
            let (v, b) = bare_value(input, at)->Ok_0;
            &&& at.cur < b.cur
            &&& b == moved(at, (b.cur - at.cur) as nat)
            &&& v == meaning(w)
            &&& spells(input, at.cur, b.cur, bare_text(w))
        }),
    decreases room(at), input.bytes.len() - at.cur, 3int,
{
    let a = at.cur;
    let b = input.bytes[a as int];
    let a1 = moved(at, 1);
    let (v, end) = bare_value(input, at)->Ok_0;
    if b == 0x22 {
        let s = lemma_string_was(input, a1, seq![]);
        lemma_spells_one(input, a, '"');
        lemma_spells_both(input, a, a + 1, end.cur, seq!['"'], glyphs_text(s));
        assert(Seq::<char>::empty() + glyphs_chars(s) =~= glyphs_chars(s));
        Written::String(s)
    } else if b == 0x7b {
        lemma_object_was(input, at)
    } else if b == 0x5b {
        lemma_array_was(input, at)
    } else if b == 0x74 || b == 0x66 {
        lemma_bool_was(input, at);
        Written::Bool(b == 0x74)
    } else if b == 0x6e {
        lemma_null_was(input, at);
        Written::Null
    } else {
        let n = lemma_number_was(input, at);
        crate::json::grammar::lemma_number_at(input, at);
        Written::Number(n)
    }
}

/// What was read as a list was written as one.
proof fn lemma_array_was(input: Input, at: At) -> (w: Written)
    requires
        array(input, at) is Ok,
        at.cur < input.bytes.len(),
        input.bytes[at.cur as int] == 0x5b,
        at.pending is None,
        1 <= at.depth <= 256,
    ensures
        correct(w, (at.depth - 1) as nat),
        ({
            let (v, b) = array(input, at)->Ok_0;
            &&& at.cur < b.cur
            &&& b == moved(at, (b.cur - at.cur) as nat)
            &&& Json::Array(v) == meaning(w)
            &&& spells(input, at.cur, b.cur, bare_text(w))
        }),
    decreases room(at), input.bytes.len() - at.cur, 2int,
{
    let a = at.cur;
    let a1 = moved(at, 1);
    let before = lemma_skipped(input, a1);
    lemma_spaces_at(input, a1);
    let a2 = spaces(input, a1);
    let (v, end) = array(input, at)->Ok_0;
    lemma_spells_one(input, a, '[');
    if peek(input, a2) == Some(0x5du8) {
        let none: Seq<Padded> = seq![];
        let w = Written::Array(before, none);
        lemma_spells_both(input, a, a + 1, a2.cur, seq!['['], before);
        lemma_spells_one(input, a2.cur, ']');
        lemma_spells_both(input, a, a2.cur, end.cur, seq!['['] + before, seq![']']);
        assert(bare_text(w) =~= seq!['['] + before + seq![']']);
        assert(items_meaning(none) =~= seq![]);
        w
    } else {
        let ps = lemma_items_were(input, a2, seq![], a1.cur, before);
        let w = Written::Array(seq![], ps);
        lemma_spells_both(input, a, a + 1, end.cur, seq!['['], written_items(ps, 0));
        assert(bare_text(w) =~= seq!['['] + written_items(ps, 0));
        assert(Seq::<Json>::empty() + items_meaning(ps) =~= items_meaning(ps));
        assert forall|i: int| 0 <= i < ps.len() implies {
            &&& is_blank((#[trigger] ps[i]).before)
            &&& is_blank(ps[i].after)
            &&& correct(ps[i].it, at.depth)
        } by {
            assert(item_fits(ps[i], at.depth));
        }
        w
    }
}

/// What was read as items was written as such. The whitespace in front of the first one was
/// skipped before.
#[verifier::rlimit(40)]
proof fn lemma_items_were(input: Input, at: At, a: Seq<Json>, start: nat, before: Seq<char>) -> (ps: Seq<Padded>)
    requires
        items(input, at, a) is Ok,
        at.cur <= input.bytes.len(),
        at.pending is None,
        is_blank(before),
        spells(input, start, at.cur, before),
    ensures
        ps.len() > 0,
        forall|i: int| 0 <= i < ps.len() ==> item_fits(#[trigger] ps[i], at.depth),
        ({
            let (v, b) = items(input, at, a)->Ok_0;
            &&& at.cur < b.cur
            &&& b == moved(at, (b.cur - at.cur) as nat)
            &&& v == a + items_meaning(ps)
            &&& spells(input, start, b.cur, written_items(ps, 0))
        }),
    decreases room(at), input.bytes.len() - at.cur, 1int,
{
    let p0 = lemma_value_was(input, at);
    let (v, a1) = value(input, at)->Ok_0;
    let p = Padded { before: before + p0.before, it: p0.it, after: p0.after };
    lemma_blank_both(before, p0.before);
    lemma_spells_both(input, start, at.cur, a1.cur, before, padded_text(p0));
    assert(padded_text(p) =~= before + padded_text(p0));
    let c = input.bytes[a1.cur as int];
    let a2 = moved(a1, 1);
    let (r, end) = items(input, at, a)->Ok_0;
    if c == 0x5d {
        lemma_spells_one(input, a1.cur, ']');
        lemma_spells_both(input, start, a1.cur, a2.cur, padded_text(p), seq![']']);
        let rest: Seq<Padded> = seq![];
        lemma_items_front(p, rest);
        assert(items_meaning(rest) =~= seq![]);
        assert(a.push(v) =~= a + (seq![meaning(p.it)] + items_meaning(rest)));
        seq![p] + rest
    } else {
        lemma_spells_none(input, a2.cur);
        let rest = lemma_items_were(input, a2, a.push(v), a2.cur, seq![]);
        lemma_items_front(p, rest);
        lemma_spells_one(input, a1.cur, ',');
        lemma_spells_both(input, a1.cur, a2.cur, end.cur, seq![','], written_items(rest, 0));
        lemma_spells_both(
            input,
            start,
            a1.cur,
            end.cur,
            padded_text(p),
            seq![','] + written_items(rest, 0),
        );
        assert(a.push(v) + items_meaning(rest) =~= a + (seq![meaning(p.it)] + items_meaning(rest)));
        let ps = seq![p] + rest;
        assert forall|i: int| 0 <= i < ps.len() implies item_fits(#[trigger] ps[i], at.depth) by {
            if i > 0 {
                assert(ps[i] == rest[i - 1]);
            }
        }
        ps
    }
}

/// What was read as an object was written as one.
proof fn lemma_object_was(input: Input, at: At) -> (w: Written)
    requires
        object(input, at) is Ok,
        at.cur < input.bytes.len(),
        input.bytes[at.cur as int] == 0x7b,
        at.pending is None,
        1 <= at.depth <= 256,
    ensures
        correct(w, (at.depth - 1) as nat),
        ({
            let (v, b) = object(input, at)->Ok_0;
            &&& at.cur < b.cur
            &&& b == moved(at, (b.cur - at.cur) as nat)
            &&& Json::Object(v) == meaning(w)
            &&& spells(input, at.cur, b.cur, bare_text(w))
        }),
    decreases room(at), input.bytes.len() - at.cur, 2int,
{
    let a = at.cur;
    let a1 = moved(at, 1);
    let before = lemma_skipped(input, a1);
    lemma_spaces_at(input, a1);
    let a2 = spaces(input, a1);
    let (v, end) = object(input, at)->Ok_0;
    lemma_spells_one(input, a, '{');
    if peek(input, a2) == Some(0x7du8) {
        let none: Seq<Member> = seq![];
        let w = Written::Object(before, none);
        lemma_spells_both(input, a, a + 1, a2.cur, seq!['{'], before);
        lemma_spells_one(input, a2.cur, '}');
        lemma_spells_both(input, a, a2.cur, end.cur, seq!['{'] + before, seq!['}']);
        assert(bare_text(w) =~= seq!['{'] + before + seq!['}']);
        w
    } else {
        let m = lemma_members_were(input, a2, seq![], a1.cur, before);
        let w = Written::Object(seq![], m);
        lemma_spells_both(input, a, a + 1, end.cur, seq!['{'], written_members(m, 0));
        assert(bare_text(w) =~= seq!['{'] + written_members(m, 0));
        lemma_onto_none(m, m.len());
        assert forall|i: int| 0 <= i < m.len() implies {
            &&& is_blank((#[trigger] m[i]).before)
            &&& glyphs_fit(m[i].key)
            &&& is_blank(m[i].between)
            &&& is_blank(m[i].value.before)
            &&& is_blank(m[i].value.after)
            &&& correct(m[i].value.it, at.depth)
        } by {
            assert(member_fits(m[i], at.depth));
        }
        w
    }
}

/// What was read as members was written as such. The whitespace in front of the first one was
/// skipped before.
#[verifier::rlimit(60)]
proof fn lemma_members_were(
    input: Input,
    at: At,
    e: Seq<(Seq<char>, Json)>,
    start: nat,
    before: Seq<char>,
) -> (ms: Seq<Member>)
    requires
        members(input, at, e) is Ok,
        at.cur <= input.bytes.len(),
        at.pending is None,
        is_blank(before),
        spells(input, start, at.cur, before),
    ensures
        ms.len() > 0,
        forall|i: int| 0 <= i < ms.len() ==> member_fits(#[trigger] ms[i], at.depth),
        ({
            let (v, b) = members(input, at, e)->Ok_0;
            &&& at.cur < b.cur
            &&& b == moved(at, (b.cur - at.cur) as nat)
            &&& v == onto(e, ms, ms.len())
            &&& spells(input, start, b.cur, written_members(ms, 0))
        }),
    decreases room(at), input.bytes.len() - at.cur, 1int,
{
    let a = at.cur;
    let (k, a1) = string(input, at)->Ok_0;
    let key = lemma_string_was(input, moved(at, 1), seq![]);
    assert(Seq::<char>::empty() + glyphs_chars(key) =~= glyphs_chars(key));
    lemma_spells_one(input, a, '"');
    lemma_spells_both(input, a, a + 1, a1.cur, seq!['"'], glyphs_text(key));
    let between = lemma_skipped(input, a1);
    lemma_spaces_at(input, a1);
    let a2 = spaces(input, a1);
    lemma_spells_one(input, a2.cur, ':');
    let a3 = moved(a2, 1);
    let value = lemma_value_was(input, a3);
    let (v, a4) = crate::json::grammar::value(input, a3)->Ok_0;
    let x = Member { before, key, between, value };
    let t1 = seq!['"'] + glyphs_text(key);
    lemma_spells_both(input, a, a1.cur, a2.cur, t1, between);
    lemma_spells_both(input, a, a2.cur, a3.cur, t1 + between, seq![':']);
    lemma_spells_both(input, a, a3.cur, a4.cur, t1 + between + seq![':'], padded_text(value));
    assert(member_text(x) =~= t1 + between + seq![':'] + padded_text(value));
    lemma_spells_both(input, start, a, a4.cur, before, member_text(x));
    let one = before + member_text(x);
    let c = input.bytes[a4.cur as int];
    let a5 = moved(a4, 1);
    let (r, end) = members(input, at, e)->Ok_0;
    if c == 0x7d {
        lemma_spells_one(input, a4.cur, '}');
        lemma_spells_both(input, start, a4.cur, a5.cur, one, seq!['}']);
        let rest: Seq<Member> = seq![];
        lemma_members_front(x, rest);
        lemma_onto_front(e, x, rest, 0);
        seq![x] + rest
    } else {
        let gap = lemma_skipped(input, a5);
        lemma_spaces_at(input, a5);
        let a6 = spaces(input, a5);
        let rest = lemma_members_were(input, a6, put(e, k, v), a5.cur, gap);
        lemma_members_front(x, rest);
        lemma_onto_front(e, x, rest, rest.len());
        lemma_spells_one(input, a4.cur, ',');
        lemma_spells_both(input, a4.cur, a5.cur, end.cur, seq![','], written_members(rest, 0));
        lemma_spells_both(
            input,
            start,
            a4.cur,
            end.cur,
            one,
            seq![','] + written_members(rest, 0),
        );
        let ms = seq![x] + rest;
        assert forall|i: int| 0 <= i < ms.len() implies member_fits(#[trigger] ms[i], at.depth) by {
            if i > 0 {
                assert(ms[i] == rest[i - 1]);
            }
        }
        ms
    }
}

/// The document `p` is JSON, and is written with just these bytes.
pub open spec fn is_written(p: Padded, bytes: Seq<u8>) -> bool {
    item_fits(p, 0) && encode_utf8(padded_text(p)) == bytes
}

/// What is read is JSON, and means what was read.
pub proof fn what_is_read_was_written(bytes: Seq<u8>)
    requires
        parsed(bytes) is Ok,
    ensures
        exists|p: Padded| #[trigger] is_written(p, bytes) && meaning(p.it) == parsed(bytes)->Ok_0,
{
    let input = Input { bytes, failure: None };
    let at = At { cur: 0, pos: 0, depth: 0, pending: None };
    let p = lemma_value_was(input, at);
    let (v, b) = value(input, at)->Ok_0;
    assert(b.cur == bytes.len());
    assert(bytes.subrange(0, bytes.len() as int) =~= bytes);
    assert(is_written(p, bytes));
}

/// A document is read exactly if it is JSON, nested at most 256 values deep; and it is read as
/// what it says.
pub proof fn just_json_is_read(bytes: Seq<u8>, j: Json)
    ensures
        parsed(bytes) == Ok::<Json, (Fault, nat)>(j) <==> exists|p: Padded| #[trigger]
            is_written(p, bytes) && meaning(p.it) == j,
{
    if parsed(bytes) is Ok {
        what_is_read_was_written(bytes);
    }
    if exists|p: Padded| #[trigger] is_written(p, bytes) && meaning(p.it) == j {
        let p = choose|p: Padded| #[trigger] is_written(p, bytes) && meaning(p.it) == j;
        documents_are_read_however_written(p);
    }
}

} // verus!
