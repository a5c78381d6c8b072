//! Every way in which a JSON document can be written is read as what it says.
use crate::assoc::put;
use crate::json::error::Fault;
use crate::json::grammar::{
    array, bare_value, hex, hex_digit, is_space, items, members, object, onward, partner, piece, spaces,
    string_rest, value, At, Input, Piece,
};
use crate::json::parser::parsed;
use crate::json::roundtrip::{
    is_number, lemma_ascii, lemma_ascii_one, lemma_bool_reads, lemma_null_reads, lemma_number_ascii,
    lemma_number_reads, lemma_raw_piece, lemma_stands_split, moved, number_stops, ok_at, part, size, stands,
    with_small_e,
};
use crate::json::value::Json;
use vstd::prelude::*;
use vstd::utf8::{encode_utf8, is_ascii_chars};

verus! {

/// One character of a string, as it can be written.
pub enum Glyph {
    /// The character itself.
    Plain(char),
    /// A backslash and a letter.
    Short(char),
    /// `\u` and four hexadecimal digits.
    Code(char, char, char, char),
    /// `\u` and four hexadecimal digits, twice: a surrogate pair.
    Pair((char, char, char, char), (char, char, char, char)),
}

/// A document, as it can be written.
pub enum Written {
    Null,
    Bool(bool),
    Number(Seq<char>),
    String(Seq<Glyph>),
    /// What stands between brackets if nothing else does, and the items.
    Array(Seq<char>, Seq<Padded>),
    /// What stands between braces if nothing else does, and the members.
    Object(Seq<char>, Seq<Member>),
}

/// Something with whitespace around it.
pub struct Padded {
    pub before: Seq<char>,
    pub it: Written,
    pub after: Seq<char>,
}

/// A member of an object, with whitespace around its key.
pub struct Member {
    pub before: Seq<char>,
    pub key: Seq<Glyph>,
    pub between: Seq<char>,
    pub value: Padded,
}

/// The value of a hexadecimal digit.
pub open spec fn nibble(c: char) -> int {
    if '0' <= c <= '9' {
        c as int - '0' as int
    } else if 'a' <= c <= 'f' {
        c as int - 'a' as int + 10
    } else {
        c as int - 'A' as int + 10
    }
}

pub open spec fn is_nibble(c: char) -> bool {
    '0' <= c <= '9' || 'a' <= c <= 'f' || 'A' <= c <= 'F'
}

pub open spec fn are_nibbles(q: (char, char, char, char)) -> bool {
    is_nibble(q.0) && is_nibble(q.1) && is_nibble(q.2) && is_nibble(q.3)
}

/// The number that four hexadecimal digits stand for.
pub open spec fn unit(q: (char, char, char, char)) -> int {
    nibble(q.0) * 4096 + nibble(q.1) * 256 + nibble(q.2) * 16 + nibble(q.3)
}

/// This can stand in a string.
pub open spec fn glyph_fits(g: Glyph) -> bool {
    match g {
        Glyph::Plain(c) => c >= ' ' && c != '"' && c != '\\',
        Glyph::Short(c) => c == '"' || c == '\\' || c == '/' || c == 'b' || c == 'f' || c == 'n' || c
            == 'r' || c == 't',
        Glyph::Code(a, b, c, d) => are_nibbles((a, b, c, d)) && !(0xd800 <= unit((a, b, c, d))
            <= 0xdfff),
        Glyph::Pair(h, l) => are_nibbles(h) && are_nibbles(l) && 0xd800 <= unit(h) <= 0xdbff
            && 0xdc00 <= unit(l) <= 0xdfff,
    }
}

/// How it is written.
pub open spec fn glyph_text(g: Glyph) -> Seq<char> {
    match g {
        Glyph::Plain(c) => seq![c],
        Glyph::Short(c) => seq!['\\', c],
        Glyph::Code(a, b, c, d) => seq!['\\', 'u', a, b, c, d],
        Glyph::Pair(h, l) => seq!['\\', 'u', h.0, h.1, h.2, h.3] + seq![
            '\\',
            'u',
            l.0,
            l.1,
            l.2,
            l.3,
        ],
    }
}

/// The character that it stands for.
pub open spec fn glyph_char(g: Glyph) -> char {
    match g {
        Glyph::Plain(c) => c,
        Glyph::Short(c) => if c == 'b' {
            '\u{8}'
        } else if c == 'f' {
            '\u{c}'
        } else if c == 'n' {
            '\n'
        } else if c == 'r' {
            '\r'
        } else if c == 't' {
            '\t'
        } else {
            c
        },
        Glyph::Code(a, b, c, d) => unit((a, b, c, d)) as char,
        Glyph::Pair(h, l) => (0x10000 + (unit(h) - 0xd800) * 0x400 + (unit(l) - 0xdc00)) as char,
    }
}

pub open spec fn glyphs_fit(s: Seq<Glyph>) -> bool {
    forall|i: int| 0 <= i < s.len() ==> glyph_fits(#[trigger] s[i])
}

/// Characters one after the other, and the closing quote.
pub open spec fn glyphs_text(s: Seq<Glyph>) -> Seq<char>
    decreases s.len(),
{
    if s.len() == 0 {
        seq!['"']
    } else {
        glyph_text(s[0]) + glyphs_text(s.drop_first())
    }
}

/// The characters that are meant.
pub open spec fn glyphs_chars(s: Seq<Glyph>) -> Seq<char> {
    s.map_values(|g: Glyph| glyph_char(g))
}

/// Nothing but whitespace.
pub open spec fn is_blank(s: Seq<char>) -> bool {
    forall|i: int|
        0 <= i < s.len() ==> #[trigger] s[i] == ' ' || s[i] == '\n' || s[i] == '\r' || s[i] == '\t'
}

/// A comma, behind another one.
pub open spec fn comma(i: int) -> Seq<char> {
    if i > 0 {
        seq![',']
    } else {
        seq![]
    }
}

/// A document without whitespace around it.
pub open spec fn bare_text(w: Written) -> Seq<char>
    decreases w, 0int,
{
    match w {
        Written::Null => seq!['n', 'u', 'l', 'l'],
        Written::Bool(b) => if b {
            seq!['t', 'r', 'u', 'e']
        } else {
            seq!['f', 'a', 'l', 's', 'e']
        },
        Written::Number(n) => n,
        Written::String(s) => seq!['"'] + glyphs_text(s),
        Written::Array(inside, a) => seq!['['] + (if a.len() == 0 {
            inside
        } else {
            seq![]
        }) + written_items(a, 0),
        Written::Object(inside, m) => seq!['{'] + (if m.len() == 0 {
            inside
        } else {
            seq![]
        }) + written_members(m, 0),
    }
}

/// A document with whitespace around it.
pub open spec fn padded_text(p: Padded) -> Seq<char>
    decreases p, 0int,
{
    p.before + bare_text(p.it) + p.after
}

/// The items from the `i`-th on, and the closing bracket.
pub open spec fn written_items(a: Seq<Padded>, i: int) -> Seq<char>
    decreases a, a.len() - i,
{
    if i < 0 || i >= a.len() {
        seq![']']
    } else {
        comma(i) + padded_text(a[i]) + written_items(a, i + 1)
    }
}

/// The members from the `i`-th on, and the closing brace.
pub open spec fn written_members(m: Seq<Member>, i: int) -> Seq<char>
    decreases m, m.len() - i,
{
    if i < 0 || i >= m.len() {
        seq!['}']
    } else {
        comma(i) + m[i].before + seq!['"'] + glyphs_text(m[i].key) + m[i].between + seq![':']
            + padded_text(m[i].value) + written_members(m, i + 1)
    }
}

/// A document that is JSON, `depth` values deep. Nothing lies deeper than 256 values.
pub open spec fn correct(w: Written, depth: nat) -> bool
    decreases w,
{
    &&& depth < 256
    &&& match w {
        Written::Number(n) => is_number(n),
        Written::String(s) => glyphs_fit(s),
        Written::Array(inside, a) => {
            &&& is_blank(inside)
            &&& forall|i: int|
                0 <= i < a.len() ==> {
                    &&& is_blank((#[trigger] a[i]).before)
                    &&& is_blank(a[i].after)
                    &&& correct(a[i].it, depth + 1)
                }
        },
        Written::Object(inside, m) => {
            &&& is_blank(inside)
            &&& forall|i: int|
                0 <= i < m.len() ==> {
                    &&& is_blank((#[trigger] m[i]).before)
                    &&& glyphs_fit(m[i].key)
                    &&& is_blank(m[i].between)
                    &&& is_blank(m[i].value.before)
                    &&& is_blank(m[i].value.after)
                    &&& correct(m[i].value.it, depth + 1)
                }
        },
        _ => true,
    }
}

/// What a document says. The letter of an exponent does not matter.
pub open spec fn meaning(w: Written) -> Json
    decreases w, 0int,
{
    match w {
        Written::Null => Json::Null,
        Written::Bool(b) => Json::Bool(b),
        Written::Number(n) => Json::Number(with_small_e(n)),
        Written::String(s) => Json::String(glyphs_chars(s)),
        Written::Array(_, a) => Json::Array(items_meaning(a)),
        Written::Object(_, m) => Json::Object(members_meaning(m, m.len())),
    }
}

pub open spec fn items_meaning(a: Seq<Padded>) -> Seq<Json>
    decreases a, 0nat,
{
    Seq::new(
        a.len(),
        |i: int|
            if 0 <= i < a.len() {
                meaning(a[i].it)
            } else {
                Json::Null
            },
    )
}

/// What the first `n` members say: of a key that comes twice, the last value counts.
pub open spec fn members_meaning(m: Seq<Member>, n: nat) -> Seq<(Seq<char>, Json)>
    decreases m, n,
{
    if n == 0 || n > m.len() {
        seq![]
    } else {
        put(
            members_meaning(m, (n - 1) as nat),
            glyphs_chars(m[n - 1].key),
            meaning(m[n - 1].value.it),
        )
    }
}

/// Whitespace is skipped, up to what is none.
proof fn lemma_blank_skipped(input: Input, at: At, s: Seq<char>)
    requires
        stands(input, at.cur, s),
        is_blank(s),
        at.cur + size(s) >= input.bytes.len() || !is_space(input.bytes[(at.cur + size(s)) as int]),
    ensures
        size(s) == s.len(),
        spaces(input, at) == moved(at, s.len()),
    decreases s.len(),
{
    assert(is_ascii_chars(s)) by {
        assert forall|i: int| 0 <= i < s.len() implies '\0' <= #[trigger] s[i] <= '\u{7f}' by {}
    }
    lemma_ascii(input, at.cur, s);
    if s.len() > 0 {
        let t = s.drop_first();
        assert(s =~= seq![s[0]] + t);
        lemma_stands_split(input, at.cur, seq![s[0]], t);
        lemma_ascii_one(input, at.cur, s[0]);
        assert forall|i: int| 0 <= i < t.len() implies #[trigger] t[i] == ' ' || t[i] == '\n' || t[i]
            == '\r' || t[i] == '\t' by {
            assert(t[i] == s[i + 1]);
        }
        lemma_blank_skipped(input, moved(at, 1), t);
    }
}

proof fn lemma_nibble(c: char)
    requires
        is_nibble(c),
    ensures
        hex_digit(c as u8) == Some(nibble(c)),
        c <= '\u{7f}',
        0 <= nibble(c) < 16,
{
}

/// Four hexadecimal digits are read as the number that they stand for.
proof fn lemma_unit_read(input: Input, at: At, q: (char, char, char, char))
    requires
        are_nibbles(q),
        at.cur + 4 <= input.bytes.len(),
        input.bytes[at.cur as int] == q.0 as u8,
        input.bytes[at.cur + 1int] == q.1 as u8,
        input.bytes[at.cur + 2int] == q.2 as u8,
        input.bytes[at.cur + 3int] == q.3 as u8,
    ensures
        hex(input, at, 4, 0) == ok_at(unit(q), moved(at, 4)),
        0 <= unit(q) <= 0xffff,
{
    lemma_nibble(q.0);
    lemma_nibble(q.1);
    lemma_nibble(q.2);
    lemma_nibble(q.3);
    reveal_with_fuel(hex, 5);
}

/// A character that is written alone is read as what it stands for.
proof fn lemma_glyph_piece(input: Input, at: At, g: Glyph)
    requires
        stands(input, at.cur, glyph_text(g)),
        glyph_fits(g),
        at.pending is None,
        !(g is Pair),
    ensures
        piece(input, at) == ok_at(
            Piece { adds: seq![glyph_char(g)], ends: false },
            moved(at, size(glyph_text(g))),
        ),
{
    let t = glyph_text(g);
    match g {
        Glyph::Plain(c) => {
            lemma_raw_piece(input, at, c);
        },
        Glyph::Short(c) => {
            assert(is_ascii_chars(t));
            lemma_ascii(input, at.cur, t);
            assert(t[0] == '\\' && t[1] == c);
            assert(input.bytes[at.cur + 0int] == 0x5c);
            assert(input.bytes[at.cur + 1int] == c as u8);
        },
        Glyph::Code(a, b, c, d) => {
            lemma_nibble(a);
            lemma_nibble(b);
            lemma_nibble(c);
            lemma_nibble(d);
            assert(is_ascii_chars(t));
            lemma_ascii(input, at.cur, t);
            assert(t[0] == '\\' && t[1] == 'u' && t[2] == a && t[3] == b && t[4] == c && t[5] == d);
            assert(input.bytes[at.cur + 0int] == 0x5c);
            assert(input.bytes[at.cur + 1int] == 0x75);
            lemma_unit_read(input, moved(at, 2), (a, b, c, d));
        },
        Glyph::Pair(_, _) => {},
    }
}

/// A surrogate pair is read as its character, and reading goes on behind it.
proof fn lemma_pair_read(input: Input, at: At, h: (char, char, char, char), l: (char, char, char, char), got: Seq<char>)
    requires
        stands(input, at.cur, glyph_text(Glyph::Pair(h, l))),
        glyph_fits(Glyph::Pair(h, l)),
        at.pending is None,
    ensures
        size(glyph_text(Glyph::Pair(h, l))) == 12,
        string_rest(input, at, got) == string_rest(
            input,
            moved(at, 12),
            got + seq![glyph_char(Glyph::Pair(h, l))],
        ),
{
    let t = glyph_text(Glyph::Pair(h, l));
    lemma_nibble(h.0);
    lemma_nibble(h.1);
    lemma_nibble(h.2);
    lemma_nibble(h.3);
    lemma_nibble(l.0);
    lemma_nibble(l.1);
    lemma_nibble(l.2);
    lemma_nibble(l.3);
    assert(is_ascii_chars(t));
    lemma_ascii(input, at.cur, t);
    assert(t[0] == '\\' && t[1] == 'u' && t[2] == h.0 && t[3] == h.1 && t[4] == h.2 && t[5] == h.3);
    assert(t[6] == '\\' && t[7] == 'u' && t[8] == l.0 && t[9] == l.1 && t[10] == l.2 && t[11] == l.3);
    assert(input.bytes[at.cur + 0int] == 0x5c);
    assert(input.bytes[at.cur + 1int] == 0x75);
    lemma_unit_read(input, moved(at, 2), h);
    let waiting = At { pending: Some(unit(h) as u16), ..moved(at, 6) };
    assert(piece(input, at) == ok_at(Piece { adds: seq![], ends: false }, waiting));
    assert(got + seq![] =~= got);
    assert(string_rest(input, at, got) == string_rest(input, waiting, got));
    assert(input.bytes[at.cur + 6int] == 0x5c);
    assert(input.bytes[at.cur + 7int] == 0x75);
    lemma_unit_read(input, moved(waiting, 2), l);
    let c = glyph_char(Glyph::Pair(h, l));
    let behind = moved(at, 12);
    assert(partner(input, waiting, unit(h) as u16) == ok_at(c, behind));
    match piece(input, behind) {
        Ok((p, _)) => {
            assert(got + (seq![c] + p.adds) =~= (got + seq![c]) + p.adds);
        },
        Err(_) => {},
    }
}

/// A string is read to its closing quote.
proof fn lemma_glyphs_read(input: Input, at: At, s: Seq<Glyph>, got: Seq<char>)
    requires
        stands(input, at.cur, glyphs_text(s)),
        glyphs_fit(s),
        at.pending is None,
    ensures
        string_rest(input, at, got) == ok_at(
            got + glyphs_chars(s),
            moved(at, size(glyphs_text(s))),
        ),
    decreases s.len(),
{
    if s.len() == 0 {
        lemma_ascii_one(input, at.cur, '"');
        assert(got + seq![] =~= got + glyphs_chars(s));
    } else {
        let g = s[0];
        let rest = s.drop_first();
        lemma_stands_split(input, at.cur, glyph_text(g), glyphs_text(rest));
        assert forall|i: int| 0 <= i < rest.len() implies glyph_fits(#[trigger] rest[i]) by {
            assert(rest[i] == s[i + 1]);
        }
        let more = got + seq![glyph_char(g)];
        lemma_glyphs_read(input, moved(at, size(glyph_text(g))), rest, more);
        assert(more + glyphs_chars(rest) =~= got + glyphs_chars(s));
        match g {
            Glyph::Pair(h, l) => {
                lemma_pair_read(input, at, h, l, got);
            },
            _ => {
                lemma_glyph_piece(input, at, g);
            },
        }
    }
}

/// What a document begins with.
pub open spec fn first_byte(w: Written) -> u8 {
    match w {
        Written::Null => 0x6eu8,
        Written::Bool(b) => if b {
            0x74u8
        } else {
            0x66u8
        },
        Written::Number(n) => n[0] as u8,
        Written::String(_) => 0x22u8,
        Written::Array(_, _) => 0x5bu8,
        Written::Object(_, _) => 0x7bu8,
    }
}

proof fn lemma_begins(input: Input, cur: nat, w: Written, depth: nat)
    requires
        correct(w, depth),
        stands(input, cur, bare_text(w)),
    ensures
        size(bare_text(w)) > 0,
        cur < input.bytes.len(),
        input.bytes[cur as int] == first_byte(w),
        !is_space(first_byte(w)),
        first_byte(w) != 0x5d,
        w matches Written::Number(n) ==> first_byte(w) == 0x2d || 0x30 <= first_byte(w) <= 0x39,
{
    if let Written::Number(n) = w {
        lemma_number_ascii(n);
    }
    let t = bare_text(w);
    assert(t.len() > 0 && t[0] <= '\u{7f}' && t[0] as u8 == first_byte(w));
    assert(t =~= seq![t[0]] + t.drop_first());
    lemma_stands_split(input, cur, seq![t[0]], t.drop_first());
    lemma_ascii_one(input, cur, t[0]);
}

/// What may follow a value and the whitespace behind it: another one, or an end.
pub open spec fn is_end(input: Input, cur: nat) -> bool {
    cur >= input.bytes.len() || input.bytes[cur as int] == 0x2c || input.bytes[cur as int] == 0x7d
        || input.bytes[cur as int] == 0x5d
}

/// Behind a value no number goes on.
proof fn lemma_behind(input: Input, cur: nat, after: Seq<char>)
    requires
        stands(input, cur, after),
        is_blank(after),
        is_end(input, cur + size(after)),
    ensures
        number_stops(input, cur),
{
    if after.len() > 0 {
        assert(after =~= seq![after[0]] + after.drop_first());
        lemma_stands_split(input, cur, seq![after[0]], after.drop_first());
        lemma_ascii_one(input, cur, after[0]);
    } else {
        assert(after =~= seq![]);
        assert(size(after) == 0);
    }
}

proof fn lemma_correct_item(inside: Seq<char>, a: Seq<Padded>, i: int, depth: nat)
    requires
        correct(Written::Array(inside, a), depth),
        0 <= i < a.len(),
    ensures
        is_blank(a[i].before),
        is_blank(a[i].after),
        correct(a[i].it, depth + 1),
{
    let w = Written::Array(inside, a);
    assert(w->Array_1 == a);
    assert(forall|k: int|
        0 <= k < a.len() ==> {
            &&& is_blank((#[trigger] a[k]).before)
            &&& is_blank(a[k].after)
            &&& correct(a[k].it, depth + 1)
        });
}

proof fn lemma_correct_member(inside: Seq<char>, m: Seq<Member>, i: int, depth: nat)
    requires
        correct(Written::Object(inside, m), depth),
        0 <= i < m.len(),
    ensures
        is_blank(m[i].before),
        glyphs_fit(m[i].key),
        is_blank(m[i].between),
        is_blank(m[i].value.before),
        is_blank(m[i].value.after),
        correct(m[i].value.it, depth + 1),
{
    let w = Written::Object(inside, m);
    assert(w->Object_1 == m);
    assert(forall|k: int|
        0 <= k < m.len() ==> {
            &&& is_blank((#[trigger] m[k]).before)
            &&& glyphs_fit(m[k].key)
            &&& is_blank(m[k].between)
            &&& is_blank(m[k].value.before)
            &&& is_blank(m[k].value.after)
            &&& correct(m[k].value.it, depth + 1)
        });
}

/// How the rest of a list goes on.
proof fn lemma_items_end(input: Input, cur: nat, a: Seq<Padded>, i: int)
    requires
        stands(input, cur, written_items(a, i)),
        0 < i <= a.len(),
    ensures
        is_end(input, cur),
        cur < input.bytes.len(),
        i < a.len() ==> input.bytes[cur as int] == 0x2c,
        i == a.len() ==> input.bytes[cur as int] == 0x5d && size(written_items(a, i)) == 1,
{
    let t = written_items(a, i);
    if i < a.len() {
        assert(t =~= seq![','] + (padded_text(a[i]) + written_items(a, i + 1)));
        lemma_stands_split(input, cur, seq![','], padded_text(a[i]) + written_items(a, i + 1));
        lemma_ascii_one(input, cur, ',');
    } else {
        lemma_ascii_one(input, cur, ']');
    }
}

proof fn lemma_members_end(input: Input, cur: nat, m: Seq<Member>, i: int)
    requires
        stands(input, cur, written_members(m, i)),
        0 < i <= m.len(),
    ensures
        is_end(input, cur),
        cur < input.bytes.len(),
        i < m.len() ==> input.bytes[cur as int] == 0x2c,
        i == m.len() ==> input.bytes[cur as int] == 0x7d && size(written_members(m, i)) == 1,
{
    let t = written_members(m, i);
    if i < m.len() {
        let rest = m[i].before + seq!['"'] + glyphs_text(m[i].key) + m[i].between + seq![':'] + padded_text(
            m[i].value,
        ) + written_members(m, i + 1);
        assert(t =~= seq![','] + rest);
        lemma_stands_split(input, cur, seq![','], rest);
        lemma_ascii_one(input, cur, ',');
    } else {
        lemma_ascii_one(input, cur, '}');
    }
}

/// A value is read, with the whitespace `before` and `after` it.
proof fn lemma_padded_read(input: Input, at: At, before: Seq<char>, w: Written, after: Seq<char>)
    requires
        correct(w, at.depth),
        is_blank(before),
        is_blank(after),
        stands(input, at.cur, before + bare_text(w) + after),
        at.pending is None,
        is_end(input, at.cur + size(before + bare_text(w) + after)),
    ensures
        value(input, at) == ok_at(meaning(w), moved(at, size(before + bare_text(w) + after))),
        size(before + bare_text(w) + after) > 0,
    decreases w, 1int,
{
    let t = bare_text(w);
    lemma_stands_split(input, at.cur, before + t, after);
    lemma_stands_split(input, at.cur, before, t);
    let inside = At { depth: at.depth + 1, ..at };
    let a1 = moved(inside, size(before));
    lemma_begins(input, a1.cur, w, at.depth);
    lemma_blank_skipped(input, inside, before);
    let a2 = moved(a1, size(t));
    lemma_behind(input, a2.cur, after);
    lemma_bare_read(input, a1, w);
    lemma_blank_skipped(input, a2, after);
}

/// A value is read, without whitespace around it.
#[verifier::rlimit(40)]
proof fn lemma_bare_read(input: Input, at: At, w: Written)
    requires
        at.depth >= 1,
        correct(w, (at.depth - 1) as nat),
        stands(input, at.cur, bare_text(w)),
        at.pending is None,
        number_stops(input, at.cur + size(bare_text(w))),
    ensures
        bare_value(input, at) == ok_at(meaning(w), moved(at, size(bare_text(w)))),
    decreases w, 0int,
{
    let d = (at.depth - 1) as nat;
    lemma_begins(input, at.cur, w, d);
    let t = bare_text(w);
    match w {
        Written::Null => {
            lemma_null_reads(input, at);
        },
        Written::Bool(b) => {
            lemma_bool_reads(input, at, b);
        },
        Written::Number(n) => {
            lemma_number_reads(input, at, n);
        },
        Written::String(s) => {
            lemma_stands_split(input, at.cur, seq!['"'], glyphs_text(s));
            lemma_ascii_one(input, at.cur, '"');
            lemma_glyphs_read(input, moved(at, 1), s, seq![]);
            assert(Seq::<char>::empty() + glyphs_chars(s) =~= glyphs_chars(s));
        },
        Written::Array(inside, a) => {
            lemma_array_of(input, at, inside, a);
        },
        Written::Object(inside, m) => {
            lemma_object_of(input, at, inside, m);
        },
    }
}

/// A list is read.
proof fn lemma_array_of(input: Input, at: At, inside: Seq<char>, a: Seq<Padded>)
    requires
        at.depth >= 1,
        correct(Written::Array(inside, a), (at.depth - 1) as nat),
        stands(input, at.cur, bare_text(Written::Array(inside, a))),
        at.pending is None,
    ensures
        array(input, at) == ok_at(
            items_meaning(a),
            moved(at, size(bare_text(Written::Array(inside, a)))),
        ),
    decreases a, a.len() + 1,
{
    let t = bare_text(Written::Array(inside, a));
    let d = (at.depth - 1) as nat;
    let a1 = moved(at, 1);
    if a.len() == 0 {
        assert(t =~= seq!['['] + (inside + seq![']']));
        lemma_stands_split(input, at.cur, seq!['['], inside + seq![']']);
        lemma_ascii_one(input, at.cur, '[');
        lemma_stands_split(input, a1.cur, inside, seq![']']);
        lemma_ascii_one(input, a1.cur + size(inside), ']');
        lemma_blank_skipped(input, a1, inside);
        assert(items_meaning(a) =~= seq![]);
    } else {
        lemma_correct_item(inside, a, 0, d);
        let before = a[0].before;
        let rest = bare_text(a[0].it) + a[0].after + written_items(a, 1);
        assert(t =~= seq!['['] + (before + rest));
        lemma_stands_split(input, at.cur, seq!['['], before + rest);
        lemma_ascii_one(input, at.cur, '[');
        lemma_stands_split(input, a1.cur, before, rest);
        let a2 = moved(a1, size(before));
        assert(rest =~= bare_text(a[0].it) + (a[0].after + written_items(a, 1)));
        lemma_stands_split(input, a2.cur, bare_text(a[0].it), a[0].after + written_items(a, 1));
        lemma_begins(input, a2.cur, a[0].it, d + 1);
        lemma_blank_skipped(input, a1, before);
        assert(rest =~= seq![] + bare_text(a[0].it) + a[0].after + written_items(a, 1));
        lemma_items_of(input, a2, inside, a, 0, seq![]);
        assert(items_meaning(a).take(0) =~= seq![]);
    }
}

/// The items of a list are read one by one, with the whitespace `before` the first of them.
#[verifier::rlimit(40)]
proof fn lemma_items_of(input: Input, at: At, inside: Seq<char>, a: Seq<Padded>, i: int, before: Seq<char>)
    requires
        0 <= i < a.len(),
        at.depth >= 1,
        correct(Written::Array(inside, a), (at.depth - 1) as nat),
        is_blank(before),
        stands(input, at.cur, before + bare_text(a[i].it) + a[i].after + written_items(a, i + 1)),
        at.pending is None,
    ensures
        items(input, at, items_meaning(a).take(i)) == ok_at(
            items_meaning(a),
            moved(at, size(before + bare_text(a[i].it) + a[i].after + written_items(a, i + 1))),
        ),
    decreases a, a.len() - i,
{
    let d = (at.depth - 1) as nat;
    lemma_correct_item(inside, a, i, d);
    let one = before + bare_text(a[i].it) + a[i].after;
    let rest = written_items(a, i + 1);
    lemma_stands_split(input, at.cur, one, rest);
    let a1 = moved(at, size(one));
    lemma_items_end(input, a1.cur, a, i + 1);
    lemma_padded_read(input, at, before, a[i].it, a[i].after);
    let all = items_meaning(a);
    assert(all.take(i).push(meaning(a[i].it)) =~= all.take(i + 1));
    if i + 1 < a.len() {
        let next_one = a[i + 1].before + bare_text(a[i + 1].it) + a[i + 1].after + written_items(
            a,
            i + 2,
        );
        lemma_correct_item(inside, a, i + 1, d);
        assert(padded_text(a[i + 1]) == a[i + 1].before + bare_text(a[i + 1].it) + a[i + 1].after);
        assert(rest == comma(i + 1) + padded_text(a[i + 1]) + written_items(a, i + 2));
        assert(rest =~= seq![','] + next_one);
        lemma_stands_split(input, a1.cur, seq![','], next_one);
        lemma_ascii_one(input, a1.cur, ',');
        assert(onward(input, at, a1, 1));
        lemma_items_of(input, moved(a1, 1), inside, a, i + 1, a[i + 1].before);
    } else {
        assert(all.take(i + 1) =~= all);
    }
}

/// An object is read.
proof fn lemma_object_of(input: Input, at: At, inside: Seq<char>, m: Seq<Member>)
    requires
        at.depth >= 1,
        correct(Written::Object(inside, m), (at.depth - 1) as nat),
        stands(input, at.cur, bare_text(Written::Object(inside, m))),
        at.pending is None,
    ensures
        object(input, at) == ok_at(
            members_meaning(m, m.len()),
            moved(at, size(bare_text(Written::Object(inside, m)))),
        ),
    decreases m, m.len() + 1,
{
    let t = bare_text(Written::Object(inside, m));
    let d = (at.depth - 1) as nat;
    let a1 = moved(at, 1);
    if m.len() == 0 {
        assert(t =~= seq!['{'] + (inside + seq!['}']));
        lemma_stands_split(input, at.cur, seq!['{'], inside + seq!['}']);
        lemma_ascii_one(input, at.cur, '{');
        lemma_stands_split(input, a1.cur, inside, seq!['}']);
        lemma_ascii_one(input, a1.cur + size(inside), '}');
        lemma_blank_skipped(input, a1, inside);
    } else {
        lemma_correct_member(inside, m, 0, d);
        let before = m[0].before;
        let rest = member_text(m[0]) + written_members(m, 1);
        assert(t =~= seq!['{'] + (before + rest));
        lemma_stands_split(input, at.cur, seq!['{'], before + rest);
        lemma_ascii_one(input, at.cur, '{');
        lemma_stands_split(input, a1.cur, before, rest);
        let a2 = moved(a1, size(before));
        assert(rest =~= seq!['"'] + rest.drop_first());
        lemma_stands_split(input, a2.cur, seq!['"'], rest.drop_first());
        lemma_ascii_one(input, a2.cur, '"');
        lemma_blank_skipped(input, a1, before);
        lemma_members_of(input, a2, inside, m, 0);
    }
}

/// A member, from the opening quote of its key on.
pub open spec fn member_text(m: Member) -> Seq<char> {
    seq!['"'] + glyphs_text(m.key) + m.between + seq![':'] + padded_text(m.value)
}

/// The members of an object are read one by one.
#[verifier::rlimit(60)]
proof fn lemma_members_of(input: Input, at: At, inside: Seq<char>, m: Seq<Member>, i: int)
    requires
        0 <= i < m.len(),
        at.depth >= 1,
        correct(Written::Object(inside, m), (at.depth - 1) as nat),
        stands(input, at.cur, member_text(m[i]) + written_members(m, i + 1)),
        at.pending is None,
    ensures
        members(input, at, members_meaning(m, i as nat)) == ok_at(
            members_meaning(m, m.len()),
            moved(at, size(member_text(m[i]) + written_members(m, i + 1))),
        ),
    decreases m, m.len() - i,
{
    let d = (at.depth - 1) as nat;
    lemma_correct_member(inside, m, i, d);
    let key = m[i].key;
    let v = m[i].value;
    let rest = written_members(m, i + 1);
    let t1 = padded_text(v) + rest;
    let t2 = seq![':'] + t1;
    let t3 = m[i].between + t2;
    let t4 = glyphs_text(key) + t3;
    assert(member_text(m[i]) + rest =~= seq!['"'] + t4);
    lemma_stands_split(input, at.cur, seq!['"'], t4);
    lemma_ascii_one(input, at.cur, '"');
    let a1 = moved(at, 1);
    lemma_stands_split(input, a1.cur, glyphs_text(key), t3);
    lemma_glyphs_read(input, a1, key, seq![]);
    assert(Seq::<char>::empty() + glyphs_chars(key) =~= glyphs_chars(key));
    let a2 = moved(a1, size(glyphs_text(key)));
    lemma_stands_split(input, a2.cur, m[i].between, t2);
    let a3 = moved(a2, size(m[i].between));
    lemma_stands_split(input, a3.cur, seq![':'], t1);
    lemma_ascii_one(input, a3.cur, ':');
    lemma_blank_skipped(input, a2, m[i].between);
    let a4 = moved(a3, 1);
    lemma_stands_split(input, a4.cur, padded_text(v), rest);
    let a5 = moved(a4, size(padded_text(v)));
    lemma_members_end(input, a5.cur, m, i + 1);
    lemma_padded_read(input, a4, v.before, v.it, v.after);
    if i + 1 < m.len() {
        lemma_correct_member(inside, m, i + 1, d);
        let before = m[i + 1].before;
        let next_one = member_text(m[i + 1]) + written_members(m, i + 2);
        assert(rest =~= seq![','] + (before + next_one));
        lemma_stands_split(input, a5.cur, seq![','], before + next_one);
        lemma_ascii_one(input, a5.cur, ',');
        let a6 = moved(a5, 1);
        lemma_stands_split(input, a6.cur, before, next_one);
        let a7 = moved(a6, size(before));
        assert(next_one =~= seq!['"'] + next_one.drop_first());
        lemma_stands_split(input, a7.cur, seq!['"'], next_one.drop_first());
        lemma_ascii_one(input, a7.cur, '"');
        lemma_blank_skipped(input, a6, before);
        assert(onward(input, a4, a5, 1));
        lemma_members_of(input, a7, inside, m, i + 1);
    }
}

/// However a document is written, with whatever whitespace, escapes and keys that come again,
/// it is read as what it says.
pub proof fn documents_are_read_however_written(p: Padded)
    requires
        correct(p.it, 0),
        is_blank(p.before),
        is_blank(p.after),
    ensures
        parsed(encode_utf8(padded_text(p))) == Ok::<Json, (Fault, nat)>(meaning(p.it)),
{
    let bytes = encode_utf8(padded_text(p));
    let input = Input { bytes, failure: None };
    let at = At { cur: 0, pos: 0, depth: 0, pending: None };
    assert(part(input, 0, bytes.len()) =~= bytes);
    lemma_padded_read(input, at, p.before, p.it, p.after);
}

} // verus!
