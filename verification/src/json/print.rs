//! The JSON, non-pretty string representation of a [`Value`].
use crate::decimal::{digit_char, hexadecimal_value};
use crate::json::value::{lemma_array_view, models, Json, Object, Value};
use crate::text::chars_of;
use vstd::prelude::*;
use vstd::string::StringExecFns;

verus! {

/// The control characters of Unicode.
pub open spec fn is_control(c: char) -> bool {
    c <= '\u{1f}' || '\u{7f}' <= c <= '\u{9f}'
}

/// How a character stands in the text of a string.
pub open spec fn escape(c: char) -> Seq<char> {
    if c == '"' {
        seq!['\\', '"']
    } else if c == '\\' {
        seq!['\\', '\\']
    } else if c == '\n' {
        seq!['\\', 'n']
    } else if c == '\t' {
        seq!['\\', 't']
    } else if c == '\r' {
        seq!['\\', 'r']
    } else if c == '\u{8}' {
        seq!['\\', 'b']
    } else if c == '\u{c}' {
        seq!['\\', 'f']
    } else if is_control(c) {
        seq![
            '\\',
            'u',
            '0',
            '0',
            digit_char((c as u32 / 16) as nat),
            digit_char((c as u32 % 16) as nat),
        ]
    } else {
        seq![c]
    }
}

/// The characters of a string, each escaped as needed.
pub open spec fn escaped(s: Seq<char>) -> Seq<char>
    decreases s.len(),
{
    if s.len() == 0 {
        seq![]
    } else {
        escape(s[0]) + escaped(s.drop_first())
    }
}

/// A key as it stands in front of its value.
pub open spec fn key_text(k: Seq<char>) -> Seq<char> {
    seq!['"'] + escaped(k) + seq!['"', ':', ' ']
}

/// The text of the members of an object from the `i`-th on.
pub open spec fn members_text(e: Seq<(Seq<char>, Json)>, i: int) -> Seq<char>
    decreases e, e.len() - i, 0int,
{
    if i < 0 || i >= e.len() {
        seq![]
    } else {
        key_text(e[i].0) + text(e[i].1) + more_members_text(e, i + 1)
    }
}

/// The members of an object from the `i`-th on, behind the one in front of them.
pub open spec fn more_members_text(e: Seq<(Seq<char>, Json)>, i: int) -> Seq<char>
    decreases e, e.len() - i, 1int,
{
    if i < 0 || i >= e.len() {
        seq![]
    } else {
        seq![',', ' '] + members_text(e, i)
    }
}

/// The text of the items of an array from the `i`-th on.
pub open spec fn items_text(a: Seq<Json>, i: int) -> Seq<char>
    decreases a, a.len() - i, 0int,
{
    if i < 0 || i >= a.len() {
        seq![]
    } else {
        text(a[i]) + more_items_text(a, i + 1)
    }
}

/// The items of an array from the `i`-th on, behind the one in front of them.
pub open spec fn more_items_text(a: Seq<Json>, i: int) -> Seq<char>
    decreases a, a.len() - i, 1int,
{
    if i < 0 || i >= a.len() {
        seq![]
    } else {
        seq![',', ' '] + items_text(a, i)
    }
}

/// The text of a JSON value, on one line.
pub open spec fn text(j: Json) -> Seq<char>
    decreases j, 0int, 0int,
{
    match j {
        Json::String(s) => seq!['"'] + escaped(s) + seq!['"'],
        Json::Number(n) => n,
        Json::Object(e) => seq!['{'] + members_text(e, 0) + seq!['}'],
        Json::Array(a) => seq!['['] + items_text(a, 0) + seq![']'],
        Json::Bool(b) => if b {
            seq!['t', 'r', 'u', 'e']
        } else {
            seq!['f', 'a', 'l', 's', 'e']
        },
        Json::Null => seq!['n', 'u', 'l', 'l'],
    }
}

fn write_escaped(out: &mut String, c: char)
    ensures
        final(out)@ == old(out)@ + escape(c),
{
    let ghost before = out@;
    if c == '"' {
        out.push('\\');
        out.push('"');
    } else if c == '\\' {
        out.push('\\');
        out.push('\\');
    } else if c == '\n' {
        // These could legally also fall through to the numbered form below, but they
        // look nicer for common values.
        out.push('\\');
        out.push('n');
    } else if c == '\t' {
        out.push('\\');
        out.push('t');
    } else if c == '\r' {
        out.push('\\');
        out.push('r');
    } else if c == '\u{8}' {
        out.push('\\');
        out.push('b');
    } else if c == '\u{c}' {
        out.push('\\');
        out.push('f');
    } else if c <= '\u{1f}' || ('\u{7f}' <= c && c <= '\u{9f}') {
        out.push('\\');
        out.push('u');
        out.push('0');
        out.push('0');
        let high: u8 = (c as u32 / 16) as u8;
        let low: u8 = (c as u32 % 16) as u8;
        out.push((48 + high) as char);
        let low_digit: u8 = if low < 10 {
            48 + low
        } else {
            97 + (low - 10)
        };
        out.push(low_digit as char);
    } else {
        out.push(c);
    }
    assert(out@ =~= before + escape(c));
}

fn write_string(out: &mut String, s: &str)
    ensures
        final(out)@ == old(out)@ + (seq!['"'] + escaped(s@) + seq!['"']),
{
    let ghost before = out@;
    let cs: Vec<char> = chars_of(s);
    out.push('"');
    let mut i: usize = 0;
    assert(s@.skip(0) =~= s@);
    while i < cs.len()
        invariant
            cs@ == s@,
            i <= cs.len(),
            before + seq!['"'] + escaped(s@) == out@ + escaped(s@.skip(i as int)),
        decreases cs.len() - i,
    {
        let ghost start = out@;
        let ghost rest = s@.skip(i as int);
        write_escaped(out, cs[i]);
        proof {
            assert(rest.drop_first() =~= s@.skip(i + 1));
            assert(start + (escape(rest[0]) + escaped(rest.drop_first())) =~= out@ + escaped(
                rest.drop_first(),
            ));
        }
        i = i + 1;
    }
    assert(out@ + escaped(s@.skip(i as int)) =~= out@);
    out.push('"');
    assert(out@ =~= before + (seq!['"'] + escaped(s@) + seq!['"']));
}

impl Value {
    /// Appends the text of this value.
    pub fn write(&self, out: &mut String)
        ensures
            final(out)@ == old(out)@ + text(self@),
        decreases self,
    {
        let ghost before = out@;
        match self {
            Value::String(s) => {
                write_string(out, s.as_str());
            },
            Value::Number(num) => {
                // Echoing the number verbatim is fine: it was validated when parsed.
                out.append(num.0.as_str());
            },
            Value::Object(obj) => {
                out.push('{');
                let n: usize = obj.len();
                let mut i: usize = 0;
                while i < n
                    invariant
                        n == obj@.len(),
                        i <= n,
                        decreases_to!(*self => *obj),
                        before.push('{') + members_text(obj@, 0) == out@ + (if i == 0 {
                            members_text(obj@, 0)
                        } else {
                            more_members_text(obj@, i as int)
                        }),
                    decreases n - i,
                {
                    let ghost start = out@;
                    if i > 0 {
                        out.push(',');
                        out.push(' ');
                    }
                    write_string(out, obj.key_at(i).as_str());
                    out.push(':');
                    out.push(' ');
                    obj.value_at(i).write(out);
                    proof {
                        let m = key_text(obj@[i as int].0) + text(obj@[i as int].1);
                        let rest = more_members_text(obj@, i + 1);
                        if i > 0 {
                            assert(start + (seq![',', ' '] + (m + rest)) =~= out@ + rest);
                        } else {
                            assert(start + (m + rest) =~= out@ + rest);
                        }
                    }
                    i = i + 1;
                }
                assert(out@ =~= before.push('{') + members_text(obj@, 0));
                out.push('}');
            },
            Value::Array(values) => {
                proof {
                    lemma_array_view(*values);
                }
                out.push('[');
                let ghost a = models(values@);
                let mut i: usize = 0;
                while i < values.len()
                    invariant
                        a == models(values@),
                        i <= values.len(),
                        decreases_to!(*self => *values),
                        before.push('[') + items_text(a, 0) == out@ + (if i == 0 {
                            items_text(a, 0)
                        } else {
                            more_items_text(a, i as int)
                        }),
                    decreases values.len() - i,
                {
                    let ghost start = out@;
                    if i > 0 {
                        out.push(',');
                        out.push(' ');
                    }
                    assert(decreases_to!(*values => values@[i as int]));
                    values[i].write(out);
                    proof {
                        let m = text(a[i as int]);
                        let rest = more_items_text(a, i + 1);
                        if i > 0 {
                            assert(start + (seq![',', ' '] + (m + rest)) =~= out@ + rest);
                        } else {
                            assert(start + (m + rest) =~= out@ + rest);
                        }
                    }
                    i = i + 1;
                }
                assert(out@ =~= before.push('[') + items_text(a, 0));
                out.push(']');
            },
            Value::Bool(b) => {
                if *b {
                    out.push('t');
                    out.push('r');
                    out.push('u');
                    out.push('e');
                } else {
                    out.push('f');
                    out.push('a');
                    out.push('l');
                    out.push('s');
                    out.push('e');
                }
            },
            Value::Null => {
                out.push('n');
                out.push('u');
                out.push('l');
                out.push('l');
            },
        }
        assert(out@ =~= before + text(self@));
    }

    /// The text of this value, on one line.
    pub fn to_string(&self) -> (s: String)
        ensures
            s@ == text(self@),
    {
        let mut s: String = String::new();
        self.write(&mut s);
        assert(s@ =~= text(self@));
        s
    }
}

/// What a character becomes in a string: a quote, a backslash and the usual control characters a
/// backslash and a letter; any other control character its number in four digits; all else itself.
pub proof fn characters_are_escaped_as_needed(c: char)
    ensures
        c == '"' || c == '\\' ==> escape(c) == seq!['\\', c],
        c == '\n' ==> escape(c) == seq!['\\', 'n'],
        c == '\t' ==> escape(c) == seq!['\\', 't'],
        c == '\r' ==> escape(c) == seq!['\\', 'r'],
        c == '\u{8}' ==> escape(c) == seq!['\\', 'b'],
        c == '\u{c}' ==> escape(c) == seq!['\\', 'f'],
        (' ' <= c <= '~' && c != '"' && c != '\\') || c > '\u{9f}' ==> escape(c) == seq![c],
        (c < ' ' && c != '\n' && c != '\t' && c != '\r' && c != '\u{8}' && c != '\u{c}') || '\u{7f}'
            <= c <= '\u{9f}' ==> {
            let t = escape(c);
            &&& t.len() == 6
            &&& t.take(4) == seq!['\\', 'u', '0', '0']
            &&& hexadecimal_value(t.skip(4)) == c as int
        },
{
    if (c < ' ' && c != '\n' && c != '\t' && c != '\r' && c != '\u{8}' && c != '\u{c}') || '\u{7f}'
        <= c <= '\u{9f}' {
        let t = escape(c);
        let (h, l) = ((c as u32 / 16) as nat, (c as u32 % 16) as nat);
        assert(t.take(4) =~= seq!['\\', 'u', '0', '0']);
        assert(t.skip(4) =~= seq![digit_char(h), digit_char(l)]);
        let d = t.skip(4);
        assert(d.drop_last() =~= seq![digit_char(h)]);
        assert(d.drop_last().drop_last() =~= seq![]);
        assert(hexadecimal_value(seq![]) == 0);
        assert(d.drop_last().last() == digit_char(h) && d.last() == digit_char(l));
        assert(hexadecimal_value(d.drop_last()) == h);
        assert(hexadecimal_value(d) == 16 * h + l);
    }
}

/// Strings are printed one character after the other.
pub proof fn strings_are_printed_in_order(s: Seq<char>, t: Seq<char>)
    ensures
        escaped(s + t) == escaped(s) + escaped(t),
        text(Json::String(s)) == seq!['"'] + escaped(s) + seq!['"'],
        s.len() == 1 ==> escaped(s) == escape(s[0]),
    decreases s.len(),
{
    if s.len() == 0 {
        assert(s + t =~= t);
        assert(escaped(s) + escaped(t) =~= escaped(t));
    } else {
        strings_are_printed_in_order(s.drop_first(), t);
        assert((s + t).drop_first() =~= s.drop_first() + t);
        assert(escaped(s + t) =~= escaped(s) + escaped(t));
        if s.len() == 1 {
            assert(s.drop_first() =~= seq![]);
            assert(escaped(s.drop_first()) =~= seq![]);
            assert(escape(s[0]) + seq![] =~= escape(s[0]));
        }
    }
}

/// One more item is printed behind those in front of it, with a comma and a space between them.
pub proof fn items_are_printed_in_order(a: Seq<Json>, x: Json)
    ensures
        text(Json::Array(seq![])) == seq!['[', ']'],
        text(Json::Array(a.push(x))) == text(Json::Array(a)).drop_last() + (if a.len() > 0 {
            seq![',', ' ']
        } else {
            seq![]
        }) + text(x) + seq![']'],
{
    let none: Seq<Json> = seq![];
    assert(items_text(none, 0) =~= seq![]);
    assert(text(Json::Array(none)) =~= seq!['[', ']']);
    lemma_items_push(a, x, 0);
    let front = seq!['['] + items_text(a, 0);
    assert(text(Json::Array(a)) == front + seq![']']);
    assert(text(Json::Array(a)).drop_last() =~= front);
    assert(text(Json::Array(a.push(x))) == seq!['['] + items_text(a.push(x), 0) + seq![']']);
    assert(text(Json::Array(a.push(x))) =~= front + (if a.len() > 0 {
        seq![',', ' ']
    } else {
        seq![]
    }) + text(x) + seq![']']);
}

proof fn lemma_items_push(a: Seq<Json>, x: Json, i: int)
    requires
        0 <= i <= a.len(),
    ensures
        items_text(a.push(x), i) == items_text(a, i) + (if i < a.len() {
            seq![',', ' ']
        } else {
            seq![]
        }) + text(x),
    decreases a.len() - i,
{
    let all = a.push(x);
    assert(items_text(all, i) == text(all[i]) + more_items_text(all, i + 1));
    if i < a.len() {
        assert(all[i] == a[i]);
        lemma_items_push(a, x, i + 1);
        assert(more_items_text(all, i + 1) == seq![',', ' '] + items_text(all, i + 1));
        assert(items_text(a, i) == text(a[i]) + more_items_text(a, i + 1));
        if i + 1 < a.len() {
            assert(more_items_text(a, i + 1) == seq![',', ' '] + items_text(a, i + 1));
        } else {
            assert(more_items_text(a, i + 1) =~= seq![]);
            assert(items_text(a, i + 1) =~= seq![]);
        }
        assert(items_text(all, i) =~= items_text(a, i) + seq![',', ' '] + text(x));
    } else {
        assert(all[i] == x);
        assert(more_items_text(all, i + 1) =~= seq![]);
        assert(items_text(a, i) =~= seq![]);
        assert(items_text(all, i) =~= items_text(a, i) + seq![] + text(x));
    }
}

/// One more member is printed behind those in front of it: its key as a string, a colon, a space,
/// and its value.
pub proof fn members_are_printed_in_order(e: Seq<(Seq<char>, Json)>, k: Seq<char>, v: Json)
    ensures
        text(Json::Object(seq![])) == seq!['{', '}'],
        text(Json::Object(e.push((k, v)))) == text(Json::Object(e)).drop_last() + (if e.len() > 0 {
            seq![',', ' ']
        } else {
            seq![]
        }) + text(Json::String(k)) + seq![':', ' '] + text(v) + seq!['}'],
{
    let none: Seq<(Seq<char>, Json)> = seq![];
    assert(members_text(none, 0) =~= seq![]);
    assert(text(Json::Object(none)) =~= seq!['{', '}']);
    lemma_members_push(e, k, v, 0);
    let front = seq!['{'] + members_text(e, 0);
    let all = e.push((k, v));
    assert(text(Json::Object(e)) == front + seq!['}']);
    assert(text(Json::Object(e)).drop_last() =~= front);
    assert(text(Json::Object(all)) == seq!['{'] + members_text(all, 0) + seq!['}']);
    assert(key_text(k) =~= text(Json::String(k)) + seq![':', ' ']);
    assert(text(Json::Object(all)) =~= front + (if e.len() > 0 {
        seq![',', ' ']
    } else {
        seq![]
    }) + text(Json::String(k)) + seq![':', ' '] + text(v) + seq!['}']);
}

proof fn lemma_members_push(e: Seq<(Seq<char>, Json)>, k: Seq<char>, v: Json, i: int)
    requires
        0 <= i <= e.len(),
    ensures
        members_text(e.push((k, v)), i) == members_text(e, i) + (if i < e.len() {
            seq![',', ' ']
        } else {
            seq![]
        }) + (key_text(k) + text(v)),
    decreases e.len() - i,
{
    let all = e.push((k, v));
    assert(members_text(all, i) == key_text(all[i].0) + text(all[i].1) + more_members_text(all, i + 1));
    if i < e.len() {
        assert(all[i] == e[i]);
        lemma_members_push(e, k, v, i + 1);
        assert(more_members_text(all, i + 1) == seq![',', ' '] + members_text(all, i + 1));
        assert(members_text(e, i) == key_text(e[i].0) + text(e[i].1) + more_members_text(e, i + 1));
        if i + 1 < e.len() {
            assert(more_members_text(e, i + 1) == seq![',', ' '] + members_text(e, i + 1));
        } else {
            assert(more_members_text(e, i + 1) =~= seq![]);
            assert(members_text(e, i + 1) =~= seq![]);
        }
        assert(members_text(all, i) =~= members_text(e, i) + seq![',', ' '] + (key_text(k) + text(v)));
    } else {
        assert(all[i] == (k, v));
        assert(more_members_text(all, i + 1) =~= seq![]);
        assert(members_text(e, i) =~= seq![]);
        assert(members_text(all, i) =~= members_text(e, i) + seq![] + (key_text(k) + text(v)));
    }
}

} // verus!
