//! What clients and nodes mean by what they send over HTTP.
use crate::assoc::{lookup, lookup_after_put, put};
use crate::decimal::{decimal, lemma_decimal_digits, parse_u64_inverts_to_string, unsigned_value, ParseIntError};
use crate::json::print::text;
use crate::json::roundtrip::{lemma_encode_concat, printable};
use crate::json::serde::{reads_back, Deserialize, Serialize};
use crate::json::value::Json;
use crate::json::wire::read_inverts_write;
use crate::datum::{Datum, Readable};
use crate::maelstrom::rpc::Letter;
use crate::raft::http::connection::{act_on, act_on_message, act_on_request, queue_name, Act};
use crate::raft::http::headers::Fields;
use crate::raft::http::request::{
    asked_in, fields_from, has_request_line, head_in, line_at, line_end, method_named, request_in, Method, Refusal,
    Wish,
};
use crate::raft::http::response::{fields_text, reply_for, wire_text};
use crate::raft::http::{begins, sniffed, IncomingMessageType};
use crate::raft::maelstrom::rpc::MessageEnvelope;
use crate::raft::rpc::{ClientMsg, Message, Msg};
use crate::raft::service::answer_ids;
use crate::words::{
    is_white_space, place_of, split_at_first, trimmed, trimmed_end, trimmed_start, words, words_from,
};
use vstd::prelude::*;
use vstd::utf8::{
    char_is_scalar, encode_scalar, encode_utf8, encode_utf8_decode_utf8, encode_utf8_valid_utf8,
    has_width_1_encoding, has_width_2_encoding, has_width_3_encoding, is_ascii_chars, is_ascii_chars_encode_utf8,
    last_continuation_byte, leading_byte_width_1, leading_byte_width_2, leading_byte_width_3, leading_byte_width_4,
    second_last_continuation_byte, third_last_continuation_byte,
};

verus! {

/// A word: there is something, and no whitespace in it.
pub open spec fn is_word(s: Seq<char>) -> bool {
    s.len() > 0 && forall|i: int| 0 <= i < s.len() ==> !is_white_space(#[trigger] s[i])
}

/// A field that can be sent as a line: a name without colons, and a value that ends with no
/// whitespace.
pub open spec fn is_field(name: Seq<char>, value: Seq<char>) -> bool {
    &&& name.len() > 0
    &&& !is_white_space(name[0])
    &&& !name.contains(':')
    &&& !name.contains('\n')
    &&& value.len() > 0
    &&& !is_white_space(value.last())
    &&& !value.contains('\n')
}

/// Lines for fields, from the `i`-th on.
pub open spec fn field_lines(fields: Fields, i: int) -> Seq<char>
    decreases fields.len() - i,
{
    if i < 0 || i >= fields.len() {
        seq![]
    } else {
        fields[i].0 + seq![':', ' '] + fields[i].1 + seq!['\r', '\n'] + field_lines(fields, i + 1)
    }
}

/// The head of a request: what to do with what, fields, and an empty line.
pub open spec fn head_text(method: Seq<char>, path: Seq<char>, fields: Fields) -> Seq<char> {
    method + seq![' '] + path + " HTTP/1.1\r\n"@ + field_lines(fields, 0) + seq!['\r', '\n']
}

proof fn lemma_scalar_no_feed(c: char)
    requires
        c != '\n',
    ensures
        forall|i: int|
            0 <= i < encode_scalar(c as u32).len() ==> #[trigger] encode_scalar(c as u32)[i] != 0x0a,
{
    let v = c as u32;
    char_is_scalar(c);
    if has_width_1_encoding(v) {
        assert(leading_byte_width_1(v) == v as u8) by (bit_vector)
            requires
                has_width_1_encoding(v),
        ;
        assert(v as u8 == 0x0a ==> v == 0x0a) by (bit_vector)
            requires
                has_width_1_encoding(v),
        ;
    } else if has_width_2_encoding(v) {
        assert(leading_byte_width_2(v) >= 0x80 && last_continuation_byte(v) >= 0x80) by (bit_vector);
    } else if has_width_3_encoding(v) {
        assert(leading_byte_width_3(v) >= 0x80 && second_last_continuation_byte(v) >= 0x80
            && last_continuation_byte(v) >= 0x80) by (bit_vector);
    } else {
        assert(leading_byte_width_4(v) >= 0x80 && third_last_continuation_byte(v) >= 0x80
            && second_last_continuation_byte(v) >= 0x80 && last_continuation_byte(v) >= 0x80)
            by (bit_vector);
    }
}

proof fn lemma_text_no_feed(s: Seq<char>)
    requires
        !s.contains('\n'),
    ensures
        forall|i: int| 0 <= i < encode_utf8(s).len() ==> #[trigger] encode_utf8(s)[i] != 0x0a,
    decreases s.len(),
{
    if s.len() > 0 {
        let rest = s.drop_first();
        assert(s.contains(s[0]));
        assert forall|k: int| 0 <= k < rest.len() implies rest[k] != '\n' by {
            assert(s.contains(s[k + 1]));
        }
        lemma_scalar_no_feed(s[0]);
        lemma_text_no_feed(rest);
        let e = encode_scalar(s[0] as u32);
        let f = encode_utf8(rest);
        assert forall|i: int| 0 <= i < encode_utf8(s).len() implies #[trigger] encode_utf8(s)[i]
            != 0x0a by {
            if i < e.len() {
                assert(encode_utf8(s)[i] == e[i]);
            } else {
                assert(encode_utf8(s)[i] == f[i - e.len()]);
            }
        }
    }
}

proof fn lemma_line_ends(data: Seq<u8>, from: int, to: int)
    requires
        0 <= from <= to < data.len(),
        data[to] == 0x0a,
        forall|i: int| from <= i < to ==> data[i] != 0x0a,
    ensures
        line_end(data, from) == to + 1,
    decreases to - from,
{
    if from < to {
        lemma_line_ends(data, from + 1, to);
    }
}

/// The bytes of a text stand in data from a place on.
spec fn stands(data: Seq<u8>, from: int, s: Seq<char>) -> bool {
    &&& 0 <= from
    &&& from + encode_utf8(s).len() <= data.len()
    &&& data.subrange(from, from + encode_utf8(s).len()) == encode_utf8(s)
}

proof fn lemma_stands_parts(data: Seq<u8>, from: int, a: Seq<char>, b: Seq<char>)
    requires
        stands(data, from, a + b),
    ensures
        stands(data, from, a),
        stands(data, from + encode_utf8(a).len(), b),
        encode_utf8(a + b).len() == encode_utf8(a).len() + encode_utf8(b).len(),
{
    lemma_encode_concat(a, b);
    let (x, y) = (encode_utf8(a), encode_utf8(b));
    let all = data.subrange(from, from + encode_utf8(a + b).len());
    assert(data.subrange(from, from + x.len()) =~= all.subrange(0, x.len() as int));
    assert(all.subrange(0, x.len() as int) =~= x);
    assert(data.subrange(from + x.len(), from + x.len() + y.len()) =~= all.subrange(
        x.len() as int,
        all.len() as int,
    ));
    assert(all.subrange(x.len() as int, all.len() as int) =~= y);
}

/// A line in data is read as it is.
proof fn lemma_line_reads(data: Seq<u8>, from: int, s: Seq<char>)
    requires
        !s.contains('\n'),
        stands(data, from, s + seq!['\n']),
    ensures
        line_at(data, from) == Some(s + seq!['\n']),
        line_end(data, from) == from + encode_utf8(s + seq!['\n']).len(),
{
    let line = s + seq!['\n'];
    lemma_stands_parts(data, from, s, seq!['\n']);
    lemma_text_no_feed(s);
    let feed = seq!['\n'];
    assert(is_ascii_chars(feed));
    is_ascii_chars_encode_utf8(feed);
    assert(feed[0] == '\n');
    let e = encode_utf8(s);
    let to = from + e.len();
    assert(data[to] == data.subrange(to, to + 1)[0]);
    assert(encode_utf8(feed)[0] == 0x0a);
    assert forall|i: int| from <= i < to implies data[i] != 0x0a by {
        assert(data.subrange(from, to)[i - from] == e[i - from]);
    }
    lemma_line_ends(data, from, to);
    encode_utf8_valid_utf8(line);
    encode_utf8_decode_utf8(line);
}

proof fn lemma_word_goes_on(s: Seq<char>, i: int, j: int, begun: Seq<char>)
    requires
        0 <= i <= j <= s.len(),
        forall|k: int| i <= k < j ==> !is_white_space(#[trigger] s[k]),
    ensures
        words_from(s, i, begun) == words_from(s, j, begun + s.subrange(i, j)),
    decreases j - i,
{
    if i < j {
        lemma_word_goes_on(s, i + 1, j, begun.push(s[i]));
        assert(begun.push(s[i]) + s.subrange(i + 1, j) =~= begun + s.subrange(i, j));
    } else {
        assert(begun + s.subrange(i, j) =~= begun);
    }
}

/// The words of a request line.
proof fn lemma_request_words(method: Seq<char>, path: Seq<char>)
    requires
        is_word(method),
        is_word(path),
    ensures
        ({
            let w = words(method + seq![' '] + path + " HTTP/1.1\r\n"@);
            w.len() == 3 && w[0] == method && w[1] == path
        }),
{
    reveal_strlit(" HTTP/1.1\r\n");
    let end = " HTTP/1.1\r\n"@;
    let s = method + seq![' '] + path + end;
    let a = method.len() as int;
    let b = a + 1 + path.len();
    assert forall|k: int| 0 <= k < a implies !is_white_space(#[trigger] s[k]) by {
        assert(s[k] == method[k]);
    }
    assert forall|k: int| a + 1 <= k < b implies !is_white_space(#[trigger] s[k]) by {
        assert(s[k] == path[k - a - 1]);
    }
    assert forall|k: int| b + 1 <= k < b + 9 implies !is_white_space(#[trigger] s[k]) by {
        assert(s[k] == end[k - b]);
    }
    assert(s[a] == ' ');
    assert(s[b] == end[0]);
    assert(s[b + 9] == end[9]);
    assert(s[b + 10] == end[10]);
    let none = Seq::<char>::empty();
    lemma_word_goes_on(s, 0, a, none);
    assert(none + s.subrange(0, a) =~= method);
    lemma_word_goes_on(s, a + 1, b, none);
    assert(none + s.subrange(a + 1, b) =~= path);
    lemma_word_goes_on(s, b + 1, b + 9, none);
    let last = none + s.subrange(b + 1, b + 9);
    let w3 = words_from(s, b + 1, none);
    assert(words_from(s, b + 11, none) =~= seq![]);
    assert(words_from(s, b + 10, none) =~= seq![]);
    assert(w3 =~= seq![last]);
    assert(words_from(s, a + 1, none) =~= seq![path] + w3);
    assert(words(s) =~= seq![method] + (seq![path] + w3));
}

proof fn lemma_trimmed_line(s: Seq<char>)
    requires
        s.len() > 0,
        !is_white_space(s[0]),
        !is_white_space(s.last()),
    ensures
        trimmed(s + seq!['\r', '\n']) == s,
{
    let t = s + seq!['\r', '\n'];
    assert(t[0] == s[0]);
    assert(trimmed_start(t) == t);
    assert(t.drop_last() =~= s + seq!['\r']);
    assert(t.drop_last().drop_last() =~= s);
    reveal_with_fuel(trimmed_end, 4);
}

/// A field's line is split at its first colon.
proof fn lemma_field_splits(name: Seq<char>, value: Seq<char>)
    requires
        !name.contains(':'),
    ensures
        split_at_first(name + seq![':', ' '] + value, ": "@) == Some((name, value)),
{
    reveal_strlit(": ");
    let sep = ": "@;
    let s = name + seq![':', ' '] + value;
    let n = name.len() as int;
    assert(sep =~= seq![':', ' ']);
    assert(s.subrange(n, n + 2) =~= sep);
    lemma_first_place(s, sep, 0, n, name);
    assert(s.take(n) =~= name);
    assert(s.skip(n + 2) =~= value);
}

proof fn lemma_first_place(s: Seq<char>, sep: Seq<char>, i: int, n: int, name: Seq<char>)
    requires
        0 <= i <= n,
        n + sep.len() <= s.len(),
        sep.len() == 2,
        sep[0] == ':',
        s.subrange(n, n + 2) == sep,
        name.len() == n,
        !name.contains(':'),
        forall|k: int| 0 <= k < n ==> s[k] == name[k],
    ensures
        place_of(s, sep, i) == Some(n),
    decreases n - i,
{
    if i < n {
        assert(s.subrange(i, i + 2)[0] == name[i]);
        assert(name.contains(name[i]));
        lemma_first_place(s, sep, i + 1, n, name);
    }
}

/// Fields that were put one after the other.
pub open spec fn all_put(so_far: Fields, fields: Fields, i: int) -> Fields
    decreases fields.len() - i,
{
    if i < 0 || i >= fields.len() {
        so_far
    } else {
        all_put(put(so_far, fields[i].0, fields[i].1), fields, i + 1)
    }
}

proof fn lemma_fields_read(data: Seq<u8>, from: int, so_far: Fields, fields: Fields, i: int)
    requires
        0 <= i <= fields.len(),
        forall|k: int|
            0 <= k < fields.len() ==> is_field((#[trigger] fields[k]).0, fields[k].1),
        stands(data, from, field_lines(fields, i) + seq!['\r', '\n']),
    ensures
        fields_from(data, from, so_far) == Ok::<(Fields, int), Refusal>(
            (
                all_put(so_far, fields, i),
                from + encode_utf8(field_lines(fields, i) + seq!['\r', '\n']).len(),
            ),
        ),
    decreases fields.len() - i,
{
    let crlf = seq!['\r', '\n'];
    reveal_strlit("\r\n");
    assert("\r\n"@ =~= crlf);
    if i == fields.len() {
        assert(field_lines(fields, i) + crlf =~= crlf);
        assert(crlf =~= seq!['\r'] + seq!['\n']);
        assert(!seq!['\r'].contains('\n'));
        lemma_line_reads(data, from, seq!['\r']);
        lemma_encode_nonempty(crlf);
    } else {
        let (name, value) = fields[i];
        let bare = name + seq![':', ' '] + value;
        let line = bare + seq!['\r'] + seq!['\n'];
        let rest = field_lines(fields, i + 1) + crlf;
        assert(is_field(fields[i].0, fields[i].1));
        assert(field_lines(fields, i) + crlf =~= line + rest);
        lemma_stands_parts(data, from, line, rest);
        assert(!(bare + seq!['\r']).contains('\n')) by {
            let s = bare + seq!['\r'];
            if s.contains('\n') {
                let k = choose|k: int| 0 <= k < s.len() && s[k] == '\n';
                if k < name.len() {
                    assert(name[k] == '\n');
                } else if name.len() + 2 <= k < bare.len() {
                    assert(value[k - name.len() - 2] == '\n');
                }
            }
        }
        lemma_line_reads(data, from, bare + seq!['\r']);
        assert(line =~= bare + crlf);
        assert(bare.last() == value.last());
        lemma_trimmed_line(bare);
        lemma_field_splits(name, value);
        assert(line != crlf) by {
            assert(line[0] == name[0]);
            assert(is_white_space('\r'));
        }
        lemma_encode_nonempty(line);
        lemma_fields_read(data, from + encode_utf8(line).len(), put(so_far, name, value), fields, i + 1);
    }
}

proof fn lemma_encode_nonempty(s: Seq<char>)
    requires
        s.len() > 0,
    ensures
        encode_utf8(s).len() > 0,
{
}

/// A head that is sent is read as it was meant: what to do, with what, and the fields.
pub proof fn heads_are_read_as_sent(
    method: Seq<char>,
    path: Seq<char>,
    fields: Fields,
    behind: Seq<u8>,
)
    requires
        is_word(method),
        is_word(path),
        method_named(method) is Ok,
        forall|k: int|
            0 <= k < fields.len() ==> is_field((#[trigger] fields[k]).0, fields[k].1),
    ensures
        ({
            let head = encode_utf8(head_text(method, path, fields));
            &&& head_in(head + behind) == Ok::<(Method, Seq<char>, Fields, int), Refusal>(
                (
                    method_named(method)->Ok_0,
                    path,
                    all_put(seq![], fields, 0),
                    head.len() as int,
                ),
            )
            &&& has_request_line(head + behind)
        }),
{
    reveal_strlit(" HTTP/1.1\r\n");
    let end = " HTTP/1.1\r\n"@;
    let line = method + seq![' '] + path + end;
    let rest = field_lines(fields, 0) + seq!['\r', '\n'];
    let whole = head_text(method, path, fields);
    let head = encode_utf8(whole);
    let data = head + behind;
    assert(whole =~= line + rest);
    assert(data.subrange(0, head.len() as int) =~= head);
    lemma_stands_parts(data, 0, line, rest);
    let bare = line.drop_last();
    assert(line.last() == '\n');
    assert(line =~= bare + seq!['\n']);
    assert(!bare.contains('\n')) by {
        if bare.contains('\n') {
            let k = choose|k: int| 0 <= k < bare.len() && bare[k] == '\n';
            let n = method.len() as int;
            assert(is_white_space('\n'));
            if k < n {
                assert(method[k] == '\n');
            } else if n < k < n + 1 + path.len() {
                assert(path[k - n - 1] == '\n');
            } else if k > n {
                assert(end[k - n - 1 - path.len()] == '\n');
            }
        }
    }
    lemma_line_reads(data, 0, bare);
    lemma_request_words(method, path);
    lemma_fields_read(data, encode_utf8(line).len() as int, seq![], fields, 0);
}

proof fn lemma_all_put_others(so_far: Fields, fields: Fields, i: int, name: Seq<char>)
    requires
        0 <= i <= fields.len(),
        forall|k: int| i <= k < fields.len() ==> (#[trigger] fields[k]).0 != name,
    ensures
        lookup(all_put(so_far, fields, i), name) == lookup(so_far, name),
    decreases fields.len() - i,
{
    if i < fields.len() {
        let next = put(so_far, fields[i].0, fields[i].1);
        lookup_after_put(so_far, fields[i].0, fields[i].1, name);
        lemma_all_put_others(next, fields, i + 1, name);
    }
}

/// The last field with a name is the one that counts.
proof fn lemma_all_put_last(so_far: Fields, fields: Fields, i: int, p: int)
    requires
        0 <= i <= p < fields.len(),
        forall|k: int| p < k < fields.len() ==> (#[trigger] fields[k]).0 != fields[p].0,
    ensures
        lookup(all_put(so_far, fields, i), fields[p].0) == Some(fields[p].1),
    decreases fields.len() - i,
{
    let next = put(so_far, fields[i].0, fields[i].1);
    if i < p {
        lemma_all_put_last(next, fields, i + 1, p);
    } else {
        lookup_after_put(so_far, fields[i].0, fields[i].1, fields[p].0);
        lemma_all_put_others(next, fields, i + 1, fields[p].0);
    }
}

/// A key that can be named in a path.
pub open spec fn is_key(key: Seq<char>) -> bool {
    is_word(key) && !key.contains('/')
}

/// The path of a key.
pub open spec fn key_path(key: Seq<char>) -> Seq<char> {
    seq!['/', 'k', 'e', 'y', '/'] + key
}

proof fn lemma_key_path(key: Seq<char>)
    requires
        is_key(key),
    ensures
        is_word(key_path(key)),
        crate::raft::http::request::key_in(key_path(key)) == Ok::<Seq<char>, Refusal>(key),
{
    reveal_strlit("/key/");
    let path = key_path(key);
    assert("/key/"@ =~= seq!['/', 'k', 'e', 'y', '/']);
    assert(path.subrange(0, 5) =~= "/key/"@);
    assert(path.skip(5) =~= key);
    assert forall|i: int| 0 <= i < path.len() implies !is_white_space(#[trigger] path[i]) by {
        if i >= 5 {
            assert(path[i] == key[i - 5]);
        }
    }
}

/// The fields of a request with a body: whatever else there is, how long the body is, and what
/// is expected to be there, if anything.
pub open spec fn put_fields(extra: Fields, length: nat, expected: Option<Seq<char>>) -> Fields {
    let all = extra.push(("Content-Length"@, decimal(length)));
    match expected {
        None => all,
        Some(v) => all.push(("If-Match"@, v)),
    }
}

proof fn lemma_put_fields(extra: Fields, length: u64, expected: Option<Seq<char>>)
    requires
        forall|k: int|
            0 <= k < extra.len() ==> is_field((#[trigger] extra[k]).0, extra[k].1) && extra[k].0
                != "Content-Length"@ && extra[k].0 != "If-Match"@,
        expected matches Some(v) ==> is_field("If-Match"@, v),
    ensures
        ({
            let fields = put_fields(extra, length as nat, expected);
            let got = all_put(seq![], fields, 0);
            &&& forall|k: int|
                0 <= k < fields.len() ==> is_field((#[trigger] fields[k]).0, fields[k].1)
            &&& lookup(got, "Content-Length"@) == Some(decimal(length as nat))
            &&& lookup(got, "If-Match"@) == expected
        }),
{
    reveal_strlit("Content-Length");
    reveal_strlit("If-Match");
    let name = "Content-Length"@;
    let other = "If-Match"@;
    let n = decimal(length as nat);
    let fields = put_fields(extra, length as nat, expected);
    let none: Fields = seq![];
    lemma_decimal_digits(length as nat);
    assert(name[0] == 'C' && other[0] == 'I');
    assert forall|k: int| 0 <= k < n.len() implies n[k] != '\n' && !is_white_space(n[k]) by {
        assert(crate::decimal::is_digit(n[k]));
    }
    assert(is_field(name, n));
    assert(fields[extra.len() as int] == (name, n));
    assert forall|k: int| 0 <= k < fields.len() implies is_field((#[trigger] fields[k]).0, fields[k].1) by {
        if k < extra.len() {
            assert(fields[k] == extra[k]);
        }
    }
    lemma_all_put_last(none, fields, 0, extra.len() as int);
    match expected {
        Some(v) => {
            assert(fields[extra.len() as int + 1] == (other, v));
            lemma_all_put_last(none, fields, 0, extra.len() as int + 1);
        },
        None => {
            assert forall|k: int| 0 <= k < fields.len() implies (#[trigger] fields[k]).0 != other by {
                if k < extra.len() {
                    assert(fields[k] == extra[k]);
                }
            }
            lemma_all_put_others(none, fields, 0, other);
            assert(lookup(none, other) is None);
        },
    }
}

proof fn lemma_sniffed(method: Seq<char>, data: Seq<u8>, behind: Seq<u8>)
    requires
        method == seq!['G', 'E', 'T'] || method == seq!['P', 'U', 'T'],
        data.len() >= 3,
        data[0] == method[0] as u8,
        data[1] == method[1] as u8,
        data[2] == method[2] as u8,
    ensures
        sniffed(data + behind) == IncomingMessageType::HTTPRequest,
{
    let all = data + behind;
    if method[0] == 'G' {
        assert(all.subrange(0, 3) =~= seq![0x47u8, 0x45, 0x54]);
    } else {
        assert(all.subrange(0, 3) =~= seq![0x50u8, 0x55, 0x54]);
    }
}

proof fn lemma_head_begins(method: Seq<char>, path: Seq<char>, fields: Fields)
    requires
        method == seq!['G', 'E', 'T'] || method == seq!['P', 'U', 'T'],
    ensures
        ({
            let head = encode_utf8(head_text(method, path, fields));
            head.len() >= 3 && head[0] == method[0] as u8 && head[1] == method[1] as u8 && head[2]
                == method[2] as u8
        }),
{
    let whole = head_text(method, path, fields);
    let rest = seq![' '] + path + " HTTP/1.1\r\n"@ + field_lines(fields, 0) + seq!['\r', '\n'];
    assert(whole =~= method + rest);
    lemma_encode_concat(method, rest);
    assert(is_ascii_chars(method));
    is_ascii_chars_encode_utf8(method);
}

/// A PUT stores what was sent: under the key in its path, all of the body, and nothing of what
/// is behind it, whatever the body holds. If something is expected to be there, it is a
/// compare-and-swap from that.
pub proof fn puts_store_the_body(
    key: Seq<char>,
    extra: Fields,
    expected: Option<Seq<char>>,
    body: Seq<char>,
    behind: Seq<u8>,
    id: u64,
)
    requires
        is_key(key),
        forall|k: int|
            0 <= k < extra.len() ==> is_field((#[trigger] extra[k]).0, extra[k].1) && extra[k].0
                != "Content-Length"@ && extra[k].0 != "If-Match"@,
        expected matches Some(v) ==> is_field("If-Match"@, v),
        encode_utf8(body).len() <= u64::MAX,
    ensures
        ({
            let bytes = encode_utf8(body);
            let fields = put_fields(extra, bytes.len(), expected);
            let head = encode_utf8(head_text(seq!['P', 'U', 'T'], key_path(key), fields));
            let data = head + (bytes + behind);
            &&& sniffed(data) == IncomingMessageType::HTTPRequest
            &&& has_request_line(data)
            &&& request_in(data) matches Ok(wish)
            &&& asked_in(wish, id) == Ok::<ClientMsg<Seq<char>, Seq<char>>, Refusal>(
                match expected {
                    None => ClientMsg::WriteRequest { key, value: body, id },
                    Some(from) => ClientMsg::CASRequest { key, from, to: body, id },
                },
            )
        }),
{
    reveal_strlit("PUT");
    reveal_strlit("GET");
    let method = seq!['P', 'U', 'T'];
    assert("PUT"@ =~= method);
    assert("GET"@[0] == 'G');
    assert forall|i: int| 0 <= i < method.len() implies !is_white_space(#[trigger] method[i]) by {}
    let bytes = encode_utf8(body);
    let n = bytes.len() as u64;
    let fields = put_fields(extra, n as nat, expected);
    let head = encode_utf8(head_text(method, key_path(key), fields));
    let data = head + (bytes + behind);
    lemma_key_path(key);
    lemma_put_fields(extra, n, expected);
    heads_are_read_as_sent(method, key_path(key), fields, bytes + behind);
    lemma_head_begins(method, key_path(key), fields);
    lemma_sniffed(method, head, bytes + behind);
    parse_u64_inverts_to_string(n);
    assert(unsigned_value(decimal(n as nat)) == Ok::<nat, ParseIntError>(n as nat));
    assert(data.subrange(head.len() as int, head.len() + n) =~= bytes);
    encode_utf8_valid_utf8(body);
    encode_utf8_decode_utf8(body);
}

/// A GET reads what is under the key in its path, whatever fields there are.
pub proof fn gets_read_the_key(key: Seq<char>, fields: Fields, behind: Seq<u8>, id: u64)
    requires
        is_key(key),
        forall|k: int|
            0 <= k < fields.len() ==> is_field((#[trigger] fields[k]).0, fields[k].1) && fields[k].0
                != "Content-Length"@,
    ensures
        ({
            let head = encode_utf8(head_text(seq!['G', 'E', 'T'], key_path(key), fields));
            let data = head + behind;
            &&& sniffed(data) == IncomingMessageType::HTTPRequest
            &&& has_request_line(data)
            &&& request_in(data) matches Ok(wish)
            &&& asked_in(wish, id) == Ok::<ClientMsg<Seq<char>, Seq<char>>, Refusal>(
                ClientMsg::ReadRequest { key, id },
            )
        }),
{
    reveal_strlit("GET");
    let method = seq!['G', 'E', 'T'];
    assert("GET"@ =~= method);
    assert forall|i: int| 0 <= i < method.len() implies !is_white_space(#[trigger] method[i]) by {}
    lemma_key_path(key);
    heads_are_read_as_sent(method, key_path(key), fields, behind);
    lemma_head_begins(method, key_path(key), fields);
    lemma_sniffed(method, encode_utf8(head_text(method, key_path(key), fields)), behind);
    let none: Fields = seq![];
    lemma_all_put_others(none, fields, 0, "Content-Length"@);
    assert(lookup(none, "Content-Length"@) is None);
}

/// A path that is none of a key is refused, and so is a PUT without a body: nothing is asked of
/// the store.
pub proof fn senseless_requests_are_refused(wish: Wish, id: u64)
    ensures
        wish.uri.take(5) != seq!['/', 'k', 'e', 'y', '/'] ==> asked_in(wish, id) == Err::<
            ClientMsg<Seq<char>, Seq<char>>,
            Refusal,
        >(Refusal::NoKey),
        wish.uri.len() >= 5 && wish.uri.take(5) == seq!['/', 'k', 'e', 'y', '/'] && (
        wish.uri.len() == 5 || wish.uri.skip(5).contains('/')) ==> asked_in(wish, id) == Err::<
            ClientMsg<Seq<char>, Seq<char>>,
            Refusal,
        >(Refusal::InvalidKey),
        wish.method is Put && wish.body is None ==> asked_in(wish, id) is Err,
        asked_in(wish, id) matches Ok(m) ==> wish.uri == key_path(
            match m {
                ClientMsg::ReadRequest { key, .. } => key,
                ClientMsg::WriteRequest { key, .. } => key,
                ClientMsg::CASRequest { key, .. } => key,
                _ => seq![],
            },
        ),
{
    reveal_strlit("/key/");
    let start = "/key/"@;
    assert(start =~= seq!['/', 'k', 'e', 'y', '/']);
    if start.is_prefix_of(wish.uri) {
        assert(wish.uri.take(5) =~= wish.uri.subrange(0, 5));
        assert(wish.uri =~= key_path(wish.uri.skip(5)));
    } else if wish.uri.len() >= 5 {
        assert(wish.uri.take(5) =~= wish.uri.subrange(0, 5));
    }
}

/// What a client is sent for an answer: whether it worked, how long what follows is, and what
/// follows: the value that was read, or what went wrong.
pub proof fn responses_say_what_was_answered<K: Datum, V: Readable>(m: ClientMsg<K::V, V::V>)
    ensures
        ({
            let sent = wire_text(reply_for::<K, V>(m));
            match m {
                ClientMsg::ReadResponse { value, .. } => {
                    let body = V::printed(value);
                    sent == "HTTP/1.1 200 OK\r\nContent-Length: "@ + decimal(encode_utf8(body).len())
                        + "\r\nConnection: close\r\n\r\n"@ + body
                },
                ClientMsg::WriteResponse { .. } => sent
                    == "HTTP/1.1 201 Created\r\nConnection: close\r\n\r\n"@,
                ClientMsg::CASResponse { .. } => sent
                    == "HTTP/1.1 200 OK\r\nConnection: close\r\n\r\n"@,
                ClientMsg::ErrorResponse { text, .. } => sent
                    == "HTTP/1.1 400 Bad Request\r\nContent-Length: "@ + decimal(
                    encode_utf8(text).len(),
                ) + "\r\nConnection: close\r\n\r\n"@ + text,
                _ => reply_for::<K, V>(m).status == 500,
            }
        }),
{
    reveal_strlit("HTTP/1.1 200 OK\r\nContent-Length: ");
    reveal_strlit("HTTP/1.1 400 Bad Request\r\nContent-Length: ");
    reveal_strlit("\r\nConnection: close\r\n\r\n");
    reveal_strlit("HTTP/1.1 201 Created\r\nConnection: close\r\n\r\n");
    reveal_strlit("HTTP/1.1 200 OK\r\nConnection: close\r\n\r\n");
    reveal_strlit("HTTP/1.1 ");
    reveal_strlit(" ");
    reveal_strlit("OK");
    reveal_strlit("Created");
    reveal_strlit("Bad Request");
    reveal_strlit("\r\n");
    reveal_strlit(": ");
    reveal_strlit("Content-Length");
    reveal_strlit("Connection");
    reveal_strlit("close");
    let r = reply_for::<K, V>(m);
    let sent = wire_text(r);
    let none: Fields = seq![];
    let shut = ("Connection"@, "close"@);
    assert("Content-Length"@[3] == 't');
    reveal_with_fuel(fields_text, 3);
    reveal_with_fuel(decimal, 4);
    reveal_with_fuel(crate::assoc::position, 3);
    assert(decimal(200) =~= seq!['2', '0', '0']);
    assert(decimal(201) =~= seq!['2', '0', '1']);
    assert(decimal(400) =~= seq!['4', '0', '0']);
    match m {
        ClientMsg::ReadResponse { value, .. } => {
            let body = V::printed(value);
            let length = ("Content-Length"@, decimal(encode_utf8(body).len()));
            assert(r.headers =~= seq![length, shut]);
            assert(sent =~= "HTTP/1.1 200 OK\r\nContent-Length: "@ + decimal(
                encode_utf8(body).len(),
            ) + "\r\nConnection: close\r\n\r\n"@ + body);
        },
        ClientMsg::ErrorResponse { text, .. } => {
            let length = ("Content-Length"@, decimal(encode_utf8(text).len()));
            assert(r.headers =~= seq![length, shut]);
            assert(sent =~= "HTTP/1.1 400 Bad Request\r\nContent-Length: "@ + decimal(
                encode_utf8(text).len(),
            ) + "\r\nConnection: close\r\n\r\n"@ + text);
        },
        ClientMsg::WriteResponse { .. } => {
            assert(r.headers =~= seq![shut]);
            assert(sent =~= "HTTP/1.1 201 Created\r\nConnection: close\r\n\r\n"@);
        },
        ClientMsg::CASResponse { .. } => {
            assert(r.headers =~= seq![shut]);
            assert(sent =~= "HTTP/1.1 200 OK\r\nConnection: close\r\n\r\n"@);
        },
        _ => {},
    }
}

/// A client that asked waits under a name; whatever answers its message, be it here or by way of
/// a leader that knows the message under another ID, goes to that client, and in full.
pub proof fn answers_reach_who_asked<C>(
    node: Seq<char>,
    data: Seq<u8>,
    id: u64,
    answer: Letter<Msg<Seq<char>, Seq<char>, C>>,
    waiting: Seq<Seq<char>>,
)
    requires
        act_on_request::<C>(node, data, id) is Ask,
        waiting.contains(act_on_request::<C>(node, data, id)->Ask_name),
        answer.body matches Msg::Client(m) && m.answered() is Some && (m.id() == id || (
        m.answered() == Some(id) && !waiting.contains(queue_name(node, m.id())))),
    ensures
        act_on_message(node, answer, waiting) == (Act::<C>::Respond {
            name: act_on_request::<C>(node, data, id)->Ask_name,
            wire: encode_utf8(wire_text(reply_for::<String, String>(answer.body->Client_0))),
        }),
{
}

/// Different messages wait under different names, so no client gets another one's answer.
pub proof fn names_tell_messages_apart(node: Seq<char>, a: u64, b: u64)
    requires
        queue_name(node, a) == queue_name(node, b),
    ensures
        a == b,
{
    let front = "node-"@ + node + "-"@;
    assert(queue_name(node, a).skip(front.len() as int) =~= decimal(a as nat));
    assert(queue_name(node, b).skip(front.len() as int) =~= decimal(b as nat));
    parse_u64_inverts_to_string(a);
    parse_u64_inverts_to_string(b);
}

/// Messages that answer nothing go to the engine as they are; answers that nobody waits for go
/// to the engine too, to find who does.
pub proof fn other_messages_go_to_the_engine<C>(
    node: Seq<char>,
    letter: Letter<Msg<Seq<char>, Seq<char>, C>>,
    waiting: Seq<Seq<char>>,
)
    ensures
        letter.body matches Msg::Raft(rpc) ==> act_on_message(node, letter, waiting) == (Act::<
            C,
        >::HandRaft { source: letter.source, rpc }),
        letter.body matches Msg::Client(message) ==> message.is_request() ==> act_on_message(
            node,
            letter,
            waiting,
        ) == (Act::<C>::HandClient { source: letter.source, message }),
        letter.body matches Msg::Client(message) ==> !message.is_request() && waiting.len() == 0
            ==> act_on_message(node, letter, waiting) == (Act::<C>::Resurface { message }),
{
}

/// What the first bytes say: a brace begins a message of a node, the name of a method a client's
/// request, and anything else is not meant for a node.
pub proof fn first_bytes_tell(data: Seq<u8>)
    requires
        data.len() >= 4,
    ensures
        sniffed(data) is JSON <==> data[0] == 0x7b,
        sniffed(data) is HTTPRequest <==> ({
            let word = seq![data[0] as char, data[1] as char, data[2] as char];
            word == seq!['G', 'E', 'T'] || word == seq!['P', 'U', 'T'] || (word == seq![
                'P',
                'O',
                'S',
            ] && data[3] as char == 'T')
        }),
{
    let word = seq![data[0] as char, data[1] as char, data[2] as char];
    let get = seq![0x47u8, 0x45, 0x54];
    let post = seq![0x50u8, 0x4f, 0x53, 0x54];
    let put = seq![0x50u8, 0x55, 0x54];
    assert(begins(data, get) == (data[0] == 0x47 && data[1] == 0x45 && data[2] == 0x54)) by {
        if data[0] == 0x47 && data[1] == 0x45 && data[2] == 0x54 {
            assert(data.subrange(0, 3) =~= get);
        } else if begins(data, get) {
            assert(data.subrange(0, 3)[0] == get[0] && data.subrange(0, 3)[1] == get[1]
                && data.subrange(0, 3)[2] == get[2]);
        }
    }
    assert(begins(data, put) == (data[0] == 0x50 && data[1] == 0x55 && data[2] == 0x54)) by {
        if data[0] == 0x50 && data[1] == 0x55 && data[2] == 0x54 {
            assert(data.subrange(0, 3) =~= put);
        } else if begins(data, put) {
            assert(data.subrange(0, 3)[0] == put[0] && data.subrange(0, 3)[1] == put[1]
                && data.subrange(0, 3)[2] == put[2]);
        }
    }
    assert(begins(data, post) == (data[0] == 0x50 && data[1] == 0x4f && data[2] == 0x53 && data[3]
        == 0x54)) by {
        if data[0] == 0x50 && data[1] == 0x4f && data[2] == 0x53 && data[3] == 0x54 {
            assert(data.subrange(0, 4) =~= post);
        } else if begins(data, post) {
            assert(data.subrange(0, 4)[0] == post[0] && data.subrange(0, 4)[1] == post[1]
                && data.subrange(0, 4)[2] == post[2] && data.subrange(0, 4)[3] == post[3]);
        }
    }
    assert(begins(data, seq![0x7bu8]) == (data[0] == 0x7b)) by {
        if data[0] == 0x7b {
            assert(data.subrange(0, 1) =~= seq![0x7bu8]);
        } else if begins(data, seq![0x7bu8]) {
            assert(data.subrange(0, 1)[0] == 0x7b);
        }
    }
    assert(word[0] == data[0] as char && word[1] == data[1] as char && word[2] == data[2] as char);
    let (g, p, q) = (seq!['G', 'E', 'T'], seq!['P', 'U', 'T'], seq!['P', 'O', 'S']);
    assert(word == g <==> word[0] == g[0] && word[1] == g[1] && word[2] == g[2]) by {
        if word[0] == g[0] && word[1] == g[1] && word[2] == g[2] {
            assert(word =~= g);
        }
    }
    assert(word == p <==> word[0] == p[0] && word[1] == p[1] && word[2] == p[2]) by {
        if word[0] == p[0] && word[1] == p[1] && word[2] == p[2] {
            assert(word =~= p);
        }
    }
    assert(word == q <==> word[0] == q[0] && word[1] == q[1] && word[2] == q[2]) by {
        if word[0] == q[0] && word[1] == q[1] && word[2] == q[2] {
            assert(word =~= q);
        }
    }
}

proof fn lemma_brace_sniffed(t: Seq<char>)
    requires
        t.len() > 0,
        t[0] == '{',
    ensures
        sniffed(encode_utf8(t)) == IncomingMessageType::JSON,
{
    let data = encode_utf8(t);
    assert(t =~= seq!['{'] + t.drop_first());
    lemma_encode_concat(seq!['{'], t.drop_first());
    assert(is_ascii_chars(seq!['{']));
    is_ascii_chars_encode_utf8(seq!['{']);
    assert(seq!['{'][0] == '{');
    assert(data[0] == 0x7b);
    assert(data.subrange(0, 1) =~= seq![0x7bu8]);
    if begins(data, seq![0x47u8, 0x45, 0x54]) {
        assert(data.subrange(0, 3)[0] == 0x47);
    }
    if begins(data, seq![0x50u8, 0x4f, 0x53, 0x54]) {
        assert(data.subrange(0, 4)[0] == 0x50);
    }
    if begins(data, seq![0x50u8, 0x55, 0x54]) {
        assert(data.subrange(0, 3)[0] == 0x50);
    }
}

proof fn lemma_object_text(j: Json)
    requires
        j is Object,
    ensures
        text(j).len() > 0,
        text(j)[0] == '{',
{
}

/// What a node sends is what another one acts on.
pub proof fn nodes_understand_each_other<Cmd: Serialize + Deserialize>(
    m: MessageEnvelope<Message<String, String, Cmd>>,
    node: Seq<char>,
    id: u64,
    waiting: Seq<Seq<char>>,
)
    requires
        reads_back(m),
        printable(m.json(), 0),
    ensures
        act_on::<Cmd>(node, encode_utf8(text(m.json())), id, waiting) == act_on_message(
            node,
            m.deep_view(),
            waiting,
        ),
{
    read_inverts_write(m);
    lemma_object_text(m.json());
    lemma_brace_sniffed(text(m.json()));
}

/// A request asks for just what it says: a GET for the value under its key; a PUT to write all of
/// its body there, or to swap it for what it expects there. It is refused only if its path names
/// no key, or a PUT has no body.
pub proof fn requests_ask_for_what_they_say(wish: Wish, id: u64, key: Seq<char>)
    ensures
        asked_in(wish, id) matches Ok(m) ==> match m {
            ClientMsg::ReadRequest { key: k, id: i } => wish.method is Get && i == id && wish.uri
                == key_path(k),
            ClientMsg::WriteRequest { key: k, value, id: i } => wish.method is Put && i == id
                && wish.uri == key_path(k) && wish.body == Some(value) && lookup(
                wish.headers,
                "If-Match"@,
            ) is None,
            ClientMsg::CASRequest { key: k, from, to, id: i } => wish.method is Put && i == id
                && wish.uri == key_path(k) && wish.body == Some(to) && lookup(
                wish.headers,
                "If-Match"@,
            ) == Some(from),
            _ => false,
        },
        wish.uri == key_path(key) && key.len() > 0 && !key.contains('/') && (wish.method is Get
            || wish.body is Some) ==> asked_in(wish, id) is Ok,
{
    senseless_requests_are_refused(wish, id);
    reveal_strlit("/key/");
    let start = "/key/"@;
    assert(start =~= seq!['/', 'k', 'e', 'y', '/']);
    if wish.uri == key_path(key) {
        assert(wish.uri.subrange(0, 5) =~= start);
        assert(wish.uri.skip(5) =~= key);
    }
}

/// Where less arrived than the body should hold, the body is what arrived.
pub proof fn bodies_end_with_the_data(
    key: Seq<char>,
    extra: Fields,
    expected: Option<Seq<char>>,
    body: Seq<char>,
    length: u64,
    id: u64,
)
    requires
        is_key(key),
        forall|k: int|
            0 <= k < extra.len() ==> is_field((#[trigger] extra[k]).0, extra[k].1) && extra[k].0
                != "Content-Length"@ && extra[k].0 != "If-Match"@,
        expected matches Some(v) ==> is_field("If-Match"@, v),
        encode_utf8(body).len() <= length,
    ensures
        ({
            let fields = put_fields(extra, length as nat, expected);
            let head = encode_utf8(head_text(seq!['P', 'U', 'T'], key_path(key), fields));
            request_in(head + encode_utf8(body)) matches Ok(wish) && wish.body == Some(body)
                && wish.uri == key_path(key)
        }),
{
    reveal_strlit("PUT");
    reveal_strlit("GET");
    let method = seq!['P', 'U', 'T'];
    assert("PUT"@ =~= method);
    assert("GET"@[0] == 'G');
    assert forall|i: int| 0 <= i < method.len() implies !is_white_space(#[trigger] method[i]) by {}
    let bytes = encode_utf8(body);
    let fields = put_fields(extra, length as nat, expected);
    let head = encode_utf8(head_text(method, key_path(key), fields));
    let data = head + bytes;
    lemma_key_path(key);
    lemma_put_fields(extra, length, expected);
    heads_are_read_as_sent(method, key_path(key), fields, bytes);
    parse_u64_inverts_to_string(length);
    assert(unsigned_value(decimal(length as nat)) == Ok::<nat, ParseIntError>(length as nat));
    assert(data.subrange(head.len() as int, data.len() as int) =~= bytes);
    encode_utf8_valid_utf8(body);
    encode_utf8_decode_utf8(body);
}

/// A length that is no number is refused, and with what is wrong with it.
pub proof fn lengths_have_to_be_numbers(
    method: Seq<char>,
    path: Seq<char>,
    extra: Fields,
    length: Seq<char>,
    behind: Seq<u8>,
)
    requires
        is_word(method),
        is_word(path),
        method_named(method) is Ok,
        forall|k: int| 0 <= k < extra.len() ==> is_field((#[trigger] extra[k]).0, extra[k].1),
        is_field("Content-Length"@, length),
        unsigned_value(length) is Err,
    ensures
        ({
            let fields = extra.push(("Content-Length"@, length));
            request_in(encode_utf8(head_text(method, path, fields)) + behind) == Err::<Wish, Refusal>(
                Refusal::InvalidLength(unsigned_value(length)->Err_0),
            )
        }),
{
    let fields = extra.push(("Content-Length"@, length));
    assert forall|k: int| 0 <= k < fields.len() implies is_field((#[trigger] fields[k]).0, fields[k].1) by {
        if k < extra.len() {
            assert(fields[k] == extra[k]);
        }
    }
    let none: Fields = seq![];
    assert(fields[extra.len() as int] == ("Content-Length"@, length));
    lemma_all_put_last(none, fields, 0, extra.len() as int);
    heads_are_read_as_sent(method, path, fields, behind);
}

/// Without a length there is no body, whatever follows.
pub proof fn bodies_need_a_length(method: Seq<char>, path: Seq<char>, fields: Fields, behind: Seq<u8>)
    requires
        is_word(method),
        is_word(path),
        method_named(method) is Ok,
        forall|k: int|
            0 <= k < fields.len() ==> is_field((#[trigger] fields[k]).0, fields[k].1) && fields[k].0
                != "Content-Length"@,
    ensures
        request_in(encode_utf8(head_text(method, path, fields)) + behind) matches Ok(wish)
            && wish.body is None && wish.uri == path && wish.headers == all_put(seq![], fields, 0),
{
    heads_are_read_as_sent(method, path, fields, behind);
    let none: Fields = seq![];
    lemma_all_put_others(none, fields, 0, "Content-Length"@);
    assert(lookup(none, "Content-Length"@) is None);
}

/// The methods are GET and PUT. A request with any other is refused, and told which it was.
pub proof fn other_methods_are_refused(
    method: Seq<char>,
    path: Seq<char>,
    fields: Fields,
    behind: Seq<u8>,
)
    requires
        is_word(method),
        is_word(path),
    ensures
        method == seq!['G', 'E', 'T'] ==> method_named(method) == Ok::<Method, Refusal>(Method::Get),
        method == seq!['P', 'U', 'T'] ==> method_named(method) == Ok::<Method, Refusal>(Method::Put),
        method != seq!['G', 'E', 'T'] && method != seq!['P', 'U', 'T'] ==> request_in(
            encode_utf8(head_text(method, path, fields)) + behind,
        ) == Err::<Wish, Refusal>(Refusal::UnknownMethod(method)),
{
    reveal_strlit("GET");
    reveal_strlit("PUT");
    assert("GET"@ =~= seq!['G', 'E', 'T']);
    assert("PUT"@ =~= seq!['P', 'U', 'T']);
    assert("GET"@[0] == 'G' && "PUT"@[0] == 'P');
    reveal_strlit(" HTTP/1.1\r\n");
    let end = " HTTP/1.1\r\n"@;
    let line = method + seq![' '] + path + end;
    let rest = field_lines(fields, 0) + seq!['\r', '\n'];
    let whole = head_text(method, path, fields);
    let head = encode_utf8(whole);
    let data = head + behind;
    assert(whole =~= line + rest);
    assert(data.subrange(0, head.len() as int) =~= head);
    lemma_stands_parts(data, 0, line, rest);
    lemma_request_line_reads(data, method, path);
    lemma_request_words(method, path);
}

/// A request line is read to its end.
proof fn lemma_request_line_reads(data: Seq<u8>, method: Seq<char>, path: Seq<char>)
    requires
        is_word(method),
        is_word(path),
        stands(data, 0, method + seq![' '] + path + " HTTP/1.1\r\n"@),
    ensures
        line_at(data, 0) == Some(method + seq![' '] + path + " HTTP/1.1\r\n"@),
{
    reveal_strlit(" HTTP/1.1\r\n");
    let end = " HTTP/1.1\r\n"@;
    let line = method + seq![' '] + path + end;
    let bare = line.drop_last();
    assert(line.last() == '\n');
    assert(line =~= bare + seq!['\n']);
    assert(!bare.contains('\n')) by {
        if bare.contains('\n') {
            let k = choose|k: int| 0 <= k < bare.len() && bare[k] == '\n';
            let n = method.len() as int;
            assert(is_white_space('\n'));
            if k < n {
                assert(method[k] == '\n');
            } else if n < k < n + 1 + path.len() {
                assert(path[k - n - 1] == '\n');
            } else if k > n {
                assert(end[k - n - 1 - path.len()] == '\n');
            }
        }
    }
    lemma_line_reads(data, 0, bare);
}

/// A request that is refused is not asked of anyone; one that is not is, under the name of its ID.
pub proof fn refused_requests_go_nowhere<C>(node: Seq<char>, data: Seq<u8>, id: u64)
    ensures
        request_in(data) matches Err(e) ==> act_on_request::<C>(node, data, id) == Act::<C>::Refuse(e),
        request_in(data) matches Ok(wish) ==> match asked_in(wish, id) {
            Err(e) => act_on_request::<C>(node, data, id) == Act::<C>::Refuse(e),
            Ok(message) => act_on_request::<C>(node, data, id) == (Act::<C>::Ask {
                name: queue_name(node, id),
                message,
            }),
        },
{
    if let Ok(wish) = request_in(data) {
        requests_ask_for_what_they_say(wish, id, seq![]);
    }
}

/// An answer that nobody waits for, neither under the ID that it has nor under the one that it
/// answers, goes to the engine.
pub proof fn unclaimed_answers_go_on<C>(
    node: Seq<char>,
    answer: Letter<Msg<Seq<char>, Seq<char>, C>>,
    waiting: Seq<Seq<char>>,
)
    requires
        answer.body matches Msg::Client(m) && answer_ids(m) is Some && !waiting.contains(
            queue_name(node, answer_ids(m)->Some_0.0),
        ) && !waiting.contains(queue_name(node, answer_ids(m)->Some_0.1)),
    ensures
        act_on_message(node, answer, waiting) == (Act::<C>::Resurface {
            message: answer.body->Client_0,
        }),
{
}

} // verus!
