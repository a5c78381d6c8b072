//! Base64 with the standard alphabet (`+` and `/`) and padding.
use crate::decimal::{decimal, hexadecimal, push_decimal, push_hexadecimal};
use vstd::prelude::*;
use vstd::string::StringExecFns;
use vstd::utf8::encode_utf8;

verus! {

/// Fills the last group up to four symbols.
pub const PADDING: u8 = 0x3d;

/// Why a text is not base64.
#[derive(Debug, PartialEq)]
pub enum DecodeError {
    /// The input length is not a multiple of 4.
    InvalidLength,
    /// The input contains a character not in the Base64 alphabet or padding.
    InvalidByte(usize, u8),
    /// The padding characters (`=`) are in an invalid position or quantity.
    InvalidPadding,
}

impl DecodeError {
    /// The message for this error.
    pub open spec fn message(self) -> Seq<char> {
        match self {
            DecodeError::InvalidLength => "encoded text must be a multiple of 4"@,
            DecodeError::InvalidByte(pos, byte) => "invalid byte "@ + hexadecimal(byte as nat)
                + " at position "@ + decimal(pos as nat),
            DecodeError::InvalidPadding => "invalid padding"@,
        }
    }

    /// The message for this error.
    pub fn to_string(&self) -> (s: String)
        ensures
            s@ == self.message(),
    {
        match self {
            DecodeError::InvalidLength => "encoded text must be a multiple of 4".to_owned(),
            DecodeError::InvalidByte(pos, byte) => {
                let mut s: String = "invalid byte ".to_owned();
                push_hexadecimal(&mut s, *byte as u64);
                s.append(" at position ");
                push_decimal(&mut s, *pos as u64);
                s
            },
            DecodeError::InvalidPadding => "invalid padding".to_owned(),
        }
    }
}

/// The alphabet: the symbol for six bits.
pub open spec fn symbol(v: int) -> u8 {
    if v < 26 {
        (0x41 + v) as u8
    } else if v < 52 {
        (0x61 + (v - 26)) as u8
    } else if v < 62 {
        (0x30 + (v - 52)) as u8
    } else if v == 62 {
        0x2b
    } else {
        0x2f
    }
}

/// The six bits that a symbol stands for, if it is in the alphabet.
pub open spec fn symbol_value(b: u8) -> Option<int> {
    if 0x41 <= b <= 0x5a {
        Some(b - 0x41)
    } else if 0x61 <= b <= 0x7a {
        Some(b - 0x61 + 26)
    } else if 0x30 <= b <= 0x39 {
        Some(b - 0x30 + 52)
    } else if b == 0x2b {
        Some(62)
    } else if b == 0x2f {
        Some(63)
    } else {
        None
    }
}

/// The symbols for `data`: three bytes give four symbols, high bits first; what is
/// left at the end is filled with zero bits and padding.
pub open spec fn encoded(data: Seq<u8>) -> Seq<u8>
    decreases data.len(),
{
    if data.len() == 0 {
        seq![]
    } else if data.len() == 1 {
        seq![symbol((data[0] / 4) as int), symbol(data[0] % 4 * 16), PADDING, PADDING]
    } else if data.len() == 2 {
        seq![
            symbol((data[0] / 4) as int),
            symbol(data[0] % 4 * 16 + data[1] / 16),
            symbol(data[1] % 16 * 4),
            PADDING,
        ]
    } else {
        seq![
            symbol((data[0] / 4) as int),
            symbol(data[0] % 4 * 16 + data[1] / 16),
            symbol(data[1] % 16 * 4 + data[2] / 64),
            symbol((data[2] % 64) as int),
        ] + encoded(data.skip(3))
    }
}

/// Bytes below 0x80 as the characters they stand for.
pub open spec fn ascii_text(bytes: Seq<u8>) -> Seq<char> {
    Seq::new(bytes.len(), |i: int| bytes[i] as char)
}

/// The bytes that the group of four symbols at `pos` stands for.
///
/// The first two symbols must be in the alphabet; padding may replace the last one
/// or the last two, in the last group only. Bits that padding cuts off are dropped.
pub open spec fn group(s: Seq<u8>, pos: int) -> Result<Seq<u8>, DecodeError> {
    let last = pos + 4 == s.len();
    match (symbol_value(s[pos]), symbol_value(s[pos + 1])) {
        (None, _) => Err(DecodeError::InvalidByte(pos as usize, s[pos])),
        (_, None) => Err(DecodeError::InvalidByte((pos + 1) as usize, s[pos + 1])),
        (Some(a), Some(b)) => {
            let first = (a * 4 + b / 16) as u8;
            if s[pos + 2] == PADDING {
                if last && s[pos + 3] == PADDING {
                    Ok(seq![first])
                } else {
                    Err(DecodeError::InvalidPadding)
                }
            } else {
                match symbol_value(s[pos + 2]) {
                    None => Err(DecodeError::InvalidByte((pos + 2) as usize, s[pos + 2])),
                    Some(c) => {
                        let second = (b % 16 * 16 + c / 4) as u8;
                        if s[pos + 3] == PADDING {
                            if last {
                                Ok(seq![first, second])
                            } else {
                                Err(DecodeError::InvalidPadding)
                            }
                        } else {
                            match symbol_value(s[pos + 3]) {
                                None => Err(
                                    DecodeError::InvalidByte((pos + 3) as usize, s[pos + 3]),
                                ),
                                Some(d) => Ok(seq![first, second, (c % 4 * 64 + d) as u8]),
                            }
                        }
                    },
                }
            }
        },
    }
}

/// What the groups from `pos` on stand for; the first faulty group decides.
pub open spec fn decoded_from(s: Seq<u8>, pos: int) -> Result<Seq<u8>, DecodeError>
    decreases s.len() - pos,
{
    if pos + 4 > s.len() {
        Ok(seq![])
    } else {
        match group(s, pos) {
            Err(e) => Err(e),
            Ok(bytes) => match decoded_from(s, pos + 4) {
                Err(e) => Err(e),
                Ok(rest) => Ok(bytes + rest),
            },
        }
    }
}

/// What a base64 text stands for.
pub open spec fn decoded(s: Seq<u8>) -> Result<Seq<u8>, DecodeError> {
    if s.len() % 4 != 0 {
        Err(DecodeError::InvalidLength)
    } else {
        decoded_from(s, 0)
    }
}

fn symbol_of(v: u8) -> (b: u8)
    requires
        v < 64,
    ensures
        b == symbol(v as int),
        b < 0x80,
{
    if v < 26 {
        0x41 + v
    } else if v < 52 {
        0x61 + (v - 26)
    } else if v < 62 {
        0x30 + (v - 52)
    } else if v == 62 {
        0x2b
    } else {
        0x2f
    }
}

fn value_of(b: u8) -> (v: Option<u8>)
    ensures
        match v {
            Some(x) => x < 64 && symbol_value(b) == Some(x as int),
            None => symbol_value(b) is None,
        },
{
    if 0x41 <= b && b <= 0x5a {
        Some(b - 0x41)
    } else if 0x61 <= b && b <= 0x7a {
        Some(b - 0x61 + 26)
    } else if 0x30 <= b && b <= 0x39 {
        Some(b - 0x30 + 52)
    } else if b == 0x2b {
        Some(62)
    } else if b == 0x2f {
        Some(63)
    } else {
        None
    }
}

fn push_symbol(out: &mut String, v: u8)
    requires
        v < 64,
    ensures
        final(out)@ == old(out)@.push(symbol(v as int) as char),
{
    out.push(symbol_of(v) as char);
}

/// Encodes the given data as base64, standard alphabet (`+` and `/`), with padding.
pub fn encode(data: &[u8]) -> (text: String)
    ensures
        text@ == ascii_text(encoded(data@)),
{
    let mut out: String = String::new();
    let mut i: usize = 0;
    proof {
        assert(data@.skip(0) =~= data@);
        assert(ascii_text(encoded(data@)) =~= out@ + ascii_text(encoded(data@.skip(0))));
    }
    while data.len() - i >= 3
        invariant
            i <= data.len(),
            ascii_text(encoded(data@)) == out@ + ascii_text(encoded(data@.skip(i as int))),
        decreases data.len() - i,
    {
        let ghost before = out@;
        let ghost rest = data@.skip(i as int);
        let a: u8 = data[i];
        let b: u8 = data[i + 1];
        let c: u8 = data[i + 2];
        push_symbol(&mut out, a / 4);
        push_symbol(&mut out, a % 4 * 16 + b / 16);
        push_symbol(&mut out, b % 16 * 4 + c / 64);
        push_symbol(&mut out, c % 64);
        proof {
            assert(rest.skip(3) =~= data@.skip(i + 3));
            assert(before + ascii_text(encoded(rest)) =~= out@ + ascii_text(
                encoded(rest.skip(3)),
            ));
        }
        i = i + 3;
    }
    let ghost before = out@;
    let ghost rest = data@.skip(i as int);
    if data.len() - i == 2 {
        let a: u8 = data[i];
        let b: u8 = data[i + 1];
        push_symbol(&mut out, a / 4);
        push_symbol(&mut out, a % 4 * 16 + b / 16);
        push_symbol(&mut out, b % 16 * 4);
        out.push(PADDING as char);
    } else if data.len() - i == 1 {
        let a: u8 = data[i];
        push_symbol(&mut out, a / 4);
        push_symbol(&mut out, a % 4 * 16);
        out.push(PADDING as char);
        out.push(PADDING as char);
    }
    assert(before + ascii_text(encoded(rest)) =~= out@);
    out
}

/// Reads the group of four symbols at `i` and appends the bytes that it stands for.
fn decode_group(bytes: &[u8], i: usize, output: &mut Vec<u8>) -> (r: Result<(), DecodeError>)
    requires
        i + 4 <= bytes@.len(),
    ensures
        match r {
            Ok(_) => group(bytes@, i as int) matches Ok(g) && final(output)@ == old(output)@ + g,
            Err(e) => group(bytes@, i as int) == Err::<Seq<u8>, DecodeError>(e),
        },
{
    let ghost before = output@;
    let last: bool = bytes.len() - i == 4;
    // These can never be padding in a valid string
    let a: u8 = match value_of(bytes[i]) {
        Some(v) => v,
        None => return Err(DecodeError::InvalidByte(i, bytes[i])),
    };
    let b: u8 = match value_of(bytes[i + 1]) {
        Some(v) => v,
        None => return Err(DecodeError::InvalidByte(i + 1, bytes[i + 1])),
    };
    output.push(a * 4 + b / 16);
    if bytes[i + 2] == PADDING {
        // We must be at the very end
        if !last || bytes[i + 3] != PADDING {
            return Err(DecodeError::InvalidPadding);
        }
        assert(output@ =~= before + seq![(a * 4 + b / 16) as u8]);
        return Ok(());
    }
    let c: u8 = match value_of(bytes[i + 2]) {
        Some(v) => v,
        None => return Err(DecodeError::InvalidByte(i + 2, bytes[i + 2])),
    };
    output.push(b % 16 * 16 + c / 4);
    if bytes[i + 3] == PADDING {
        if !last {
            return Err(DecodeError::InvalidPadding);
        }
        assert(output@ =~= before + seq![(a * 4 + b / 16) as u8, (b % 16 * 16 + c / 4) as u8]);
        return Ok(());
    }
    let d: u8 = match value_of(bytes[i + 3]) {
        Some(v) => v,
        None => return Err(DecodeError::InvalidByte(i + 3, bytes[i + 3])),
    };
    output.push(c % 4 * 64 + d);
    proof {
        let x = (a * 4 + b / 16) as u8;
        let y = (b % 16 * 16 + c / 4) as u8;
        let z = (c % 4 * 64 + d) as u8;
        assert(output@ =~= before + seq![x, y, z]);
    }
    Ok(())
}

/// Decodes a base64 text, or says what is wrong with it.
pub fn decode(input: &str) -> (r: Result<Vec<u8>, DecodeError>)
    ensures
        match r {
            Ok(v) => decoded(encode_utf8(input@)) == Ok::<Seq<u8>, DecodeError>(v@),
            Err(e) => decoded(encode_utf8(input@)) == Err::<Seq<u8>, DecodeError>(e),
        },
{
    let bytes: &[u8] = input.as_bytes();
    let ghost s = bytes@;
    // Must strictly be a multiple of 4... for us anyway
    if bytes.len() % 4 != 0 {
        return Err(DecodeError::InvalidLength);
    }
    let mut output: Vec<u8> = Vec::new();
    let mut i: usize = 0;
    let ghost n = s.len() / 4;
    let ghost mut k: nat = 0;
    assert(leads_to(s, 0, output@)) by {
        if let Ok(rest) = decoded_from(s, 0) {
            assert(output@ + rest =~= rest);
        }
    }
    while i < bytes.len()
        invariant
            s == bytes@,
            s == encode_utf8(input@),
            s.len() == 4 * n,
            i == 4 * k,
            k <= n,
            leads_to(s, i as int, output@),
        decreases n - k,
    {
        let ghost before = output@;
        match decode_group(bytes, i, &mut output) {
            Ok(_) => {
                proof {
                    lemma_leads_on(s, i as int, before);
                    k = k + 1;
                }
                i = i + 4;
            },
            Err(e) => return Err(e),
        }
    }
    assert(output@ + Seq::<u8>::empty() =~= output@);
    Ok(output)
}

/// What was read up to `pos` is `done`.
spec fn leads_to(s: Seq<u8>, pos: int, done: Seq<u8>) -> bool {
    decoded_from(s, 0) == match decoded_from(s, pos) {
        Ok(rest) => Ok(done + rest),
        Err(e) => Err(e),
    }
}

proof fn lemma_leads_on(s: Seq<u8>, pos: int, done: Seq<u8>)
    requires
        leads_to(s, pos, done),
        0 <= pos,
        pos + 4 <= s.len(),
        group(s, pos) is Ok,
    ensures
        leads_to(s, pos + 4, done + group(s, pos)->Ok_0),
{
    let g = group(s, pos)->Ok_0;
    if let Ok(rest) = decoded_from(s, pos + 4) {
        assert(done + (g + rest) =~= done + g + rest);
    }
}

proof fn lemma_symbol_value(v: int)
    requires
        0 <= v < 64,
    ensures
        symbol_value(symbol(v)) == Some(v),
        symbol(v) != PADDING,
        symbol(v) < 0x80,
{
}

proof fn lemma_encoded_ascii(data: Seq<u8>)
    ensures
        encoded(data).len() % 4 == 0,
        forall|i: int| 0 <= i < encoded(data).len() ==> #[trigger] encoded(data)[i] < 0x80,
    decreases data.len(),
{
    if data.len() == 1 {
        lemma_symbol_value((data[0] / 4) as int);
        lemma_symbol_value(data[0] % 4 * 16);
    } else if data.len() == 2 {
        lemma_symbol_value((data[0] / 4) as int);
        lemma_symbol_value(data[0] % 4 * 16 + data[1] / 16);
        lemma_symbol_value(data[1] % 16 * 4);
    } else if data.len() >= 3 {
        lemma_symbol_value((data[0] / 4) as int);
        lemma_symbol_value(data[0] % 4 * 16 + data[1] / 16);
        lemma_symbol_value(data[1] % 16 * 4 + data[2] / 64);
        lemma_symbol_value((data[2] % 64) as int);
        let head = seq![
            symbol((data[0] / 4) as int),
            symbol(data[0] % 4 * 16 + data[1] / 16),
            symbol(data[1] % 16 * 4 + data[2] / 64),
            symbol((data[2] % 64) as int),
        ];
        let tail = encoded(data.skip(3));
        lemma_encoded_ascii(data.skip(3));
        assert forall|i: int| 0 <= i < encoded(data).len() implies #[trigger] encoded(
            data,
        )[i] < 0x80 by {
            if i < 4 {
                assert(encoded(data)[i] == head[i]);
            } else {
                assert(encoded(data)[i] == tail[i - 4]);
            }
        }
    }
}

proof fn lemma_decoded_shift(head: Seq<u8>, tail: Seq<u8>, pos: int)
    requires
        head.len() == 4,
        0 <= pos <= tail.len(),
        decoded_from(tail, pos) is Ok,
        tail.len() % 4 == 0,
        pos % 4 == 0,
    ensures
        decoded_from(head + tail, pos + 4) == decoded_from(tail, pos),
    decreases tail.len() - pos,
{
    if pos < tail.len() {
        assert(group(head + tail, pos + 4) == group(tail, pos));
        lemma_decoded_shift(head, tail, pos + 4);
    }
}

proof fn lemma_group_full(e: Seq<u8>, a: u8, b: u8, c: u8)
    requires
        e.len() >= 4,
        e[0] == symbol((a / 4) as int),
        e[1] == symbol(a % 4 * 16 + b / 16),
        e[2] == symbol(b % 16 * 4 + c / 64),
        e[3] == symbol((c % 64) as int),
    ensures
        group(e, 0) == Ok::<Seq<u8>, DecodeError>(seq![a, b, c]),
{
    lemma_symbol_value((a / 4) as int);
    lemma_symbol_value(a % 4 * 16 + b / 16);
    lemma_symbol_value(b % 16 * 4 + c / 64);
    lemma_symbol_value((c % 64) as int);
}

proof fn lemma_group_two(e: Seq<u8>, a: u8, b: u8)
    requires
        e.len() == 4,
        e[0] == symbol((a / 4) as int),
        e[1] == symbol(a % 4 * 16 + b / 16),
        e[2] == symbol(b % 16 * 4),
        e[3] == PADDING,
    ensures
        group(e, 0) == Ok::<Seq<u8>, DecodeError>(seq![a, b]),
{
    lemma_symbol_value((a / 4) as int);
    lemma_symbol_value(a % 4 * 16 + b / 16);
    lemma_symbol_value(b % 16 * 4);
}

proof fn lemma_group_one(e: Seq<u8>, a: u8)
    requires
        e.len() == 4,
        e[0] == symbol((a / 4) as int),
        e[1] == symbol(a % 4 * 16),
        e[2] == PADDING,
        e[3] == PADDING,
    ensures
        group(e, 0) == Ok::<Seq<u8>, DecodeError>(seq![a]),
{
    lemma_symbol_value((a / 4) as int);
    lemma_symbol_value(a % 4 * 16);
}

proof fn lemma_decoded_encoded(data: Seq<u8>)
    ensures
        decoded_from(encoded(data), 0) == Ok::<Seq<u8>, DecodeError>(data),
    decreases data.len(),
{
    let e = encoded(data);
    if data.len() == 0 {
        assert(data =~= seq![]);
    } else if data.len() == 1 {
        lemma_group_one(e, data[0]);
        assert(decoded_from(e, 4) == Ok::<Seq<u8>, DecodeError>(seq![]));
        assert(seq![data[0]] + Seq::<u8>::empty() =~= data);
    } else if data.len() == 2 {
        lemma_group_two(e, data[0], data[1]);
        assert(decoded_from(e, 4) == Ok::<Seq<u8>, DecodeError>(seq![]));
        assert(seq![data[0], data[1]] + Seq::<u8>::empty() =~= data);
    } else {
        let tail = data.skip(3);
        lemma_group_full(e, data[0], data[1], data[2]);
        lemma_decoded_encoded(tail);
        lemma_encoded_ascii(tail);
        let head = e.take(4);
        assert(e =~= head + encoded(tail));
        lemma_decoded_shift(head, encoded(tail), 0);
        assert(seq![data[0], data[1], data[2]] + tail =~= data);
    }
}

/// Decoding gives back what was encoded, whatever the data.
pub proof fn decode_inverts_encode(data: Seq<u8>)
    ensures
        decoded(encode_utf8(ascii_text(encoded(data)))) == Ok::<Seq<u8>, DecodeError>(data),
{
    let e = encoded(data);
    lemma_encoded_ascii(data);
    lemma_decoded_encoded(data);
    assert(vstd::utf8::is_ascii_chars(ascii_text(e)));
    vstd::utf8::is_ascii_chars_encode_utf8(ascii_text(e));
    assert(encode_utf8(ascii_text(e)) =~= e);
}

/// The number of a symbol, from zero on: capital letters, small letters, digits, `+` and `/`.
pub open spec fn sextet(c: char) -> int {
    if 'A' <= c <= 'Z' {
        c as int - 'A' as int
    } else if 'a' <= c <= 'z' {
        26 + (c as int - 'a' as int)
    } else if '0' <= c <= '9' {
        52 + (c as int - '0' as int)
    } else if c == '+' {
        62
    } else if c == '/' {
        63
    } else {
        -1
    }
}

proof fn lemma_sextet(v: int)
    requires
        0 <= v < 64,
    ensures
        sextet(symbol(v) as char) == v,
{
}

/// Three bytes and four symbols are the same bits, group by group. What is left over is filled
/// up with zeros, and with padding to four symbols.
pub proof fn symbols_spell_the_bits(data: Seq<u8>, k: int)
    requires
        0 <= k,
        3 * k < data.len(),
    ensures
        ({
            let t = ascii_text(encoded(data));
            let (a, b, c, d) = (t[4 * k], t[4 * k + 1], t[4 * k + 2], t[4 * k + 3]);
            let bits = sextet(a) * 0x40000 + sextet(b) * 0x1000;
            &&& t.len() == (data.len() + 2) / 3 * 4
            &&& 0 <= sextet(a) < 64 && 0 <= sextet(b) < 64
            &&& if 3 * k + 2 < data.len() {
                &&& 0 <= sextet(c) < 64 && 0 <= sextet(d) < 64
                &&& bits + sextet(c) * 0x40 + sextet(d) == data[3 * k] * 0x10000 + data[3 * k + 1]
                    * 0x100 + data[3 * k + 2]
            } else if 3 * k + 1 < data.len() {
                &&& 0 <= sextet(c) < 64 && d == '='
                &&& bits + sextet(c) * 0x40 == data[3 * k] * 0x10000 + data[3 * k + 1] * 0x100
            } else {
                &&& c == '=' && d == '='
                &&& bits == data[3 * k] * 0x10000
            }
        }),
    decreases k,
{
    let e = encoded(data);
    let t = ascii_text(e);
    lemma_encoded_len(data);
    if k > 0 {
        let tail = data.skip(3);
        symbols_spell_the_bits(tail, k - 1);
        lemma_encoded_len(tail);
        let u = ascii_text(encoded(tail));
        assert forall|i: int| 0 <= i < u.len() implies u[i] == t[i + 4] by {
            assert(encoded(tail)[i] == e[i + 4]);
        }
        assert(tail[3 * (k - 1)] == data[3 * k]);
        assert(t[4 * k] == u[4 * (k - 1)]);
        assert(t[4 * k + 1] == u[4 * (k - 1) + 1]);
        assert(t[4 * k + 2] == u[4 * (k - 1) + 2]);
        assert(t[4 * k + 3] == u[4 * (k - 1) + 3]);
        if 3 * k + 1 < data.len() {
            assert(tail[3 * (k - 1) + 1] == data[3 * k + 1]);
        }
        if 3 * k + 2 < data.len() {
            assert(tail[3 * (k - 1) + 2] == data[3 * k + 2]);
        }
    } else {
        let x = data[0];
        lemma_sextet((x / 4) as int);
        if data.len() == 1 {
            lemma_sextet(x % 4 * 16);
        } else {
            let y = data[1];
            lemma_sextet(x % 4 * 16 + y / 16);
            if data.len() == 2 {
                lemma_sextet(y % 16 * 4);
            } else {
                let z = data[2];
                lemma_sextet(y % 16 * 4 + z / 64);
                lemma_sextet((z % 64) as int);
            }
        }
    }
}

proof fn lemma_encoded_len(data: Seq<u8>)
    ensures
        encoded(data).len() == (data.len() + 2) / 3 * 4,
    decreases data.len(),
{
    if data.len() >= 3 {
        lemma_encoded_len(data.skip(3));
    }
}

/// The letters, the digits, `+` and `/`.
pub open spec fn is_symbol(b: u8) -> bool {
    0x41 <= b <= 0x5a || 0x61 <= b <= 0x7a || 0x30 <= b <= 0x39 || b == 0x2b || b == 0x2f
}

/// How many `=` a text ends with, up to two.
pub open spec fn pads(s: Seq<u8>) -> int {
    if s.len() < 4 || s[s.len() - 1] != 0x3d {
        0
    } else if s[s.len() - 2] != 0x3d {
        1
    } else {
        2
    }
}

proof fn lemma_accepted_from(s: Seq<u8>, pos: int)
    requires
        0 <= pos <= s.len(),
        pos % 4 == 0,
        s.len() % 4 == 0,
    ensures
        decoded_from(s, pos) is Ok <==> forall|i: int|
            pos <= i < s.len() - pads(s) ==> is_symbol(#[trigger] s[i]),
    decreases s.len() - pos,
{
    if pos + 4 <= s.len() {
        lemma_accepted_from(s, pos + 4);
        assert(is_symbol(s[pos]) == symbol_value(s[pos]) is Some);
        assert(is_symbol(s[pos + 1]) == symbol_value(s[pos + 1]) is Some);
        assert(is_symbol(s[pos + 2]) == symbol_value(s[pos + 2]) is Some);
        assert(is_symbol(s[pos + 3]) == symbol_value(s[pos + 3]) is Some);
        if decoded_from(s, pos) is Ok {
            assert forall|i: int| pos <= i < s.len() - pads(s) implies is_symbol(#[trigger] s[i]) by {
                if i >= pos + 4 {
                }
            }
        }
    }
}

/// A text is base64 exactly if it comes in fours and holds nothing but the alphabet, with at most
/// two `=` at its end.
pub proof fn only_base64_is_decoded(s: Seq<u8>)
    ensures
        decoded(s) is Ok <==> s.len() % 4 == 0 && forall|i: int|
            0 <= i < s.len() - pads(s) ==> is_symbol(#[trigger] s[i]),
        decoded(s) == Err::<Seq<u8>, DecodeError>(DecodeError::InvalidLength) <==> s.len() % 4 != 0,
{
    if s.len() % 4 == 0 {
        lemma_accepted_from(s, 0);
        lemma_not_length(s, 0);
    }
}

proof fn lemma_not_length(s: Seq<u8>, pos: int)
    requires
        0 <= pos,
    ensures
        decoded_from(s, pos) != Err::<Seq<u8>, DecodeError>(DecodeError::InvalidLength),
    decreases s.len() - pos,
{
    if pos + 4 <= s.len() {
        lemma_not_length(s, pos + 4);
    }
}

proof fn lemma_fault_from(s: Seq<u8>, pos: int)
    requires
        0 <= pos <= s.len() <= usize::MAX,
        pos % 4 == 0,
        s.len() % 4 == 0,
    ensures
        decoded_from(s, pos) matches Err(DecodeError::InvalidByte(p, b)) ==> pos <= p < s.len() && s[p as int]
            == b && !is_symbol(b) && forall|i: int| pos <= i < p ==> is_symbol(#[trigger] s[i]),
    decreases s.len() - pos,
{
    if pos + 4 <= s.len() {
        lemma_fault_from(s, pos + 4);
        assert(is_symbol(s[pos]) == symbol_value(s[pos]) is Some);
        assert(is_symbol(s[pos + 1]) == symbol_value(s[pos + 1]) is Some);
        assert(is_symbol(s[pos + 2]) == symbol_value(s[pos + 2]) is Some);
        assert(is_symbol(s[pos + 3]) == symbol_value(s[pos + 3]) is Some);
        if let Err(DecodeError::InvalidByte(p, b)) = decoded_from(s, pos) {
            assert forall|i: int| pos <= i < p implies is_symbol(#[trigger] s[i]) by {
                if group(s, pos) is Ok && i < pos + 4 {
                    if s[pos + 2] == PADDING || s[pos + 3] == PADDING {
                        assert(pos + 4 == s.len());
                        assert(decoded_from(s, pos + 4) is Ok);
                    }
                }
            }
        }
    }
}

/// The byte that is complained of is the first one that is not in the alphabet.
pub proof fn the_first_wrong_byte_is_told(s: Seq<u8>, p: usize, b: u8)
    requires
        s.len() <= usize::MAX,
        decoded(s) == Err::<Seq<u8>, DecodeError>(DecodeError::InvalidByte(p, b)),
    ensures
        p < s.len(),
        s[p as int] == b,
        !is_symbol(b),
        forall|i: int| 0 <= i < p ==> is_symbol(#[trigger] s[i]),
{
    lemma_fault_from(s, 0);
}

/// What is decoded is encoded as the same text, but for the bits of the last symbol that padding
/// cuts off.
pub proof fn decoding_is_undone_by_encoding(s: Seq<u8>)
    requires
        decoded(s) is Ok,
    ensures
        ({
            let t = encoded(decoded(s)->Ok_0);
            &&& t.len() == s.len()
            &&& pads(t) == pads(s)
            &&& forall|i: int|
                0 <= i < s.len() && (pads(s) == 0 || i != s.len() - pads(s) - 1) ==> #[trigger] t[i]
                    == s[i]
        }),
{
    only_base64_is_decoded(s);
    lemma_encoded_again(s, 0);
    assert(s.skip(0) =~= s);
}

proof fn lemma_symbol_again(b: u8)
    ensures
        symbol_value(b) matches Some(v) ==> 0 <= v < 64 && symbol(v) == b && b != PADDING,
{
}

#[verifier::rlimit(40)]
proof fn lemma_encoded_again(s: Seq<u8>, pos: int)
    requires
        0 <= pos <= s.len(),
        pos % 4 == 0,
        s.len() % 4 == 0,
        decoded_from(s, pos) is Ok,
    ensures
        ({
            let t = encoded(decoded_from(s, pos)->Ok_0);
            &&& t.len() == s.len() - pos
            &&& pos < s.len() ==> pads(t) == pads(s)
            &&& forall|i: int|
                0 <= i < t.len() && (pads(s) == 0 || i != t.len() - pads(s) - 1) ==> #[trigger] t[i]
                    == s[pos + i]
        }),
    decreases s.len() - pos,
{
    if pos + 4 <= s.len() {
        let g = group(s, pos)->Ok_0;
        let rest = decoded_from(s, pos + 4)->Ok_0;
        let all = g + rest;
        let t = encoded(all);
        lemma_symbol_again(s[pos]);
        lemma_symbol_again(s[pos + 1]);
        lemma_symbol_again(s[pos + 2]);
        lemma_symbol_again(s[pos + 3]);
        let a = symbol_value(s[pos])->Some_0;
        let b = symbol_value(s[pos + 1])->Some_0;
        lemma_encoded_again(s, pos + 4);
        if g.len() == 3 {
            let c = symbol_value(s[pos + 2])->Some_0;
            let d = symbol_value(s[pos + 3])->Some_0;
            assert(all.skip(3) =~= rest);
            assert(all[0] == (a * 4 + b / 16) as u8);
            assert(all[1] == (b % 16 * 16 + c / 4) as u8);
            assert(all[2] == (c % 4 * 64 + d) as u8);
            assert(all[0] / 4 == a && all[0] % 4 * 16 + all[1] / 16 == b);
            assert(all[1] % 16 * 4 + all[2] / 64 == c && all[2] % 64 == d);
            let u = encoded(rest);
            assert(t =~= seq![s[pos], s[pos + 1], s[pos + 2], s[pos + 3]] + u);
            assert forall|i: int|
                0 <= i < t.len() && (pads(s) == 0 || i != t.len() - pads(s) - 1) implies #[trigger] t[i]
                == s[pos + i] by {
                if i >= 4 {
                    assert(t[i] == u[i - 4]);
                }
            }
            if pos + 4 < s.len() {
                assert(u.len() >= 4);
                assert(t[t.len() - 1] == u[u.len() - 1] && t[t.len() - 2] == u[u.len() - 2]);
            } else {
                assert(u.len() == 0);
            }
        } else {
            assert(pos + 4 == s.len());
            assert(rest =~= seq![]);
            assert(all =~= g);
            if g.len() == 2 {
                let c = symbol_value(s[pos + 2])->Some_0;
                assert(all[0] / 4 == a && all[0] % 4 * 16 + all[1] / 16 == b);
                assert(t[2] == symbol(all[1] % 16 * 4));
            } else {
                assert(all[0] / 4 == a);
                assert(t[1] == symbol(all[0] % 4 * 16));
            }
        }
    } else {
        assert(decoded_from(s, pos)->Ok_0 =~= seq![]);
    }
}

} // verus!
