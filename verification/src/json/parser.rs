//! A fully-featured JSON parser.
//!
//! Spec: <https://www.json.org/json-en.html>
use crate::json::error::{Error, Fault, Kind, UnicodeError};
use crate::json::grammar::{
    array, bare_value, boolean, digits, document, escape_sequence, exponent, fractional, hex, integral, invalid,
    is_digit, is_space, items, lemma_bare_value_at, lemma_pending_piece_at, lemma_spaces_at, lemma_string_at,
    lemma_value_at, members, more, multi_byte, next, null, number, object, partner, peek, pending_piece, piece,
    room, spaces, string, string_rest, utf8_width, value, word, At, Input, Outcome, MAX_DEPTH,
};
use crate::json::value::{lemma_array_view, models, Json, Number, Object, Value};
use vstd::prelude::*;
use vstd::string::StringExecFns;

verus! {

/// A JSON value, or why there is none.
pub type ParseResult<T> = Result<T, Error>;

/// A fully-featured JSON parser.
#[derive(Debug)]
pub struct Parser<'a> {
    data: &'a [u8],
    /// Why there is nothing to read behind the data, if not because it is the end.
    failure: Option<String>,
    /// The next byte to read.
    cursor: usize,
    /// Bytes read from stream so far.
    stream_pos: usize,
    /// When processing UTF16 JSON escapes like `\u1234` in JSON strings, surrogate
    /// pairs might be encountered. This slot tracks encountered high surrogates,
    /// pending pairing with a subsequent low surrogate (at which point the slot is
    /// cleared again).
    pending_high_surrogate: Option<u16>,
    /// Current stack depth in parsing values (in nested arrays, objects). Prevents
    /// stack overflows in the parser (best-effort, as we can't know host stack sizes).
    depth: usize,
}

/// An executable outcome says what the mathematical one does.
pub open spec fn same<T: View>(r: ParseResult<T>, o: Outcome<T::V>, at: At) -> bool {
    match r {
        Ok(v) => o == Ok::<(T::V, At), (Fault, At)>((v@, at)),
        Err(e) => o == Err::<(T::V, At), (Fault, At)>((e.kind@, at)) && e.pos == at.pos,
    }
}

impl<'a> Parser<'a> {
    /// What there is to read.
    pub closed spec fn input(&self) -> Input {
        Input {
            bytes: self.data@,
            failure: match self.failure {
                Some(m) => Some(m@),
                None => None,
            },
        }
    }

    /// How far reading has come.
    pub closed spec fn at(&self) -> At {
        At {
            cur: self.cursor as nat,
            pos: self.stream_pos as nat,
            depth: self.depth as nat,
            pending: self.pending_high_surrogate,
        }
    }

    #[verifier::type_invariant]
    spec fn inside(&self) -> bool {
        &&& self.stream_pos <= self.cursor <= self.data@.len()
        &&& self.pending_high_surrogate matches Some(high) ==> 0xd800 <= high <= 0xdbff
    }

    /// Constructs a new parser over the data.
    pub fn new(data: &'a [u8]) -> (p: Parser<'a>)
        ensures
            p.input() == (Input { bytes: data@, failure: None }),
            p.at() == (At { cur: 0, pos: 0, depth: 0, pending: None }),
    {
        Parser {
            data,
            failure: None,
            cursor: 0,
            stream_pos: 0,
            pending_high_surrogate: None,
            depth: 0,
        }
    }

    /// Constructs a new parser over data behind which reading fails.
    pub fn with_failure(data: &'a [u8], failure: String) -> (p: Parser<'a>)
        ensures
            p.input() == (Input { bytes: data@, failure: Some(failure@) }),
            p.at() == (At { cur: 0, pos: 0, depth: 0, pending: None }),
    {
        Parser {
            data,
            failure: Some(failure),
            cursor: 0,
            stream_pos: 0,
            pending_high_surrogate: None,
            depth: 0,
        }
    }

    /// Entrypoint into parsing. Will try to parse the input as a [JSON
    /// *value*](https://www.json.org/json-en.html).
    pub fn parse(&mut self) -> (r: ParseResult<Value>)
        requires
            old(self).at().depth < usize::MAX,
        ensures
            final(self).input() == old(self).input(),
            same(r, document(old(self).input(), old(self).at()), final(self).at()),
    {
        let v: Value = match self.visit_value() {
            Ok(v) => v,
            Err(e) => return Err(e),
        };
        // Multi-value documents are not supported: additional data in the stream is a
        // failure.
        //
        // Note, this technically reads one byte too much from the input, for a nicer
        // report ("which byte was actually problematic"). As we return the byte to the
        // caller in the error, this should be OK (caller can reconstruct everything).
        proof {
            use_type_invariant(&*self);
        }
        if self.cursor < self.data.len() {
            let more: u8 = self.data[self.cursor];
            self.cursor = self.cursor + 1;
            let reason: String =
                "excessive data in input after parsing one JSON value".to_owned();
            return Err(self.err(Kind::InvalidByte { byte: more, reason }));
        }
        match &self.failure {
            Some(m) => {
                let kind: Kind = Kind::Io(m.clone());
                Err(self.err(kind))
            },
            None => Ok(v),
        }
    }

    /// Get the next byte from the underlying data. Calling this method signals a
    /// *need* for a next byte, thus if none is found, it is considered an error.
    fn advance(&mut self) -> (r: ParseResult<u8>)
        ensures
            final(self).input() == old(self).input(),
            same(r, next(old(self).input(), old(self).at()), final(self).at()),
            r is Ok ==> final(self).depth == old(self).depth,
            r is Err ==> *final(self) == *old(self),
    {
        proof {
            use_type_invariant(&*self);
        }
        if self.cursor < self.data.len() {
            let byte: u8 = self.data[self.cursor];
            self.cursor = self.cursor + 1;
            self.stream_pos = self.stream_pos + 1;
            return Ok(byte);
        }
        let kind: Kind = match &self.failure {
            Some(m) => Kind::Io(m.clone()),
            None => Kind::UnexpectedEOF,
        };
        Err(self.err(kind))
    }

    /// The next byte, without reading it.
    fn peek_byte(&self) -> (b: Option<u8>)
        ensures
            b == peek(self.input(), self.at()),
            b is Some ==> self.cursor < self.data.len(),
    {
        if self.cursor < self.data.len() {
            Some(self.data[self.cursor])
        } else {
            None
        }
    }

    /// Construct an error of the provided kind, with information from current parser
    /// state.
    fn err(&self, kind: Kind) -> (e: Error)
        ensures
            e.kind == kind,
            e.pos == self.at().pos,
    {
        Error { kind, pos: self.stream_pos }
    }

    /// Skips all upcoming whitespace, if present.
    fn skip_whitespace(&mut self)
        ensures
            final(self).input() == old(self).input(),
            final(self).at() == spaces(old(self).input(), old(self).at()),
            final(self).depth == old(self).depth,
    {
        loop
            invariant
                self.input() == old(self).input(),
                self.depth == old(self).depth,
                spaces(self.input(), self.at()) == spaces(old(self).input(), old(self).at()),
            ensures
                self.input() == old(self).input(),
                self.depth == old(self).depth,
                self.at() == spaces(old(self).input(), old(self).at()),
            decreases self.data@.len() - self.cursor,
        {
            proof {
                use_type_invariant(&*self);
            }
            match self.peek_byte() {
                Some(b) => {
                    if !is_json_whitespace(b) {
                        break;
                    }
                    // Actually consume it.
                    self.cursor = self.cursor + 1;
                    self.stream_pos = self.stream_pos + 1;
                },
                None => {
                    break;
                },
            }
        }
    }

    fn visit_value(&mut self) -> (r: ParseResult<Value>)
        requires
            old(self).at().depth < usize::MAX,
        ensures
            final(self).input() == old(self).input(),
            same(r, value(old(self).input(), old(self).at()), final(self).at()),
        decreases room(old(self).at()), 0int,
    {
        proof {
            use_type_invariant(&*self);
        }
        self.depth = self.depth + 1;
        if self.depth > MAX_DEPTH {
            let kind: Kind = Kind::NestingTooDeep(self.depth);
            return Err(self.err(kind));
        }
        self.skip_whitespace();
        proof {
            lemma_bare_value_at(self.input(), self.at());
        }
        let val: Value = match self.visit_bare_value() {
            Ok(v) => v,
            Err(e) => return Err(e),
        };
        proof {
            lemma_spaces_at(self.input(), self.at());
        }
        self.skip_whitespace();
        proof {
            use_type_invariant(&*self);
        }
        self.depth = self.depth - 1;
        Ok(val)
    }

    fn visit_bare_value(&mut self) -> (r: ParseResult<Value>)
        requires
            old(self).at().depth <= MAX_DEPTH,
        ensures
            final(self).input() == old(self).input(),
            same(r, bare_value(old(self).input(), old(self).at()), final(self).at()),
        decreases room(old(self).at()), 2int,
    {
        // Peek ahead, but leave actual token consumption to implementations themselves.
        // This keeps it symmetrical. The individual functions are essentially the
        // diagrams at <https://www.json.org/json-en.html>, where e.g. `object` is
        // responsible for its own `{` and `}` handling.
        match self.peek_byte() {
            None => Err(self.err(Kind::UnexpectedEOF)),
            Some(byte) => {
                if byte == 0x22 {
                    match self.visit_string() {
                        Ok(s) => Ok(Value::String(s)),
                        Err(e) => Err(e),
                    }
                } else if byte == 0x7b {
                    match self.visit_object() {
                        Ok(m) => Ok(Value::Object(m)),
                        Err(e) => Err(e),
                    }
                } else if byte == 0x5b {
                    match self.visit_array() {
                        Ok(a) => {
                            proof {
                                lemma_array_view(a);
                            }
                            Ok(Value::Array(a))
                        },
                        Err(e) => Err(e),
                    }
                } else if byte == 0x74 || byte == 0x66 {
                    match self.visit_bool() {
                        Ok(b) => Ok(Value::Bool(b)),
                        Err(e) => Err(e),
                    }
                } else if byte == 0x6e {
                    match self.visit_null() {
                        Ok(_) => Ok(Value::Null),
                        Err(e) => Err(e),
                    }
                } else if byte == 0x2d || (0x30 <= byte && byte <= 0x39) {
                    match self.visit_number() {
                        Ok(n) => Ok(Value::Number(n)),
                        Err(e) => Err(e),
                    }
                } else {
                    let reason: String = "invalid byte looking for beginning of value".to_owned();
                    Err(self.err(Kind::InvalidByte { byte, reason }))
                }
            },
        }
    }

    fn visit_object(&mut self) -> (r: ParseResult<Object>)
        requires
            old(self).at().depth <= MAX_DEPTH,
            peek(old(self).input(), old(self).at()) == Some(0x7bu8),
        ensures
            final(self).input() == old(self).input(),
            same(r, object(old(self).input(), old(self).at()), final(self).at()),
        decreases room(old(self).at()), 1int,
    {
        let ghost input = self.input();
        let ghost start = self.at();
        // Only reachable from visiting a value, where the brace was peeked.
        match self.advance() {
            Ok(_) => {},
            Err(e) => return Err(e),
        }
        self.skip_whitespace();
        let mut map: Object = Object::new();
        // Early return for empty object
        if let Some(0x7d) = self.peek_byte() {
            match self.advance() {
                Ok(_) => return Ok(map),
                Err(e) => return Err(e),
            }
        }
        loop
            invariant
                self.input() == input,
                self.at().depth == start.depth,
                start.depth <= MAX_DEPTH,
                start == old(self).at(),
                input == old(self).input(),
                object(input, start) == members(input, self.at(), map@),
            decreases self.data@.len() - self.cursor,
        {
            let ghost here = self.at();
            proof {
                use_type_invariant(&*self);
                lemma_string_at(input, here);
            }
            let key: String = match self.visit_string() {
                Ok(k) => k,
                Err(e) => return Err(e),
            };
            proof {
                lemma_spaces_at(input, self.at());
            }
            self.skip_whitespace();
            match self.advance() {
                Ok(byte) => {
                    if byte != 0x3a {
                        let reason: String = "parsing object, expected : after key".to_owned();
                        return Err(self.err(Kind::InvalidByte { byte, reason }));
                    }
                },
                Err(e) => return Err(e),
            }
            proof {
                lemma_value_at(input, self.at());
            }
            let v: Value = match self.visit_value() {
                Ok(v) => v,
                Err(e) => return Err(e),
            };
            map.insert(key, v);
            match self.advance() {
                Ok(byte) => {
                    if byte == 0x7d {
                        return Ok(map);
                    }
                    if byte != 0x2c {
                        let reason: String =
                            "parsing object, expected } or , after parsing a key/value pair".to_owned();
                        return Err(self.err(Kind::InvalidByte { byte, reason }));
                    }
                    proof {
                        lemma_spaces_at(input, self.at());
                    }
                    self.skip_whitespace();
                },
                Err(e) => return Err(e),
            }
        }
    }

    fn visit_string(&mut self) -> (r: ParseResult<String>)
        ensures
            final(self).input() == old(self).input(),
            same(r, string(old(self).input(), old(self).at()), final(self).at()),
    {
        let ghost input = self.input();
        let ghost start = self.at();
        match self.advance() {
            Ok(byte) => {
                if byte != 0x22 {
                    let reason: String = "expected \" for start of string".to_owned();
                    return Err(self.err(Kind::InvalidByte { byte, reason }));
                }
            },
            Err(e) => return Err(e),
        }
        let mut s: String = String::new();
        loop
            invariant
                self.input() == input,
                input == old(self).input(),
                start == old(self).at(),
                string(input, start) == string_rest(input, self.at(), s@),
            decreases self.data@.len() - self.cursor,
        {
            let ghost here = self.at();
            let ghost before = s@;
            proof {
                use_type_invariant(&*self);
                lemma_pending_piece_at(input, here);
            }
            if let Some(high) = self.pending_high_surrogate {
                // A pending high surrogate is invalid without a subsequent low
                // surrogate.
                match self.visit_low_surrogate(high) {
                    Ok(c) => {
                        s.push(c);
                    },
                    Err(e) => return Err(e),
                }
            }
            match self.visit_piece(&mut s) {
                Ok(ends) => {
                    proof {
                        let p = pending_piece(input, here)->Ok_0.0;
                        assert(s@ =~= before + p.adds);
                    }
                    if ends {
                        return Ok(s);
                    }
                },
                Err(e) => return Err(e),
            }
        }
    }

    /// Reads the low surrogate that belongs to the high surrogate in front of it.
    fn visit_low_surrogate(&mut self, high: u16) -> (r: ParseResult<char>)
        requires
            0xd800 <= high <= 0xdbff,
        ensures
            final(self).input() == old(self).input(),
            same(r, partner(old(self).input(), old(self).at(), high), final(self).at()),
    {
        let b1: u8 = match self.advance() {
            Ok(b) => b,
            Err(e) => return Err(e),
        };
        let b2: u8 = match self.advance() {
            Ok(b) => b,
            Err(e) => return Err(e),
        };
        if b1 != 0x5c || b2 != 0x75 {
            return Err(
                self.err(Kind::UnicodeError(UnicodeError::UnpairedHighSurrogate(high))),
            );
        }
        let low: u16 = match self.collect_unicode_escape_hex_digits() {
            Ok(v) => v,
            Err(e) => return Err(e),
        };
        if low < 0xdc00 || low > 0xdfff {
            return Err(self.err(Kind::UnicodeError(UnicodeError::InvalidUTF16(high))));
        }
        let u: u32 = 0x10000 + (high as u32 - 0xd800) * 0x400 + (low as u32 - 0xdc00);
        proof {
            use_type_invariant(&*self);
        }
        self.pending_high_surrogate = None;
        match std::char::from_u32(u) {
            Some(c) => {
                proof {
                    vstd::utf8::char_u32_cast(c, u);
                }
                Ok(c)
            },
            None => {
                assert(false);
                Err(self.err(Kind::UnexpectedEOF))
            },
        }
    }

    /// Reads one piece of a string into `s`, and says whether it was the end.
    fn visit_piece(&mut self, s: &mut String) -> (r: ParseResult<bool>)
        ensures
            final(self).input() == old(self).input(),
            match r {
                Ok(ends) => piece(old(self).input(), old(self).at()) matches Ok((p, at)) && p.ends
                    == ends && final(s)@ == old(s)@ + p.adds && at == final(self).at(),
                Err(e) => piece(old(self).input(), old(self).at()) matches Err((k, at)) && k
                    == e.kind@ && at == final(self).at() && e.pos == at.pos,
            },
    {
        let ghost before = s@;
        let byte: u8 = match self.advance() {
            Ok(b) => b,
            Err(e) => return Err(e),
        };
        if byte == 0x22 {
            assert(s@ =~= before + seq![]);
            Ok(true)
        } else if byte == 0x5c {
            match self.visit_escape(s) {
                Ok(_) => Ok(false),
                Err(e) => Err(e),
            }
        } else if byte <= 0x1f {
            let reason: String = "unescaped control character".to_owned();
            Err(self.err(Kind::InvalidByte { byte, reason }))
        } else if byte <= 0x7f {
            s.push(byte as char);  // ASCII: encoding == codepoint
            assert(s@ =~= before + seq![byte as char]);
            Ok(false)
        } else {
            match self.visit_multi_byte(byte, s) {
                Ok(_) => Ok(false),
                Err(e) => Err(e),
            }
        }
    }

    /// Reads what stands behind a backslash into `s`.
    fn visit_escape(&mut self, s: &mut String) -> (r: ParseResult<()>)
        ensures
            final(self).input() == old(self).input(),
            match r {
                Ok(_) => escape_sequence(old(self).input(), old(self).at()) matches Ok((adds, at))
                    && final(s)@ == old(s)@ + adds && at == final(self).at(),
                Err(e) => escape_sequence(old(self).input(), old(self).at()) matches Err((k, at))
                    && k == e.kind@ && at == final(self).at() && e.pos == at.pos,
            },
    {
        let ghost before = s@;
        let byte: u8 = match self.advance() {
            Ok(b) => b,
            Err(e) => return Err(e),
        };
        let c: char = if byte == 0x22 {
            '"'
        } else if byte == 0x5c {
            '\\'
        } else if byte == 0x2f {
            '/'
        } else if byte == 0x62 {
            '\u{8}'
        } else if byte == 0x66 {
            '\u{c}'
        } else if byte == 0x6e {
            '\n'
        } else if byte == 0x72 {
            '\r'
        } else if byte == 0x74 {
            '\t'
        } else if byte == 0x75 {
            let codepoint: u16 = match self.collect_unicode_escape_hex_digits() {
                Ok(v) => v,
                Err(e) => return Err(e),
            };
            if 0xd800 <= codepoint && codepoint <= 0xdbff {
                // https://www.unicode.org/glossary/#high_surrogate_code_unit
                //
                // Register it but do not push out yet. Need a low surrogate partner.
                proof {
                    use_type_invariant(&*self);
                }
                self.pending_high_surrogate = Some(codepoint);
                assert(s@ =~= before + seq![]);
                return Ok(());
            }
            if 0xdc00 <= codepoint && codepoint <= 0xdfff {
                // https://www.unicode.org/glossary/#low_surrogate_code_unit
                return Err(
                    self.err(Kind::UnicodeError(UnicodeError::UnpairedLowSurrogate(codepoint))),
                );
            }
            match std::char::from_u32(codepoint as u32) {
                Some(c) => {
                    proof {
                        vstd::utf8::char_u32_cast(c, codepoint as u32);
                    }
                    c
                },
                None => {
                    assert(false);
                    ' '
                },
            }
        } else {
            return Err(self.err(Kind::InvalidEscapeSequence(byte)));
        };
        s.push(c);
        assert(s@ =~= before + seq![c]);
        Ok(())
    }

    /// Reads the rest of a character that starts with a non-ASCII byte into `s`.
    fn visit_multi_byte(&mut self, byte: u8, s: &mut String) -> (r: ParseResult<()>)
        ensures
            final(self).input() == old(self).input(),
            match r {
                Ok(_) => multi_byte(old(self).input(), old(self).at(), byte) matches Ok((adds, at))
                    && final(s)@ == old(s)@ + adds && at == final(self).at(),
                Err(e) => multi_byte(old(self).input(), old(self).at(), byte) matches Err((k, at))
                    && k == e.kind@ && at == final(self).at() && e.pos == at.pos,
            },
    {
        // Assume UTF8, and consume one code point. For pattern see
        // https://en.wikipedia.org/wiki/UTF-8#Description. Subsequent bytes are only
        // touched if the start byte actually looks OK.
        let width: usize = if byte / 32 % 2 == 0 {
            2
        } else if byte / 16 % 2 == 0 {
            3
        } else if byte / 8 % 2 == 0 {
            4
        } else {
            return Err(self.err(Kind::UnicodeError(UnicodeError::InvalidUTF8Start(byte))));
        };
        let mut bytes: Vec<u8> = Vec::new();
        bytes.push(byte);
        assert(bytes@ =~= seq![byte]);
        while bytes.len() < width
            invariant
                self.input() == old(self).input(),
                1 <= bytes@.len() <= width,
                more(old(self).input(), old(self).at(), (width - 1) as nat, seq![byte]) == more(
                    self.input(),
                    self.at(),
                    (width - bytes@.len()) as nat,
                    bytes@,
                ),
                utf8_width(byte) == Some(width as nat),
            decreases width - bytes@.len(),
        {
            match self.advance() {
                Ok(b) => {
                    bytes.push(b);
                },
                Err(e) => return Err(e),
            }
        }
        match crate::utf8::read(bytes.as_slice()) {
            Ok(text) => {
                s.append(text.as_str());
                Ok(())
            },
            Err(e) => {
                let kind: Kind = Kind::from(e);
                Err(self.err(kind))
            },
        }
    }

    fn visit_array(&mut self) -> (r: ParseResult<Vec<Value>>)
        requires
            old(self).at().depth <= MAX_DEPTH,
            peek(old(self).input(), old(self).at()) == Some(0x5bu8),
        ensures
            final(self).input() == old(self).input(),
            match r {
                Ok(a) => array(old(self).input(), old(self).at()) matches Ok((m, at)) && m
                    == models(a@) && at == final(self).at(),
                Err(e) => array(old(self).input(), old(self).at()) matches Err((k, at)) && k
                    == e.kind@ && at == final(self).at() && e.pos == at.pos,
            },
        decreases room(old(self).at()), 1int,
    {
        let ghost input = self.input();
        let ghost start = self.at();
        // Only reachable from visiting a value, where the bracket was peeked.
        match self.advance() {
            Ok(_) => {},
            Err(e) => return Err(e),
        }
        self.skip_whitespace();
        let mut items_read: Vec<Value> = Vec::new();
        assert(models(items_read@) =~= seq![]);
        // Early return for empty array
        if let Some(0x5d) = self.peek_byte() {
            match self.advance() {
                Ok(_) => return Ok(items_read),
                Err(e) => return Err(e),
            }
        }
        loop
            invariant
                self.input() == input,
                self.at().depth == start.depth,
                start.depth <= MAX_DEPTH,
                start == old(self).at(),
                input == old(self).input(),
                array(input, start) == items(input, self.at(), models(items_read@)),
            decreases self.data@.len() - self.cursor,
        {
            let ghost before = items_read@;
            proof {
                use_type_invariant(&*self);
                lemma_value_at(input, self.at());
            }
            let v: Value = match self.visit_value() {
                Ok(v) => v,
                Err(e) => return Err(e),
            };
            items_read.push(v);
            assert(models(items_read@) =~= models(before).push(v@));
            match self.advance() {
                Ok(byte) => {
                    if byte == 0x5d {
                        return Ok(items_read);
                    }
                    if byte != 0x2c {
                        let reason: String =
                            "parsing array, need ] or , after parsing an array element".to_owned();
                        return Err(self.err(Kind::InvalidByte { byte, reason }));
                    }
                },
                Err(e) => return Err(e),
            }
        }
    }

    /// Reads the bytes of a word, which all have to be there.
    fn visit_word(&mut self, expected: &[u8], scanning: &str) -> (r: ParseResult<()>)
        ensures
            final(self).input() == old(self).input(),
            same(
                r,
                word(old(self).input(), old(self).at(), expected@, 0, scanning@),
                final(self).at(),
            ),
    {
        let mut i: usize = 0;
        while i < expected.len()
            invariant
                i <= expected@.len(),
                self.input() == old(self).input(),
                word(old(self).input(), old(self).at(), expected@, 0, scanning@) == word(
                    self.input(),
                    self.at(),
                    expected@,
                    i as int,
                    scanning@,
                ),
            decreases expected@.len() - i,
        {
            let got: u8 = match self.advance() {
                Ok(b) => b,
                Err(e) => return Err(e),
            };
            if expected[i] != got {
                let mut reason: String = "expected ".to_owned();
                reason.push(expected[i] as char);
                reason.append(scanning);
                reason.push(got as char);
                assert(reason@ =~= "expected "@ + seq![expected@[i as int] as char] + scanning@
                    + seq![got as char]);
                return Err(self.err(Kind::InvalidByte { byte: got, reason }));
            }
            i = i + 1;
        }
        Ok(())
    }

    fn visit_bool(&mut self) -> (r: ParseResult<bool>)
        ensures
            final(self).input() == old(self).input(),
            same(r, boolean(old(self).input(), old(self).at()), final(self).at()),
    {
        let byte: u8 = match self.advance() {
            Ok(b) => b,
            Err(e) => return Err(e),
        };
        let truth: bool = byte == 0x74;
        let rest: Vec<u8> = if truth {
            vec![0x72u8, 0x75, 0x65]
        } else {
            vec![0x61u8, 0x6c, 0x73, 0x65]
        };
        proof {
            if truth {
                assert(rest@ =~= seq![0x72u8, 0x75, 0x65]);
            } else {
                assert(rest@ =~= seq![0x61u8, 0x6c, 0x73, 0x65]);
            }
        }
        match self.visit_word(rest.as_slice(), " scanning boolean value, got ") {
            Ok(_) => Ok(truth),
            Err(e) => Err(e),
        }
    }

    fn visit_null(&mut self) -> (r: ParseResult<()>)
        ensures
            final(self).input() == old(self).input(),
            same(r, null(old(self).input(), old(self).at()), final(self).at()),
    {
        let rest: Vec<u8> = vec![0x6eu8, 0x75, 0x6c, 0x6c];
        assert(rest@ =~= seq![0x6eu8, 0x75, 0x6c, 0x6c]);
        self.visit_word(rest.as_slice(), " scanning for null, got ")
    }

    fn visit_number(&mut self) -> (r: ParseResult<Number>)
        requires
            peek(old(self).input(), old(self).at()) matches Some(b) && (b == 0x2d || is_digit(b)),
        ensures
            final(self).input() == old(self).input(),
            same(r, number(old(self).input(), old(self).at()), final(self).at()),
    {
        let n: Number = Number(String::new());
        let n1: Number = match self.visit_number_integral_part(n) {
            Ok(n) => n,
            Err(e) => return Err(e),
        };
        let n2: Number = match self.visit_number_fractional_part(n1) {
            Ok(n) => n,
            Err(e) => return Err(e),
        };
        let n3: Number = match self.visit_number_exponent_part(n2) {
            Ok(n) => n,
            Err(e) => return Err(e),
        };
        if let Some(byte) = self.peek_byte() {
            // If there's a digit left we might have gotten a leading zero followed by
            // more digits, e.g. `01`. Without fractional or exponent parts, our parsing
            // just exits after `0`, so check.
            if 0x30 <= byte && byte <= 0x39 {
                let mut reason: String =
                    "unexpected digit remaining after processing number ('Number(\"".to_owned();
                reason.append(n3.0.as_str());
                reason.append("\")')");
                return Err(self.err(Kind::InvalidByte { byte, reason }));
            }
        }
        Ok(n3)
    }

    /// Reads digits for as long as there are any.
    fn visit_digits(&mut self, n: &mut String)
        ensures
            final(self).input() == old(self).input(),
            digits(old(self).input(), old(self).at(), old(n)@) == (final(n)@, final(self).at()),
    {
        loop
            invariant
                self.input() == old(self).input(),
                digits(old(self).input(), old(self).at(), old(n)@) == digits(
                    self.input(),
                    self.at(),
                    n@,
                ),
            ensures
                self.input() == old(self).input(),
                digits(old(self).input(), old(self).at(), old(n)@) == (n@, self.at()),
            decreases self.data@.len() - self.cursor,
        {
            proof {
                use_type_invariant(&*self);
            }
            match self.peek_byte() {
                Some(b) => {
                    if !(0x30 <= b && b <= 0x39) {
                        break;
                    }
                    n.push(b as char);
                    self.cursor = self.cursor + 1;
                    self.stream_pos = self.stream_pos + 1;
                },
                None => {
                    break;
                },
            }
        }
    }

    /// Parses the integral part ("bit before period") of a potentially fractional
    /// number. Parsing stops if no valid tokens can be consumed anymore.
    ///
    /// While objects, strings, arrays have delimiters which allow greedy fetching,
    /// numbers do not. We need to be careful not to overfetch, thus work with peeking
    /// and more manual advancing. In general, for every `push` into the number, there
    /// needs to be an advance of the reader.
    fn visit_number_integral_part(&mut self, n: Number) -> (r: ParseResult<Number>)
        ensures
            final(self).input() == old(self).input(),
            same(r, integral(old(self).input(), old(self).at(), n@), final(self).at()),
    {
        let mut text: String = n.0;
        let mut byte: u8 = match self.advance() {
            Ok(b) => b,
            Err(e) => return Err(e),
        };
        if byte == 0x2d {
            text.push('-');
            // Finding a digit is mandatory now: can't negate a non-number.
            byte = match self.advance() {
                Ok(b) => b,
                Err(e) => return Err(e),
            };
        }
        if byte == 0x30 {
            text.push('0');
            Ok(Number(text))
        } else if 0x31 <= byte && byte <= 0x39 {
            text.push(byte as char);
            // Further digits are optional, so do not overfetch.
            self.visit_digits(&mut text);
            Ok(Number(text))
        } else {
            let reason: String = "expected digit after - sign scanning number".to_owned();
            Err(self.err(Kind::InvalidByte { byte, reason }))
        }
    }

    fn visit_number_fractional_part(&mut self, n: Number) -> (r: ParseResult<Number>)
        ensures
            final(self).input() == old(self).input(),
            same(r, fractional(old(self).input(), old(self).at(), n@), final(self).at()),
    {
        let mut text: String = n.0;
        if let Some(0x2e) = self.peek_byte() {
            text.push('.');
            match self.advance() {
                Ok(_) => {},
                Err(e) => return Err(e),
            }
        } else {
            return Ok(Number(text));
        }
        // At least one digit is mandatory now.
        let byte: u8 = match self.advance() {
            Ok(b) => b,
            Err(e) => return Err(e),
        };
        if !(0x30 <= byte && byte <= 0x39) {
            let reason: String = "expected at least one digit for fractional part".to_owned();
            return Err(self.err(Kind::InvalidByte { byte, reason }));
        }
        text.push(byte as char);
        // Any further digits are optional.
        self.visit_digits(&mut text);
        Ok(Number(text))
    }

    fn visit_number_exponent_part(&mut self, n: Number) -> (r: ParseResult<Number>)
        ensures
            final(self).input() == old(self).input(),
            same(r, exponent(old(self).input(), old(self).at(), n@), final(self).at()),
    {
        let mut text: String = n.0;
        match self.peek_byte() {
            Some(b) => {
                if b != 0x65 && b != 0x45 {
                    return Ok(Number(text));
                }
            },
            None => return Ok(Number(text)),
        }
        text.push('e');  // Case doesn't matter
        match self.advance() {
            Ok(_) => {},
            Err(e) => return Err(e),
        }
        // Next token is mandatory, no peeking necessary.
        let byte: u8 = match self.advance() {
            Ok(b) => b,
            Err(e) => return Err(e),
        };
        if byte == 0x2b || byte == 0x2d {
            text.push(byte as char);
            // Also mandatory.
            let digit: u8 = match self.advance() {
                Ok(b) => b,
                Err(e) => return Err(e),
            };
            if !(0x30 <= digit && digit <= 0x39) {
                let reason: String =
                    "expected digit after sign scanning number exponent".to_owned();
                return Err(self.err(Kind::InvalidByte { byte: digit, reason }));
            }
            text.push(digit as char);
        } else if 0x30 <= byte && byte <= 0x39 {
            text.push(byte as char);
        } else {
            let reason: String = "expected digit or sign scanning number exponent".to_owned();
            return Err(self.err(Kind::InvalidByte { byte, reason }));
        }
        // Any further digits are optional.
        self.visit_digits(&mut text);
        Ok(Number(text))
    }

    /// JSON Unicode hex escapes are **required** to be 4 long.
    fn collect_unicode_escape_hex_digits(&mut self) -> (r: ParseResult<u16>)
        ensures
            final(self).input() == old(self).input(),
            match r {
                Ok(v) => hex(old(self).input(), old(self).at(), 4, 0) matches Ok((x, at)) && x == v
                    && at == final(self).at(),
                Err(e) => hex(old(self).input(), old(self).at(), 4, 0) matches Err((k, at)) && k
                    == e.kind@ && at == final(self).at() && e.pos == at.pos,
            },
    {
        self.collect_hex(4)
    }

    /// Collect `n` hex digits.
    fn collect_hex(&mut self, n: usize) -> (r: ParseResult<u16>)
        requires
            n <= 4,
        ensures
            final(self).input() == old(self).input(),
            match r {
                Ok(v) => hex(old(self).input(), old(self).at(), n as nat, 0) matches Ok((x, at))
                    && x == v && at == final(self).at(),
                Err(e) => hex(old(self).input(), old(self).at(), n as nat, 0) matches Err((k, at))
                    && k == e.kind@ && at == final(self).at() && e.pos == at.pos,
            },
    {
        let mut val: u32 = 0;
        let mut i: usize = 0;
        while i < n
            invariant
                i <= n <= 4,
                self.input() == old(self).input(),
                hex(old(self).input(), old(self).at(), n as nat, 0) == hex(
                    self.input(),
                    self.at(),
                    (n - i) as nat,
                    val as int,
                ),
                i == 0 ==> val == 0,
                i == 1 ==> val < 0x10,
                i == 2 ==> val < 0x100,
                i == 3 ==> val < 0x1000,
                val < 0x10000,
            decreases n - i,
        {
            let b: u8 = match self.advance() {
                Ok(b) => b,
                Err(e) => return Err(e),
            };
            let digit: u8 = if 0x30 <= b && b <= 0x39 {
                b - 0x30
            } else if 0x61 <= b && b <= 0x66 {
                b - 0x61 + 10
            } else if 0x41 <= b && b <= 0x46 {
                b - 0x41 + 10
            } else {
                return Err(self.err(Kind::InvalidHexCharacter(b as char)));
            };
            val = val * 16 + digit as u32;
            i = i + 1;
        }
        Ok(val as u16)
    }
}

/// Parse the provided input into a JSON [`Value`].
///
/// Short-hand for [`Parser::new`] followed by [`Parser::parse`].
pub fn parse(data: &[u8]) -> (r: ParseResult<Value>)
    ensures
        match r {
            Ok(v) => parsed(data@) == Ok::<Json, (Fault, nat)>(v@),
            Err(e) => parsed(data@) == Err::<Json, (Fault, nat)>((e.kind@, e.pos as nat)),
        },
{
    let mut parser: Parser = Parser::new(data);
    parser.parse()
}

/// The value that a whole text stands for, or what is wrong and where.
pub open spec fn parsed(text: Seq<u8>) -> Result<Json, (Fault, nat)> {
    match document(
        Input { bytes: text, failure: None },
        At { cur: 0, pos: 0, depth: 0, pending: None },
    ) {
        Ok((v, _)) => Ok(v),
        Err((k, at)) => Err((k, at.pos)),
    }
}

/// Note JSON whitespace differs from Unicode whitespace, it's a narrower definition.
fn is_json_whitespace(c: u8) -> (b: bool)
    ensures
        b == is_space(c),
{
    c == 0x20 || c == 0x0a || c == 0x0d || c == 0x09
}

} // verus!
