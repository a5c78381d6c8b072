//! Requests of clients.
use crate::assoc::{lookup, put};
use crate::decimal::{parse_u64, unsigned_value, ParseIntError};
use crate::raft::http::headers::{Fields, Headers};
use crate::raft::rpc::{ClientMessage, ClientMsg, MessageID};
use crate::text::{chars_of, str_eq};
use crate::utf8;
use crate::words::{split_at_first, split_once, split_white_space, string_of, trim, trimmed, words};
use vstd::prelude::*;
use vstd::utf8::{
    decode_utf8, encode_scalar, encode_utf8, encode_utf8_decode_utf8, encode_utf8_valid_utf8,
    leading_byte_width_1, valid_utf8,
};

verus! {

/// What to do.
#[derive(Debug, Clone, Copy, PartialEq, Eq, Structural)]
pub enum Method {
    Get,
    // A key-value store is idempotent as is PUT: https://developer.mozilla.org/en-US/docs/Web/HTTP/Reference/Methods/PUT
    Put,
}

/// Why a request is refused.
#[derive(Debug)]
pub enum RequestError {
    /// There is no such method.
    UnknownMethod(String),
    /// Some line, or the body, is not UTF-8.
    NotUtf8,
    /// The length of the body is no number.
    InvalidLength(ParseIntError),
    /// The path is not that of a key.
    NoKey,
    /// The key is empty, or has more than one segment.
    InvalidKey,
    /// A body is needed.
    NoBody,
}

/// What a [`RequestError`] is, mathematically.
#[verifier::ext_equal]
pub enum Refusal {
    UnknownMethod(Seq<char>),
    NotUtf8,
    InvalidLength(ParseIntError),
    NoKey,
    InvalidKey,
    NoBody,
}

impl View for RequestError {
    type V = Refusal;

    open spec fn view(&self) -> Refusal {
        match *self {
            RequestError::UnknownMethod(m) => Refusal::UnknownMethod(m@),
            RequestError::NotUtf8 => Refusal::NotUtf8,
            RequestError::InvalidLength(e) => Refusal::InvalidLength(e),
            RequestError::NoKey => Refusal::NoKey,
            RequestError::InvalidKey => Refusal::InvalidKey,
            RequestError::NoBody => Refusal::NoBody,
        }
    }
}

impl Refusal {
    /// The message for this error.
    pub open spec fn message(self) -> Seq<char> {
        match self {
            Refusal::UnknownMethod(m) => m,
            Refusal::NotUtf8 => "stream did not contain valid UTF-8"@,
            Refusal::InvalidLength(e) => e.message(),
            Refusal::NoKey => "path must start with /key/"@,
            Refusal::InvalidKey => "key after /key/ in path, not empty or another path"@,
            Refusal::NoBody => "no body, but required for post"@,
        }
    }
}

impl RequestError {
    /// The message for this error.
    pub fn to_string(&self) -> (s: String)
        ensures
            s@ == self@.message(),
    {
        match self {
            RequestError::UnknownMethod(m) => m.clone(),
            RequestError::NotUtf8 => "stream did not contain valid UTF-8".to_owned(),
            RequestError::InvalidLength(e) => e.to_string(),
            RequestError::NoKey => "path must start with /key/".to_owned(),
            RequestError::InvalidKey =>
                "key after /key/ in path, not empty or another path".to_owned(),
            RequestError::NoBody => "no body, but required for post".to_owned(),
        }
    }
}

/// The method with a name.
pub open spec fn method_named(s: Seq<char>) -> Result<Method, Refusal> {
    if s == "GET"@ {
        Ok(Method::Get)
    } else if s == "PUT"@ {
        Ok(Method::Put)
    } else {
        Err(Refusal::UnknownMethod(s))
    }
}

impl Method {
    /// The method with a name.
    pub fn from_str(s: &str) -> (r: Result<Method, RequestError>)
        ensures
            match r {
                Ok(m) => method_named(s@) == Ok::<Method, Refusal>(m),
                Err(e) => method_named(s@) == Err::<Method, Refusal>(e@),
            },
    {
        if str_eq(s, "GET") {
            Ok(Method::Get)
        } else if str_eq(s, "PUT") {
            Ok(Method::Put)
        } else {
            Err(RequestError::UnknownMethod(s.to_owned()))
        }
    }
}

/// What a client asks for.
#[derive(Debug)]
pub struct Request {
    pub method: Method,
    pub uri: String,
    pub headers: Headers,
    pub body: Option<String>,
}

/// What a [`Request`] is, mathematically.
#[verifier::ext_equal]
pub struct Wish {
    pub method: Method,
    pub uri: Seq<char>,
    pub headers: Fields,
    pub body: Option<Seq<char>>,
}

impl View for Request {
    type V = Wish;

    open spec fn view(&self) -> Wish {
        Wish {
            method: self.method,
            uri: self.uri@,
            headers: self.headers@,
            body: self.body.deep_view(),
        }
    }
}

/// Where the line that begins at `from` ends: just behind its line feed, or where there is
/// nothing more.
pub open spec fn line_end(data: Seq<u8>, from: int) -> int
    decreases data.len() - from,
{
    if from < 0 || from >= data.len() {
        data.len() as int
    } else if data[from] == 0x0a {
        from + 1
    } else {
        line_end(data, from + 1)
    }
}

/// A line that is not empty goes on.
pub proof fn lemma_line_end(data: Seq<u8>, from: int)
    requires
        0 <= from <= data.len(),
    ensures
        from <= line_end(data, from) <= data.len(),
        from < data.len() ==> from < line_end(data, from),
    decreases data.len() - from,
{
    if from < data.len() && data[from] != 0x0a {
        lemma_line_end(data, from + 1);
    }
}

/// Bytes as text, if they are text.
pub open spec fn text_in(bytes: Seq<u8>) -> Option<Seq<char>> {
    if valid_utf8(bytes) {
        Some(decode_utf8(bytes))
    } else {
        None
    }
}

/// The line that begins at `from`.
pub open spec fn line_at(data: Seq<u8>, from: int) -> Option<Seq<char>> {
    text_in(data.subrange(from, line_end(data, from)))
}

/// The fields behind `so_far`, from `from` on, and where they end: behind an empty line, or
/// where there is nothing more. Lines that are no fields are passed over.
pub open spec fn fields_from(data: Seq<u8>, from: int, so_far: Fields) -> Result<
    (Fields, int),
    Refusal,
>
    decreases data.len() - from,
{
    if from < 0 || from >= data.len() {
        Ok((so_far, from))
    } else {
        proof {
            lemma_line_end(data, from);
        }
        match line_at(data, from) {
            None => Err(Refusal::NotUtf8),
            Some(line) => if line == "\r\n"@ {
                Ok((so_far, line_end(data, from)))
            } else {
                fields_from(
                    data,
                    line_end(data, from),
                    match split_at_first(trimmed(line), ": "@) {
                        Some((name, value)) => put(so_far, name, value),
                        None => so_far,
                    },
                )
            },
        }
    }
}

/// The words of the request line.
pub open spec fn request_line(data: Seq<u8>) -> Option<Seq<Seq<char>>> {
    match line_at(data, 0) {
        None => None,
        Some(line) => Some(words(line)),
    }
}

/// The request line says what to do, and if that is something that can be done, with what.
pub open spec fn has_request_line(data: Seq<u8>) -> bool {
    request_line(data) matches Some(w) ==> w.len() > 0 && (method_named(w[0]) is Ok ==> w.len() > 1)
}

/// How long the body is, if there is one.
pub open spec fn length_in(fields: Fields) -> Option<Result<nat, Refusal>> {
    match lookup(fields, "Content-Length"@) {
        None => None,
        Some(n) => Some(
            match unsigned_value(n) {
                Ok(n) => Ok(n),
                Err(e) => Err(Refusal::InvalidLength(e)),
            },
        ),
    }
}

/// All but the body of a request: what to do, with what, the fields, and where they end.
pub open spec fn head_in(data: Seq<u8>) -> Result<(Method, Seq<char>, Fields, int), Refusal> {
    match request_line(data) {
        None => Err(Refusal::NotUtf8),
        Some(w) => match method_named(w[0]) {
            Err(e) => Err(e),
            Ok(method) => match fields_from(data, line_end(data, 0), seq![]) {
                Err(e) => Err(e),
                Ok((fields, end)) => Ok((method, w[1], fields, end)),
            },
        },
    }
}

/// The request in some bytes. The body is as long as its field says, or shorter, where there
/// is nothing more.
pub open spec fn request_in(data: Seq<u8>) -> Result<Wish, Refusal> {
    match head_in(data) {
        Err(e) => Err(e),
        Ok((method, uri, headers, end)) => match length_in(headers) {
            None => Ok(Wish { method, uri, headers, body: None }),
            Some(Err(e)) => Err(e),
            Some(Ok(n)) => {
                let to = if end + n <= data.len() {
                    end + n
                } else {
                    data.len() as int
                };
                match text_in(data.subrange(end, to)) {
                    None => Err(Refusal::NotUtf8),
                    Some(body) => Ok(Wish { method, uri, headers, body: Some(body) }),
                }
            },
        },
    }
}

fn end_of_line(data: &[u8], from: usize) -> (end: usize)
    requires
        from <= data@.len(),
    ensures
        end == line_end(data@, from as int),
        from <= end <= data@.len(),
        from < data@.len() ==> from < end,
{
    let mut i: usize = from;
    while i < data.len() && data[i] != 0x0a
        invariant
            from <= i <= data@.len(),
            line_end(data@, from as int) == line_end(data@, i as int),
        decreases data@.len() - i,
    {
        i = i + 1;
    }
    if i < data.len() {
        i + 1
    } else {
        i
    }
}

fn text_between(data: &[u8], from: usize, to: usize) -> (r: Option<String>)
    requires
        from <= to <= data@.len(),
    ensures
        match r {
            Some(s) => text_in(data@.subrange(from as int, to as int)) == Some(s@),
            None => text_in(data@.subrange(from as int, to as int)) is None,
        },
{
    match utf8::read(vstd::slice::slice_subrange(data, from, to)) {
        Ok(s) => Some(s),
        Err(_) => None,
    }
}

/// Reads header fields from `from` on, and says where they end.
fn read_fields(data: &[u8], from: usize) -> (r: Result<(Headers, usize), RequestError>)
    requires
        from <= data@.len(),
    ensures
        match r {
            Ok((h, end)) => fields_from(data@, from as int, seq![]) == Ok::<(Fields, int), Refusal>(
                (h@, end as int),
            ) && end <= data@.len(),
            Err(e) => fields_from(data@, from as int, seq![]) == Err::<(Fields, int), Refusal>(e@),
        },
{
    let mut headers: Headers = Headers::new();
    let mut at: usize = from;
    assert(headers@ =~= seq![]);
    while at < data.len()
        invariant
            at <= data@.len(),
            fields_from(data@, from as int, seq![]) == fields_from(data@, at as int, headers@),
        decreases data@.len() - at,
    {
        let end: usize = end_of_line(data, at);
        let line: String = match text_between(data, at, end) {
            Some(s) => s,
            None => return Err(RequestError::NotUtf8),
        };
        if str_eq(line.as_str(), "\r\n") {
            return Ok((headers, end));  // end of header
        }
        if let Some((name, value)) = split_once(trim(line.as_str()).as_str(), ": ") {
            headers.insert(name, value);
        }
        at = end;
    }
    Ok((headers, at))
}

/// An empty line, behind the end of another that is at `i`.
pub open spec fn head_ends(data: Seq<u8>, i: int) -> bool {
    0 <= i && i + 2 < data.len() && data[i] == 0x0a && data[i + 1] == 0x0d && data[i + 2] == 0x0a
}

/// Whether all of the head of a request is there, with the empty line that ends it.
pub open spec fn has_whole_head(data: Seq<u8>) -> bool {
    exists|i: int| head_ends(data, i)
}

/// Whether all of the head of a request is there, with the empty line that ends it. What
/// follows is the body.
pub fn head_complete(data: &[u8]) -> (b: bool)
    ensures
        b == has_whole_head(data@),
{
    let mut i: usize = 0;
    while i < data.len() && data.len() - i > 2
        invariant
            i <= data@.len(),
            forall|k: int| 0 <= k < i ==> !head_ends(data@, k),
        decreases data@.len() - i,
    {
        if data[i] == 0x0a && data[i + 1] == 0x0d && data[i + 2] == 0x0a {
            assert(head_ends(data@, i as int));
            return true;
        }
        i = i + 1;
    }
    false
}

/// A line that has ended stays what it is.
proof fn lemma_line_stays(data: Seq<u8>, more: Seq<u8>, from: int, i: int)
    requires
        0 <= from <= i < data.len(),
        data[i] == 0x0a,
    ensures
        line_end(data + more, from) == line_end(data, from),
        from < line_end(data, from) <= i + 1,
        line_at(data + more, from) == line_at(data, from),
    decreases i - from,
{
    if data[from] != 0x0a {
        lemma_line_stays(data, more, from + 1, i);
    }
    let end = line_end(data, from);
    assert((data + more).subrange(from, end) =~= data.subrange(from, end));
}

/// An empty line reads as one.
proof fn lemma_empty_line()
    ensures
        text_in(seq![0x0du8, 0x0a]) == Some("\r\n"@),
{
    reveal_strlit("\r\n");
    let bytes = seq![0x0du8, 0x0a];
    let chars = "\r\n"@;
    let rest = chars.drop_first();
    assert(chars =~= seq!['\r', '\n']);
    assert(rest =~= seq!['\n']);
    assert(rest.drop_first() =~= seq![]);
    assert(encode_utf8(rest.drop_first()) =~= seq![]);
    assert(encode_scalar('\n' as u32) =~= seq![0x0au8]) by {
        assert(leading_byte_width_1(0x0au32) == 0x0a) by (bit_vector);
    }
    assert(encode_scalar('\r' as u32) =~= seq![0x0du8]) by {
        assert(leading_byte_width_1(0x0du32) == 0x0d) by (bit_vector);
    }
    assert(encode_utf8(rest) =~= seq![0x0au8]);
    assert(encode_utf8(chars) =~= bytes);
    encode_utf8_valid_utf8(chars);
    encode_utf8_decode_utf8(chars);
}

/// Fields in front of an empty line stay what they are.
proof fn lemma_fields_stay(data: Seq<u8>, more: Seq<u8>, from: int, so_far: Fields, i: int)
    requires
        0 <= from <= i + 1,
        head_ends(data, i),
    ensures
        fields_from(data + more, from, so_far) == fields_from(data, from, so_far),
    decreases i + 1 - from,
{
    if from == i + 1 {
        lemma_line_stays(data, more, from, i + 2);
        reveal_with_fuel(line_end, 3);
        assert(data.subrange(from, from + 2) =~= seq![0x0du8, 0x0a]);
        lemma_empty_line();
    } else {
        lemma_line_stays(data, more, from, i);
        if let Some(line) = line_at(data, from) {
            let next = match split_at_first(trimmed(line), ": "@) {
                Some((name, value)) => put(so_far, name, value),
                None => so_far,
            };
            lemma_fields_stay(data, more, line_end(data, from), next, i);
        }
    }
}

/// Once all of a head is there, it says the same whatever follows: how much more to read can
/// be told from the head alone.
pub proof fn whole_heads_are_final(data: Seq<u8>, more: Seq<u8>)
    requires
        has_whole_head(data),
    ensures
        head_in(data + more) == head_in(data),
        has_request_line(data + more) == has_request_line(data),
        has_whole_head(data + more),
{
    let i = choose|i: int| head_ends(data, i);
    lemma_line_stays(data, more, 0, i);
    lemma_fields_stay(data, more, line_end(data, 0), seq![], i);
    assert(head_ends(data + more, i));
}

impl Request {
    /// Whether the request line says enough.
    pub fn has_request_line(data: &[u8]) -> (b: bool)
        ensures
            b == has_request_line(data@),
    {
        let end: usize = end_of_line(data, 0);
        match text_between(data, 0, end) {
            None => true,
            Some(line) => {
                let w: Vec<String> = split_white_space(line.as_str());
                let ghost v = words(line@);
                assert(w.deep_view() == v);
                if w.len() == 0 {
                    return false;
                }
                assert(v[0] == w@[0]@);
                match Method::from_str(w[0].as_str()) {
                    Ok(_) => w.len() > 1,
                    Err(_) => true,
                }
            },
        }
    }

    fn read_head(data: &[u8]) -> (r: Result<(Method, String, Headers, usize), RequestError>)
        requires
            has_request_line(data@),
        ensures
            match r {
                Ok((m, uri, h, end)) => head_in(data@) == Ok::<
                    (Method, Seq<char>, Fields, int),
                    Refusal,
                >((m, uri@, h@, end as int)) && end <= data@.len(),
                Err(e) => head_in(data@) == Err::<(Method, Seq<char>, Fields, int), Refusal>(e@),
            },
    {
        // reading request line
        let end: usize = end_of_line(data, 0);
        let line: String = match text_between(data, 0, end) {
            Some(s) => s,
            None => return Err(RequestError::NotUtf8),
        };
        let w: Vec<String> = split_white_space(line.as_str());
        let ghost v = words(line@);
        assert(w.deep_view() == v);
        assert(v[0] == w@[0]@);
        let method: Method = match Method::from_str(w[0].as_str()) {
            Ok(m) => m,
            Err(e) => return Err(e),
        };
        // reading URI
        assert(v[1] == w@[1]@);
        let uri: String = w[1].clone();
        // reading headers
        match read_fields(data, end) {
            Ok((headers, end)) => Ok((method, uri, headers, end)),
            Err(e) => Err(e),
        }
    }

    /// How long the body is, as the head of a request says. A body that is not there has no
    /// length.
    pub fn body_length(head: &[u8]) -> (r: Result<Option<u64>, RequestError>)
        requires
            has_request_line(head@),
        ensures
            match head_in(head@) {
                Err(e) => r matches Err(f) && f@ == e,
                Ok((_, _, fields, _)) => match length_in(fields) {
                    None => r matches Ok(None),
                    Some(Err(e)) => r matches Err(f) && f@ == e,
                    Some(Ok(n)) => r matches Ok(Some(m)) && m == n,
                },
            },
    {
        match Self::read_head(head) {
            Err(e) => Err(e),
            Ok((_, _, headers, _)) => match headers.get("Content-Length") {
                None => Ok(None),
                Some(n) => match parse_u64(n.as_str()) {
                    Ok(n) => Ok(Some(n)),
                    Err(e) => Err(RequestError::InvalidLength(e)),
                },
            },
        }
    }

    /// Takes all that a stream gave and parses it into the [`Request`] type.
    pub fn from_stream(data: &[u8]) -> (r: Result<Request, RequestError>)
        requires
            has_request_line(data@),
        ensures
            match r {
                Ok(req) => request_in(data@) == Ok::<Wish, Refusal>(req@),
                Err(e) => request_in(data@) == Err::<Wish, Refusal>(e@),
            },
    {
        let (method, uri, headers, end): (Method, String, Headers, usize) = match Self::read_head(
            data,
        ) {
            Ok(head) => head,
            Err(e) => return Err(e),
        };
        // reading body if any, requires Content-Length header
        let length: u64 = match headers.get("Content-Length") {
            None => {
                return Ok(Request { method, uri, headers, body: None });
            },
            Some(n) => match parse_u64(n.as_str()) {
                Ok(n) => n,
                Err(e) => return Err(RequestError::InvalidLength(e)),
            },
        };
        let left: usize = data.len() - end;
        let to: usize = if length <= left as u64 {
            end + length as usize
        } else {
            data.len()
        };
        match text_between(data, end, to) {
            Some(body) => Ok(Request { method, uri, headers, body: Some(body) }),
            None => Err(RequestError::NotUtf8),
        }
    }
}

/// The key that a path names.
pub open spec fn key_in(uri: Seq<char>) -> Result<Seq<char>, Refusal> {
    if !"/key/"@.is_prefix_of(uri) {
        Err(Refusal::NoKey)
    } else {
        let key = uri.skip("/key/"@.len() as int);
        if key.len() == 0 || key.contains('/') {
            Err(Refusal::InvalidKey)
        } else {
            Ok(key)
        }
    }
}

/// What a request asks of the store. A write with a condition is a compare-and-swap.
pub open spec fn asked_in(wish: Wish, id: u64) -> Result<ClientMsg<Seq<char>, Seq<char>>, Refusal> {
    match key_in(wish.uri) {
        Err(e) => Err(e),
        Ok(key) => match wish.method {
            Method::Get => Ok(ClientMsg::ReadRequest { key, id }),
            Method::Put => match wish.body {
                None => Err(Refusal::NoBody),
                Some(body) => match lookup(wish.headers, "If-Match"@) {
                    Some(from) => Ok(ClientMsg::CASRequest { key, from, to: body, id }),
                    None => Ok(ClientMsg::WriteRequest { key, value: body, id }),
                },
            },
        },
    }
}

impl Request {
    /// The key that the path names.
    pub fn get_key(&self) -> (r: Result<String, RequestError>)
        ensures
            match r {
                Ok(key) => key_in(self.uri@) == Ok::<Seq<char>, Refusal>(key@),
                Err(e) => key_in(self.uri@) == Err::<Seq<char>, Refusal>(e@),
            },
    {
        let chars: Vec<char> = chars_of(self.uri.as_str());
        let prefix: Vec<char> = chars_of("/key/");
        let ghost uri = self.uri@;
        if chars.len() < prefix.len() {
            return Err(RequestError::NoKey);
        }
        let mut i: usize = 0;
        while i < prefix.len()
            invariant
                i <= prefix@.len() <= chars@.len(),
                chars@ == uri,
                uri == self.uri@,
                prefix@ == "/key/"@,
                forall|k: int| 0 <= k < i ==> chars@[k] == prefix@[k],
            decreases prefix@.len() - i,
        {
            if chars[i] != prefix[i] {
                assert(uri.subrange(0, prefix@.len() as int)[i as int] != prefix@[i as int]);
                return Err(RequestError::NoKey);
            }
            i = i + 1;
        }
        assert(uri.subrange(0, prefix@.len() as int) =~= prefix@);
        let ghost key = uri.skip(i as int);
        if i == chars.len() {
            return Err(RequestError::InvalidKey);
        }
        let mut k: usize = i;
        while k < chars.len()
            invariant
                i <= k <= chars@.len(),
                i == "/key/"@.len(),
                chars@ == uri,
                uri == self.uri@,
                "/key/"@.is_prefix_of(uri),
                key == uri.skip(i as int),
                forall|j: int| i <= j < k ==> uri[j] != '/',
            decreases chars@.len() - k,
        {
            if chars[k] == '/' {
                assert(key[k - i] == '/');
                return Err(RequestError::InvalidKey);
            }
            k = k + 1;
        }
        assert(uri.subrange(i as int, uri.len() as int) =~= key);
        Ok(string_of(&chars, i, chars.len()))
    }

    /// The message for the store, under an ID.
    pub fn into_client_message(self, id: MessageID) -> (r: Result<
        ClientMessage<String, String>,
        RequestError,
    >)
        ensures
            match r {
                Ok(m) => asked_in(self@, id) == Ok::<ClientMsg<Seq<char>, Seq<char>>, Refusal>(
                    m.deep_view(),
                ),
                Err(e) => asked_in(self@, id) == Err::<ClientMsg<Seq<char>, Seq<char>>, Refusal>(
                    e@,
                ),
            },
    {
        let key: String = match self.get_key() {
            Ok(key) => key,
            Err(e) => return Err(e),
        };
        match self.method {
            Method::Get => Ok(ClientMessage::ReadRequest { key, id }),
            // PUT represents WriteRequests and CASRequests, where CASRequests
            // expect If-Match condition in header.
            Method::Put => match self.body {
                None => Err(RequestError::NoBody),
                Some(body) => match self.headers.get("If-Match") {
                    Some(from) => Ok(
                        ClientMessage::CASRequest { key, from: from.clone(), to: body, id },
                    ),
                    None => Ok(ClientMessage::WriteRequest { key, value: body, id }),
                },
            },
        }
    }
}

} // verus!
