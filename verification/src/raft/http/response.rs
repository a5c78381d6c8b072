//! Responses to clients.
use crate::assoc::put;
use crate::datum::{Datum, Readable};
use crate::decimal::{decimal, push_decimal, u64_to_string};
use crate::raft::http::headers::{Fields, Headers};
use crate::raft::rpc::{ClientMessage, ClientMsg};
use vstd::prelude::*;
use vstd::string::{StrSliceExecFns, StringExecFns};
use vstd::utf8::encode_utf8;

verus! {

/// Whether a request succeeded, and how. Never zero.
#[derive(Debug)]
pub struct StatusCode(u16);

impl View for StatusCode {
    type V = u16;

    closed spec fn view(&self) -> u16 {
        self.0
    }
}

impl StatusCode {
    #[verifier::type_invariant]
    spec fn nonzero(&self) -> bool {
        self.0 != 0
    }

    /// The status with a number.
    pub fn from_u16(code: u16) -> (s: StatusCode)
        requires
            // should always have valid non-zero u16
            code != 0,
        ensures
            s@ == code,
    {
        StatusCode(code)
    }

    /// The number of this status.
    pub fn get(&self) -> (code: u16)
        ensures
            code == self@,
            code != 0,
    {
        proof {
            use_type_invariant(self);
        }
        self.0
    }
}

/// What a client gets.
#[derive(Debug)]
pub struct Response {
    pub status: StatusCode,
    pub headers: Headers,
    pub body: Option<String>,
}

/// What a [`Response`] is, mathematically.
#[verifier::ext_equal]
pub struct Reply {
    pub status: u16,
    pub headers: Fields,
    pub body: Option<Seq<char>>,
}

impl View for Response {
    type V = Reply;

    open spec fn view(&self) -> Reply {
        Reply { status: self.status@, headers: self.headers@, body: self.body.deep_view() }
    }
}

/// How a request of a client is shown to developers.
pub open spec fn request_shown<K: Datum, V: Datum>(m: ClientMsg<K::V, V::V>) -> Seq<char> {
    match m {
        ClientMsg::ReadRequest { key, id } => "ReadRequest { key: "@ + K::shown(key) + ", id: "@
            + decimal(id as nat) + " }"@,
        ClientMsg::WriteRequest { key, value, id } => "WriteRequest { key: "@ + K::shown(key)
            + ", value: "@ + V::shown(value) + ", id: "@ + decimal(id as nat) + " }"@,
        ClientMsg::CASRequest { key, from, to, id } => "CASRequest { key: "@ + K::shown(key)
            + ", from: "@ + V::shown(from) + ", to: "@ + V::shown(to) + ", id: "@ + decimal(
            id as nat,
        ) + " }"@,
        _ => seq![],
    }
}

/// The status and the body for a message of the store.
pub open spec fn status_and_body<K: Datum, V: Readable>(m: ClientMsg<K::V, V::V>) -> (
    u16,
    Option<Seq<char>>,
) {
    match m {
        ClientMsg::ReadResponse { value, .. } => (200, Some(V::printed(value))),
        ClientMsg::WriteResponse { .. } => (201, None),
        ClientMsg::CASResponse { .. } => (200, None),
        ClientMsg::ErrorResponse { text, .. } => (400, Some(text)),
        _ => (
            500,
            Some(
                "Internal Server Error (tried to cast other than ClientMessage response: "@
                    + request_shown::<K, V>(m) + ")"@,
            ),
        ),
    }
}

/// The response for a message of the store.
pub open spec fn reply_for<K: Datum, V: Readable>(m: ClientMsg<K::V, V::V>) -> Reply {
    let (status, body) = status_and_body::<K, V>(m);
    let fields = match body {
        Some(b) => put(
            Seq::empty(),
            "Content-Length"@,
            decimal(encode_utf8(b).len()),
        ),
        None => Seq::empty(),
    };
    Reply { status, headers: put(fields, "Connection"@, "close"@), body }
}

fn show_request<K: Datum, V: Datum>(m: &ClientMessage<K, V>) -> (s: String)
    ensures
        s@ == request_shown::<K, V>(m.deep_view()),
{
    let mut s: String = String::new();
    match m {
        ClientMessage::ReadRequest { key, id } => {
            s.append("ReadRequest { key: ");
            s.append(key.show().as_str());
            s.append(", id: ");
            push_decimal(&mut s, *id);
            s.append(" }");
        },
        ClientMessage::WriteRequest { key, value, id } => {
            s.append("WriteRequest { key: ");
            s.append(key.show().as_str());
            s.append(", value: ");
            s.append(value.show().as_str());
            s.append(", id: ");
            push_decimal(&mut s, *id);
            s.append(" }");
        },
        ClientMessage::CASRequest { key, from, to, id } => {
            s.append("CASRequest { key: ");
            s.append(key.show().as_str());
            s.append(", from: ");
            s.append(from.show().as_str());
            s.append(", to: ");
            s.append(to.show().as_str());
            s.append(", id: ");
            push_decimal(&mut s, *id);
            s.append(" }");
        },
        _ => {},
    }
    assert(s@ =~= request_shown::<K, V>(m.deep_view()));
    s
}

impl<K: Datum, V: Readable> From<ClientMessage<K, V>> for Response {
    fn from(message: ClientMessage<K, V>) -> (r: Response)
        ensures
            r@ == reply_for::<K, V>(message.deep_view()),
    {
        let (code, body): (u16, Option<String>) = match message {
            ClientMessage::ReadResponse { value, .. } => (200, Some(value.print())),
            ClientMessage::WriteResponse { .. } => (201, None),
            ClientMessage::CASResponse { .. } => (200, None),
            ClientMessage::ErrorResponse { text, .. } => (400, Some(text)),
            msg => {
                let mut s: String =
                    "Internal Server Error (tried to cast other than ClientMessage response: ".to_owned();
                s.append(show_request(&msg).as_str());
                s.append(")");
                (500, Some(s))
            },
        };
        let mut headers: Headers = Headers::new();
        if let Some(body) = &body {
            let n: usize = body.as_str().as_bytes().len();
            headers.insert("Content-Length".to_owned(), u64_to_string(n as u64));
        }
        headers.insert("Connection".to_owned(), "close".to_owned());
        Response { status: StatusCode::from_u16(code), headers, body }
    }
}

impl<K: Datum, V: Readable> vstd::std_specs::convert::FromSpecImpl<ClientMessage<K, V>> for Response {
    open spec fn obeys_from_spec() -> bool {
        false
    }

    open spec fn from_spec(message: ClientMessage<K, V>) -> Response {
        arbitrary()
    }
}

/// What a status is called.
pub open spec fn reason_phrase(status: u16) -> Seq<char> {
    if status == 200 {
        "OK"@
    } else if status == 201 {
        "Created"@
    } else if status == 400 {
        "Bad Request"@
    } else if status == 500 {
        "Internal Server Error"@
    } else {
        ""@
    }
}

/// Header fields on the wire, from the `i`-th on.
pub open spec fn fields_text(fields: Fields, i: int) -> Seq<char>
    decreases fields.len() - i,
{
    if i < 0 || i >= fields.len() {
        seq![]
    } else {
        fields[i].0 + ": "@ + fields[i].1 + "\r\n"@ + fields_text(fields, i + 1)
    }
}

/// A response on the wire: a status line, the header fields, an empty line, and the body.
pub open spec fn wire_text(r: Reply) -> Seq<char> {
    "HTTP/1.1 "@ + decimal(r.status as nat) + " "@ + reason_phrase(r.status) + "\r\n"@ + fields_text(
        r.headers,
        0,
    ) + "\r\n"@ + match r.body {
        Some(body) => body,
        None => seq![],
    }
}

impl Response {
    /// Serialize into the HTTP/1.1 wire format, ready to write onto a TcpStream.
    pub fn to_wire(&self) -> (wire: Vec<u8>)
        ensures
            wire@ == encode_utf8(wire_text(self@)),
    {
        let code: u16 = self.status.get();
        let reason: &str = match code {
            200 => "OK",
            201 => "Created",
            400 => "Bad Request",
            500 => "Internal Server Error",
            _ => "",
        };
        let mut wire: String = "HTTP/1.1 ".to_owned();
        push_decimal(&mut wire, code as u64);
        wire.append(" ");
        wire.append(reason);
        wire.append("\r\n");
        let ghost start = wire@;
        let ghost fields = self.headers@;
        let mut i: usize = 0;
        while i < self.headers.len()
            invariant
                i <= fields.len(),
                fields == self.headers@,
                wire@ + fields_text(fields, i as int) == start + fields_text(fields, 0),
            decreases fields.len() - i,
        {
            let ghost before = wire@;
            let ghost rest = fields_text(fields, i + 1);
            wire.append(self.headers.name_at(i));
            wire.append(": ");
            wire.append(self.headers.value_at(i));
            wire.append("\r\n");
            assert(wire@ + rest =~= before + fields_text(fields, i as int));
            i = i + 1;
        }
        assert(fields_text(fields, i as int) =~= seq![]);
        assert(wire@ =~= start + fields_text(fields, 0));
        wire.append("\r\n");  // signals end of header
        if let Some(body) = &self.body {
            wire.append(body.as_str());
        }
        assert(wire@ =~= wire_text(self@));
        wire.as_str().as_bytes_vec()
    }
}

} // verus!
