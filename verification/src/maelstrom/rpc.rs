//! Messages, requests and responses.
use crate::assoc::{lookup, lookup_after_put, lookup_after_without, put, without};
use crate::json::fields::{both, both3, both4, taken1, taken2, taken3, taken4, Members};
use crate::json::serde::{reads_back, says, Deserialize, DeserializeError, Serialize, SerializeError, Undeserialized};
use crate::json::value::{Json, Object, Value};
use crate::maelstrom::{NodeId, NodeMessageId};
use crate::text::str_eq;
use vstd::prelude::*;

verus! {

pub type MessageId = u64;

/// <https://github.com/jepsen-io/maelstrom/blob/cb7f07239012d85d2c0595fd942ddb4613205905/doc/protocol.md#message-bodies>
#[derive(Debug)]
pub struct Message<B> {
    pub source: NodeId,
    pub destination: NodeId,
    pub body: B,
}

/// What a [`Message`] is, mathematically.
#[verifier::ext_equal]
pub struct Letter<B> {
    pub source: Seq<char>,
    pub destination: Seq<char>,
    pub body: B,
}

impl<B: DeepView> DeepView for Message<B> {
    type V = Letter<B::V>;

    open spec fn deep_view(&self) -> Letter<B::V> {
        Letter {
            source: self.source@,
            destination: self.destination@,
            body: self.body.deep_view(),
        }
    }
}

/// A message as JSON.
pub open spec fn letter_json(source: Seq<char>, destination: Seq<char>, body: Json) -> Json {
    let m = put(Seq::empty(), "src"@, Json::String(source));
    let m = put(m, "dest"@, Json::String(destination));
    Json::Object(put(m, "body"@, body))
}

impl<B: Serialize> Serialize for Message<B> {
    open spec fn json(&self) -> Json {
        letter_json(self.source@, self.destination@, self.body.json())
    }

    fn serialize(&self) -> (r: Result<Value, SerializeError>) {
        let mut map: Object = Object::new();
        map.put("src", self.source.as_str())?;
        map.put("dest", self.destination.as_str())?;
        map.put("body", &self.body)?;
        Ok(Value::Object(map))
    }
}

/// The message that a representation stands for.
pub open spec fn letter_from_json<B: Deserialize>(j: Json) -> Result<Letter<B::V>, Undeserialized> {
    match j {
        Json::Object(m) => match taken3(m, "src"@, "dest"@, "body"@) {
            (Some((a, b, c)), _) => match both3(
                String::from_json(a),
                String::from_json(b),
                B::from_json(c),
            ) {
                Ok((source, destination, body)) => Ok(Letter { source, destination, body }),
                Err(e) => Err(e),
            },
            (None, rest) => Err(Undeserialized::InvalidValue(Json::Object(rest))),
        },
        _ => Err(Undeserialized::InvalidValue(j)),
    }
}

impl<B: Deserialize> Deserialize for Message<B> {
    open spec fn from_json(j: Json) -> Result<Letter<B::V>, Undeserialized> {
        letter_from_json::<B>(j)
    }

    fn deserialize(value: Value) -> (r: Result<Self, DeserializeError>) {
        match value {
            Value::Object(msg) => {
                let mut msg: Object = msg;
                match msg.take3("src", "dest", "body") {
                    Some((a, b, c)) => {
                        let source: String = match String::deserialize(a) {
                            Ok(x) => x,
                            Err(e) => return Err(e),
                        };
                        let destination: String = match String::deserialize(b) {
                            Ok(x) => x,
                            Err(e) => return Err(e),
                        };
                        let body: B = match B::deserialize(c) {
                            Ok(x) => x,
                            Err(e) => return Err(e),
                        };
                        Ok(Message { source, destination, body })
                    },
                    None => Err(DeserializeError::InvalidValue(Value::Object(msg))),
                }
            },
            _ => Err(DeserializeError::InvalidValue(value)),
        }
    }
}

/// The parts of a message are read as they were written.
pub proof fn lemma_letter_parts(source: Seq<char>, destination: Seq<char>, body: Json)
    ensures
        taken3(letter_json(source, destination, body)->Object_0, "src"@, "dest"@, "body"@).0
            == Some((Json::String(source), Json::String(destination), body)),
{
    broadcast use lookup_after_put, lookup_after_without;

    assert("src"@ != "dest"@) by {
        reveal_strlit("src");
        reveal_strlit("dest");
        assert("src"@.len() == 3 && "dest"@.len() == 4);
    }
    assert("src"@ != "body"@) by {
        reveal_strlit("src");
        reveal_strlit("body");
        assert("src"@.len() == 3 && "body"@.len() == 4);
    }
    assert("dest"@ != "body"@) by {
        reveal_strlit("dest");
        reveal_strlit("body");
        assert("dest"@[0] == 'd' && "body"@[0] == 'b');
    }
    let m0 = letter_json(source, destination, body)->Object_0;
    assert(lookup(m0, "src"@) == Some(Json::String(source)));
    let m1 = without(m0, "src"@);
    assert(lookup(m1, "dest"@) == Some(Json::String(destination)));
    let m2 = without(m1, "dest"@);
    assert(lookup(m2, "body"@) == Some(body));
}

/// A message is read as it was sent, where its body is.
pub proof fn message_reads_back<B: Serialize + Deserialize>(m: Message<B>)
    requires
        reads_back(m.body),
    ensures
        reads_back(m),
{
    lemma_letter_parts(m.source@, m.destination@, m.body.json());
}

/// What clients ask of a node.
#[derive(Debug)]
pub enum Request<K, V> {
    /// The [init
    /// message](https://github.com/jepsen-io/maelstrom/blob/cb7f07239012d85d2c0595fd942ddb4613205905/doc/protocol.md#initialization).
    Init { message_id: MessageId, node_id: NodeId, node_ids: Vec<NodeId> },
    /// <https://github.com/jepsen-io/maelstrom/blob/cb7f07239012d85d2c0595fd942ddb4613205905/doc/workloads.md#workload-lin-kv>
    KVRead { key: K, message_id: MessageId },
    KVWrite { key: K, value: V, message_id: MessageId },
    KVCAS { key: K, from: V, to: V, message_id: MessageId },
}

/// What a [`Request`] is, mathematically.
#[verifier::ext_equal]
pub enum Asked<K, V> {
    Init { message_id: u64, node_id: Seq<char>, node_ids: Seq<Seq<char>> },
    KVRead { key: K, message_id: u64 },
    KVWrite { key: K, value: V, message_id: u64 },
    KVCAS { key: K, from: V, to: V, message_id: u64 },
}

impl<K: DeepView, V: DeepView> DeepView for Request<K, V> {
    type V = Asked<K::V, V::V>;

    open spec fn deep_view(&self) -> Asked<K::V, V::V> {
        match *self {
            Request::Init { message_id, node_id, node_ids } => Asked::Init {
                message_id,
                node_id: node_id@,
                node_ids: node_ids.deep_view(),
            },
            Request::KVRead { key, message_id } => Asked::KVRead {
                key: key.deep_view(),
                message_id,
            },
            Request::KVWrite { key, value, message_id } => Asked::KVWrite {
                key: key.deep_view(),
                value: value.deep_view(),
                message_id,
            },
            Request::KVCAS { key, from, to, message_id } => Asked::KVCAS {
                key: key.deep_view(),
                from: from.deep_view(),
                to: to.deep_view(),
                message_id,
            },
        }
    }
}

/// What the members of a `init` request stand for.
pub open spec fn init_from_json<K: Deserialize, V: Deserialize>(m: Members) -> Result<
    Asked<K::V, V::V>,
    Undeserialized,
> {
    match taken3(m, "msg_id"@, "node_id"@, "node_ids"@) {
        (Some((a, b, c)), _) => match both3(u64::from_json(a), String::from_json(b), Vec::<String>::from_json(c)) {
            Ok((message_id, node_id, node_ids)) => Ok(Asked::Init { message_id, node_id, node_ids }),
            Err(e) => Err(e),
        },
        (None, rest) => Err(Undeserialized::InvalidValue(Json::Object(rest))),
    }
}

fn deserialize_init<K: Deserialize, V: Deserialize>(body: Object) -> (r: Result<Request<K, V>, DeserializeError>)
    ensures
        says(r, init_from_json::<K, V>(body@)),
{
    let mut body: Object = body;
    match body.take3("msg_id", "node_id", "node_ids") {
        Some((a, b, c)) => {
            let message_id: u64 = match u64::deserialize(a) {
                Ok(x) => x,
                Err(e) => return Err(e),
            };
            let node_id: String = match String::deserialize(b) {
                Ok(x) => x,
                Err(e) => return Err(e),
            };
            let node_ids: Vec<String> = match Vec::<String>::deserialize(c) {
                Ok(x) => x,
                Err(e) => return Err(e),
            };
            Ok(Request::Init { message_id, node_id, node_ids })
        },
        None => Err(DeserializeError::InvalidValue(Value::Object(body))),
    }
}

/// What the members of a `read` request stand for.
pub open spec fn read_from_json<K: Deserialize, V: Deserialize>(m: Members) -> Result<
    Asked<K::V, V::V>,
    Undeserialized,
> {
    match taken2(m, "msg_id"@, "key"@) {
        (Some((a, b)), _) => match both(u64::from_json(a), K::from_json(b)) {
            Ok((message_id, key)) => Ok(Asked::KVRead { message_id, key }),
            Err(e) => Err(e),
        },
        (None, rest) => Err(Undeserialized::InvalidValue(Json::Object(rest))),
    }
}

fn deserialize_read<K: Deserialize, V: Deserialize>(body: Object) -> (r: Result<Request<K, V>, DeserializeError>)
    ensures
        says(r, read_from_json::<K, V>(body@)),
{
    let mut body: Object = body;
    match body.take2("msg_id", "key") {
        Some((a, b)) => {
            let message_id: u64 = match u64::deserialize(a) {
                Ok(x) => x,
                Err(e) => return Err(e),
            };
            let key: K = match K::deserialize(b) {
                Ok(x) => x,
                Err(e) => return Err(e),
            };
            Ok(Request::KVRead { message_id, key })
        },
        None => Err(DeserializeError::InvalidValue(Value::Object(body))),
    }
}

/// What the members of a `write` request stand for.
pub open spec fn write_from_json<K: Deserialize, V: Deserialize>(m: Members) -> Result<
    Asked<K::V, V::V>,
    Undeserialized,
> {
    match taken3(m, "msg_id"@, "key"@, "value"@) {
        (Some((a, b, c)), _) => match both3(u64::from_json(a), K::from_json(b), V::from_json(c)) {
            Ok((message_id, key, value)) => Ok(Asked::KVWrite { message_id, key, value }),
            Err(e) => Err(e),
        },
        (None, rest) => Err(Undeserialized::InvalidValue(Json::Object(rest))),
    }
}

fn deserialize_write<K: Deserialize, V: Deserialize>(body: Object) -> (r: Result<Request<K, V>, DeserializeError>)
    ensures
        says(r, write_from_json::<K, V>(body@)),
{
    let mut body: Object = body;
    match body.take3("msg_id", "key", "value") {
        Some((a, b, c)) => {
            let message_id: u64 = match u64::deserialize(a) {
                Ok(x) => x,
                Err(e) => return Err(e),
            };
            let key: K = match K::deserialize(b) {
                Ok(x) => x,
                Err(e) => return Err(e),
            };
            let value: V = match V::deserialize(c) {
                Ok(x) => x,
                Err(e) => return Err(e),
            };
            Ok(Request::KVWrite { message_id, key, value })
        },
        None => Err(DeserializeError::InvalidValue(Value::Object(body))),
    }
}

/// What the members of a `cas` request stand for.
pub open spec fn cas_from_json<K: Deserialize, V: Deserialize>(m: Members) -> Result<
    Asked<K::V, V::V>,
    Undeserialized,
> {
    match taken4(m, "msg_id"@, "key"@, "from"@, "to"@) {
        (Some((a, b, c, d)), _) => match both4(u64::from_json(a), K::from_json(b), V::from_json(c), V::from_json(d)) {
            Ok((message_id, key, from, to)) => Ok(Asked::KVCAS { message_id, key, from, to }),
            Err(e) => Err(e),
        },
        (None, rest) => Err(Undeserialized::InvalidValue(Json::Object(rest))),
    }
}

fn deserialize_cas<K: Deserialize, V: Deserialize>(body: Object) -> (r: Result<Request<K, V>, DeserializeError>)
    ensures
        says(r, cas_from_json::<K, V>(body@)),
{
    let mut body: Object = body;
    match body.take4("msg_id", "key", "from", "to") {
        Some((a, b, c, d)) => {
            let message_id: u64 = match u64::deserialize(a) {
                Ok(x) => x,
                Err(e) => return Err(e),
            };
            let key: K = match K::deserialize(b) {
                Ok(x) => x,
                Err(e) => return Err(e),
            };
            let from: V = match V::deserialize(c) {
                Ok(x) => x,
                Err(e) => return Err(e),
            };
            let to: V = match V::deserialize(d) {
                Ok(x) => x,
                Err(e) => return Err(e),
            };
            Ok(Request::KVCAS { message_id, key, from, to })
        },
        None => Err(DeserializeError::InvalidValue(Value::Object(body))),
    }
}

/// The request that a representation stands for.
pub open spec fn request_from_json<K: Deserialize, V: Deserialize>(j: Json) -> Result<
    Asked<K::V, V::V>,
    Undeserialized,
> {
    match j {
        Json::Object(m) => match taken1(m, "type"@) {
            (Some(Json::String(typ)), rest) => if typ == "init"@ {
                init_from_json::<K, V>(rest)
            } else if typ == "read"@ {
                read_from_json::<K, V>(rest)
            } else if typ == "write"@ {
                write_from_json::<K, V>(rest)
            } else if typ == "cas"@ {
                cas_from_json::<K, V>(rest)
            } else {
                Err(Undeserialized::InvalidValue(Json::Object(rest)))
            },
            (_, rest) => Err(Undeserialized::InvalidValue(Json::Object(rest))),
        },
        _ => Err(Undeserialized::InvalidValue(j)),
    }
}

impl<K: Deserialize, V: Deserialize> Deserialize for Request<K, V> {
    open spec fn from_json(j: Json) -> Result<Asked<K::V, V::V>, Undeserialized> {
        request_from_json::<K, V>(j)
    }

    fn deserialize(value: Value) -> (r: Result<Self, DeserializeError>) {
        match value {
            Value::Object(body) => {
                let mut body: Object = body;
                match body.remove("type") {
                    Some(Value::String(typ)) => {
                        let t: &str = typ.as_str();
                        if str_eq(t, "init") {
                            deserialize_init(body)
                        } else if str_eq(t, "read") {
                            deserialize_read(body)
                        } else if str_eq(t, "write") {
                            deserialize_write(body)
                        } else if str_eq(t, "cas") {
                            deserialize_cas(body)
                        } else {
                            Err(DeserializeError::InvalidValue(Value::Object(body)))
                        }
                    },
                    _ => Err(DeserializeError::InvalidValue(Value::Object(body))),
                }
            },
            _ => Err(DeserializeError::InvalidValue(value)),
        }
    }
}

/// Something that an error response can say is wrong.
pub trait ErrorCode {
    /// The number that stands for it.
    spec fn number(&self) -> u64;

    /// The number that stands for it.
    fn code(&self) -> (n: u64)
        ensures
            n == self.number(),
    ;
}

/// <https://github.com/jepsen-io/maelstrom/blob/cb7f07239012d85d2c0595fd942ddb4613205905/doc/protocol.md#errors>
///
/// 0-999 are [reserved by
/// Maelstrom](https://github.com/jepsen-io/maelstrom/blob/cb7f07239012d85d2c0595fd942ddb4613205905/doc/protocol.md#errors).
#[derive(Debug, Copy, Clone, PartialEq, Eq, Structural)]
pub enum ReservedErrorCode {
    Timeout,
    NodeNotFound,
    NotSupported,
    TemporarilyUnavailable,
    MalformedRequest,
    Crash,
    Abort,
    KeyDoesNotExist,
    KeyAlreadyExists,
    PreconditionFailed,
    TxnConflict,
}

/// The number that is reserved for an error.
pub open spec fn reserved_number(code: ReservedErrorCode) -> u64 {
    match code {
        ReservedErrorCode::Timeout => 0,
        ReservedErrorCode::NodeNotFound => 1,
        ReservedErrorCode::NotSupported => 10,
        ReservedErrorCode::TemporarilyUnavailable => 11,
        ReservedErrorCode::MalformedRequest => 12,
        ReservedErrorCode::Crash => 13,
        ReservedErrorCode::Abort => 14,
        ReservedErrorCode::KeyDoesNotExist => 20,
        ReservedErrorCode::KeyAlreadyExists => 21,
        ReservedErrorCode::PreconditionFailed => 22,
        ReservedErrorCode::TxnConflict => 30,
    }
}

impl ErrorCode for ReservedErrorCode {
    open spec fn number(&self) -> u64 {
        reserved_number(*self)
    }

    fn code(&self) -> (n: u64) {
        match self {
            ReservedErrorCode::Timeout => 0,
            ReservedErrorCode::NodeNotFound => 1,
            ReservedErrorCode::NotSupported => 10,
            ReservedErrorCode::TemporarilyUnavailable => 11,
            ReservedErrorCode::MalformedRequest => 12,
            ReservedErrorCode::Crash => 13,
            ReservedErrorCode::Abort => 14,
            ReservedErrorCode::KeyDoesNotExist => 20,
            ReservedErrorCode::KeyAlreadyExists => 21,
            ReservedErrorCode::PreconditionFailed => 22,
            ReservedErrorCode::TxnConflict => 30,
        }
    }
}

impl From<&ReservedErrorCode> for u64 {
    fn from(value: &ReservedErrorCode) -> (n: u64) {
        value.code()
    }
}

impl vstd::std_specs::convert::FromSpecImpl<&ReservedErrorCode> for u64 {
    open spec fn obeys_from_spec() -> bool {
        true
    }

    open spec fn from_spec(value: &ReservedErrorCode) -> u64 {
        reserved_number(*value)
    }
}

impl From<ReservedErrorCode> for u64 {
    fn from(value: ReservedErrorCode) -> (n: u64) {
        value.code()
    }
}

impl vstd::std_specs::convert::FromSpecImpl<ReservedErrorCode> for u64 {
    open spec fn obeys_from_spec() -> bool {
        true
    }

    open spec fn from_spec(value: ReservedErrorCode) -> u64 {
        reserved_number(value)
    }
}

/// Different errors have different numbers.
pub proof fn numbers_tell_errors_apart(a: ReservedErrorCode, b: ReservedErrorCode)
    ensures
        reserved_number(a) == reserved_number(b) ==> a == b,
{
}

/// A response to Maelstrom client requests.
///
/// A default `V` type is provided such that variants which do not use `V` can be
/// inferred without type annotations (as `V` does not matter in those cases). A default
/// `EC` is provided but left generic for clients to fill in their own error codes.
#[derive(Debug)]
pub enum Response<'v, V = (), EC = ReservedErrorCode> {
    InitOk { in_reply_to: MessageId },
    Error { in_reply_to: MessageId, code: EC, text: String },
    /// <https://github.com/jepsen-io/maelstrom/blob/cb7f07239012d85d2c0595fd942ddb4613205905/doc/workloads.md#workload-lin-kv>
    KVReadOK {
        in_reply_to: MessageId,
        /// From the store, we will only ever get a reference to look at.
        value: &'v V,
        message_id: NodeMessageId,
    },
    KVWriteOK { in_reply_to: MessageId, message_id: NodeMessageId },
    KVCASOK { in_reply_to: MessageId, message_id: NodeMessageId },
}

impl<'v, V: Serialize, EC: ErrorCode> Serialize for Response<'v, V, EC> {
    open spec fn json(&self) -> Json {
        Json::Object(
            match *self {
                Response::InitOk { in_reply_to } => {
                    let m = put(Seq::empty(), "type"@, Json::String("init_ok"@));
                    put(m, "in_reply_to"@, in_reply_to.json())
                },
                Response::Error { in_reply_to, code, text } => {
                    let m = put(Seq::empty(), "type"@, Json::String("error"@));
                    let m = put(m, "in_reply_to"@, in_reply_to.json());
                    let m = put(m, "code"@, code.number().json());
                    put(m, "text"@, text.json())
                },
                Response::KVReadOK { in_reply_to, value, message_id } => {
                    let m = put(Seq::empty(), "type"@, Json::String("read_ok"@));
                    let m = put(m, "value"@, value.json());
                    let m = put(m, "in_reply_to"@, in_reply_to.json());
                    put(m, "msg_id"@, message_id@.json())
                },
                Response::KVWriteOK { in_reply_to, message_id } => {
                    let m = put(Seq::empty(), "type"@, Json::String("write_ok"@));
                    let m = put(m, "in_reply_to"@, in_reply_to.json());
                    put(m, "msg_id"@, message_id@.json())
                },
                Response::KVCASOK { in_reply_to, message_id } => {
                    let m = put(Seq::empty(), "type"@, Json::String("cas_ok"@));
                    let m = put(m, "in_reply_to"@, in_reply_to.json());
                    put(m, "msg_id"@, message_id@.json())
                },
            },
        )
    }

    fn serialize(&self) -> (r: Result<Value, SerializeError>) {
        let mut map: Object = Object::new();
        match self {
            Response::InitOk { in_reply_to } => {
                map.put("type", "init_ok")?;
                map.put("in_reply_to", in_reply_to)?;
            },
            Response::Error { in_reply_to, code, text } => {
                map.put("type", "error")?;
                map.put("in_reply_to", in_reply_to)?;
                let code: u64 = code.code();
                map.put("code", &code)?;
                map.put("text", text)?;
            },
            Response::KVReadOK { in_reply_to, value, message_id } => {
                map.put("type", "read_ok")?;
                map.put("value", *value)?;
                map.put("in_reply_to", in_reply_to)?;
                let id: u64 = message_id.get();
                map.put("msg_id", &id)?;
            },
            Response::KVWriteOK { in_reply_to, message_id } => {
                map.put("type", "write_ok")?;
                map.put("in_reply_to", in_reply_to)?;
                let id: u64 = message_id.get();
                map.put("msg_id", &id)?;
            },
            Response::KVCASOK { in_reply_to, message_id } => {
                map.put("type", "cas_ok")?;
                map.put("in_reply_to", in_reply_to)?;
                let id: u64 = message_id.get();
                map.put("msg_id", &id)?;
            },
        }
        Ok(Value::Object(map))
    }
}

/// The numbers are those that the protocol reserves.
pub proof fn numbers_are_the_reserved_ones(code: ReservedErrorCode)
    ensures
        code is Timeout <==> reserved_number(code) == 0,
        code is NodeNotFound <==> reserved_number(code) == 1,
        code is NotSupported <==> reserved_number(code) == 10,
        code is TemporarilyUnavailable <==> reserved_number(code) == 11,
        code is MalformedRequest <==> reserved_number(code) == 12,
        code is Crash <==> reserved_number(code) == 13,
        code is Abort <==> reserved_number(code) == 14,
        code is KeyDoesNotExist <==> reserved_number(code) == 20,
        code is KeyAlreadyExists <==> reserved_number(code) == 21,
        code is PreconditionFailed <==> reserved_number(code) == 22,
        code is TxnConflict <==> reserved_number(code) == 30,
{
}

} // verus!
