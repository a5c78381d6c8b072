//! What messages are wrapped into, and how nodes learn who they are.
use crate::assoc::put;
use crate::json::fields::{both3, taken1, taken3, Members};
use crate::json::serde::{reads_back, Deserialize, DeserializeError, Serialize, SerializeError, Undeserialized};
use crate::json::value::{Json, Object, Value};
use crate::maelstrom::rpc::{lemma_letter_parts, letter_from_json, letter_json, Letter};
use crate::raft::rpc::MessageID;
use crate::raft::NodeID;
use crate::text::str_eq;
use vstd::prelude::*;

pub use crate::maelstrom::rpc::ReservedErrorCode;

verus! {

/// <https://github.com/jepsen-io/maelstrom/blob/cb7f07239012d85d2c0595fd942ddb4613205905/doc/protocol.md#message-bodies>
#[derive(Debug)]
pub struct MessageEnvelope<B> {
    pub source: NodeID,
    pub destination: NodeID,
    pub body: B,
}

impl<B: DeepView> DeepView for MessageEnvelope<B> {
    type V = Letter<B::V>;

    open spec fn deep_view(&self) -> Letter<B::V> {
        Letter {
            source: self.source@,
            destination: self.destination@,
            body: self.body.deep_view(),
        }
    }
}

impl<B: Serialize> Serialize for MessageEnvelope<B> {
    open spec fn json(&self) -> Json {
        letter_json(self.source@, self.destination@, self.body.json())
    }

    fn serialize(&self) -> (r: Result<Value, SerializeError>) {
        let mut map: Object = Object::new();
        map.put("src", self.source.as_str())?;
        map.put("dest", self.destination.as_str())?;
        map.put("body", &self.body)?;
        Ok(Value::Object(map))
    }
}

impl<B: Deserialize> Deserialize for MessageEnvelope<B> {
    open spec fn from_json(j: Json) -> Result<Letter<B::V>, Undeserialized> {
        letter_from_json::<B>(j)
    }

    fn deserialize(value: Value) -> (r: Result<Self, DeserializeError>) {
        match value {
            Value::Object(msg) => {
                let mut msg: Object = msg;
                match msg.take3("src", "dest", "body") {
                    Some((a, b, c)) => {
                        let source: String = match String::deserialize(a) {
                            Ok(x) => x,
                            Err(e) => return Err(e),
                        };
                        let destination: String = match String::deserialize(b) {
                            Ok(x) => x,
                            Err(e) => return Err(e),
                        };
                        let body: B = match B::deserialize(c) {
                            Ok(x) => x,
                            Err(e) => return Err(e),
                        };
                        Ok(MessageEnvelope { source, destination, body })
                    },
                    None => Err(DeserializeError::InvalidValue(Value::Object(msg))),
                }
            },
            _ => Err(DeserializeError::InvalidValue(value)),
        }
    }
}

/// An envelope is read as it was sent, where its body is.
pub proof fn envelope_reads_back<B: Serialize + Deserialize>(m: MessageEnvelope<B>)
    requires
        reads_back(m.body),
    ensures
        reads_back(m),
{
    lemma_letter_parts(m.source@, m.destination@, m.body.json());
}

/// The [init
/// message](https://github.com/jepsen-io/maelstrom/blob/cb7f07239012d85d2c0595fd942ddb4613205905/doc/protocol.md#initialization).
#[derive(Debug)]
pub struct InitRequest {
    pub message_id: MessageID,
    pub node_id: NodeID,
    pub node_ids: Vec<NodeID>,
}

/// What an [`InitRequest`] is, mathematically.
#[verifier::ext_equal]
pub struct Init {
    pub message_id: u64,
    pub node_id: Seq<char>,
    pub node_ids: Seq<Seq<char>>,
}

impl DeepView for InitRequest {
    type V = Init;

    open spec fn deep_view(&self) -> Init {
        Init {
            message_id: self.message_id,
            node_id: self.node_id@,
            node_ids: self.node_ids.deep_view(),
        }
    }
}

/// The response to an init message.
#[derive(Debug)]
pub struct InitResponse {
    pub in_reply_to: MessageID,
}

/// What the members of an init message stand for.
pub open spec fn init_in(m: Members) -> Result<Init, Undeserialized> {
    match taken1(m, "type"@) {
        (Some(Json::String(kind)), rest) => match taken3(rest, "msg_id"@, "node_id"@, "node_ids"@) {
            (Some((a, b, c)), left) => if kind == "init"@ {
                match both3(u64::from_json(a), String::from_json(b), Vec::<String>::from_json(c)) {
                    Ok((message_id, node_id, node_ids)) => Ok(
                        Init { message_id, node_id, node_ids },
                    ),
                    Err(e) => Err(e),
                }
            } else {
                Err(Undeserialized::InvalidValue(Json::Object(left)))
            },
            (None, left) => Err(Undeserialized::InvalidValue(Json::Object(left))),
        },
        (_, rest) => Err(Undeserialized::InvalidValue(Json::Object(rest))),
    }
}

impl Deserialize for InitRequest {
    open spec fn from_json(j: Json) -> Result<Init, Undeserialized> {
        match j {
            Json::Object(m) => init_in(m),
            _ => Err(Undeserialized::InvalidValue(j)),
        }
    }

    fn deserialize(value: Value) -> (r: Result<Self, DeserializeError>) {
        match value {
            Value::Object(body) => {
                let mut body: Object = body;
                let kind: String = match body.remove("type") {
                    Some(Value::String(kind)) => kind,
                    _ => {
                        return Err(DeserializeError::InvalidValue(Value::Object(body)));
                    },
                };
                match body.take3("msg_id", "node_id", "node_ids") {
                    Some((a, b, c)) => {
                        if !str_eq(kind.as_str(), "init") {
                            return Err(DeserializeError::InvalidValue(Value::Object(body)));
                        }
                        let message_id: u64 = match u64::deserialize(a) {
                            Ok(x) => x,
                            Err(e) => return Err(e),
                        };
                        let node_id: String = match String::deserialize(b) {
                            Ok(x) => x,
                            Err(e) => return Err(e),
                        };
                        let node_ids: Vec<String> = match Vec::<String>::deserialize(c) {
                            Ok(x) => x,
                            Err(e) => return Err(e),
                        };
                        Ok(InitRequest { message_id, node_id, node_ids })
                    },
                    None => Err(DeserializeError::InvalidValue(Value::Object(body))),
                }
            },
            _ => Err(DeserializeError::InvalidValue(value)),
        }
    }
}

/// The response to an init message, as JSON.
pub open spec fn init_ok_json(in_reply_to: u64) -> Json {
    let m = put(Seq::empty(), "type"@, Json::String("init_ok"@));
    Json::Object(put(m, "in_reply_to"@, in_reply_to.json()))
}

impl Serialize for InitResponse {
    open spec fn json(&self) -> Json {
        init_ok_json(self.in_reply_to)
    }

    fn serialize(&self) -> (r: Result<Value, SerializeError>) {
        let mut map: Object = Object::new();
        map.put("type", "init_ok")?;
        map.put("in_reply_to", &self.in_reply_to)?;
        Ok(Value::Object(map))
    }
}

} // verus!
