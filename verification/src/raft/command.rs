//! Commands for the Raft log, specific to the key-value store use case, and what they do.
use crate::assoc::{lookup, lookup_after_put, lookup_after_without, put, without};
use crate::datum::{Datum, Duplicate};
use crate::json::fields::{both, both3, taken1, taken2, taken3, Members};
use crate::json::serde::{
    reads_back, says, Deserialize, DeserializeError, Serialize, SerializeError, Undeserialized,
};
use crate::json::value::{Json, Object, Value};
use crate::kv::{swapped, CASError, Holds, Store};
use crate::maelstrom::rpc::{reserved_number, ErrorCode, ReservedErrorCode};
use crate::raft::machine::StateMachine;
use crate::raft::rpc::{ClientMessage, ClientMsg, MessageID};
use crate::raft::NodeID;
use crate::text::str_eq;
use vstd::prelude::*;
use vstd::string::StringExecFns;

verus! {

/// An efficient, minimal representation of Raft commands for wire communication and
/// disk I/O.
#[derive(Debug)]
pub enum WireCommand<K, V> {
    /// Note, reading does not alter state, so adding it to the log is not strictly
    /// necessary and wastes space (state machine does not need Reads to reach full
    /// valid state).
    ///
    /// However, reads also require consensus, which we get natively without any special
    /// code paths and complexity by including it here.
    Read { key: K },
    Write { key: K, value: V },
    CAS { key: K, from: V, to: V },
}

/// What a [`WireCommand`] is, mathematically.
#[verifier::ext_equal]
pub enum Op<K, V> {
    Read { key: K },
    Write { key: K, value: V },
    CAS { key: K, from: V, to: V },
}

impl<K: DeepView, V: DeepView> DeepView for WireCommand<K, V> {
    type V = Op<K::V, V::V>;

    open spec fn deep_view(&self) -> Op<K::V, V::V> {
        match *self {
            WireCommand::Read { key } => Op::Read { key: key.deep_view() },
            WireCommand::Write { key, value } => Op::Write {
                key: key.deep_view(),
                value: value.deep_view(),
            },
            WireCommand::CAS { key, from, to } => Op::CAS {
                key: key.deep_view(),
                from: from.deep_view(),
                to: to.deep_view(),
            },
        }
    }
}

impl<K: Duplicate, V: Duplicate> Duplicate for WireCommand<K, V> {
    fn duplicate(&self) -> (d: WireCommand<K, V>) {
        match self {
            WireCommand::Read { key } => WireCommand::Read { key: key.duplicate() },
            WireCommand::Write { key, value } => WireCommand::Write {
                key: key.duplicate(),
                value: value.duplicate(),
            },
            WireCommand::CAS { key, from, to } => WireCommand::CAS {
                key: key.duplicate(),
                from: from.duplicate(),
                to: to.duplicate(),
            },
        }
    }
}

/// Keep key names short for efficiency (or more like simulating what that could look
/// like... it is JSON, so it's not like we care about it. In any case this justifies why
/// a dedicated wire type exists; imagine this could also be a binary format).
impl<K: Serialize, V: Serialize> Serialize for WireCommand<K, V> {
    open spec fn json(&self) -> Json {
        Json::Object(
            match *self {
                WireCommand::Read { key } => {
                    let m = put(Seq::empty(), "T"@, Json::String("r"@));
                    put(m, "k"@, key.json())
                },
                WireCommand::Write { key, value } => {
                    let m = put(Seq::empty(), "T"@, Json::String("w"@));
                    let m = put(m, "k"@, key.json());
                    put(m, "v"@, value.json())
                },
                WireCommand::CAS { key, from, to } => {
                    let m = put(Seq::empty(), "T"@, Json::String("c"@));
                    let m = put(m, "k"@, key.json());
                    let m = put(m, "f"@, from.json());
                    put(m, "t"@, to.json())
                },
            },
        )
    }

    fn serialize(&self) -> (r: Result<Value, SerializeError>) {
        let mut map: Object = Object::new();
        match self {
            WireCommand::Read { key } => {
                map.put("T", "r")?;
                map.put("k", key)?;
            },
            WireCommand::Write { key, value } => {
                map.put("T", "w")?;
                map.put("k", key)?;
                map.put("v", value)?;
            },
            WireCommand::CAS { key, from, to } => {
                map.put("T", "c")?;
                map.put("k", key)?;
                map.put("f", from)?;
                map.put("t", to)?;
            },
        }
        Ok(Value::Object(map))
    }
}

/// What the members of a `r` command stand for.
pub open spec fn read_from_json<K: Deserialize, V: Deserialize>(m: Members) -> Result<
    Op<K::V, V::V>,
    Undeserialized,
> {
    match taken1(m, "k"@) {
        (Some(a), _) => match K::from_json(a) {
            Ok(key) => Ok(Op::Read { key }),
            Err(e) => Err(e),
        },
        (None, rest) => Err(Undeserialized::InvalidValue(Json::Object(rest))),
    }
}

fn deserialize_read<K: Deserialize, V: Deserialize>(body: Object) -> (r: Result<WireCommand<K, V>, DeserializeError>)
    ensures
        says(r, read_from_json::<K, V>(body@)),
{
    let mut body: Object = body;
    match body.remove("k") {
        Some(a) => {
            let key: K = match K::deserialize(a) {
                Ok(x) => x,
                Err(e) => return Err(e),
            };
            Ok(WireCommand::Read { key })
        },
        None => Err(DeserializeError::InvalidValue(Value::Object(body))),
    }
}

/// What the members of a `w` command stand for.
pub open spec fn write_from_json<K: Deserialize, V: Deserialize>(m: Members) -> Result<
    Op<K::V, V::V>,
    Undeserialized,
> {
    match taken2(m, "k"@, "v"@) {
        (Some((a, b)), _) => match both(K::from_json(a), V::from_json(b)) {
            Ok((key, value)) => Ok(Op::Write { key, value }),
            Err(e) => Err(e),
        },
        (None, rest) => Err(Undeserialized::InvalidValue(Json::Object(rest))),
    }
}

fn deserialize_write<K: Deserialize, V: Deserialize>(body: Object) -> (r: Result<WireCommand<K, V>, DeserializeError>)
    ensures
        says(r, write_from_json::<K, V>(body@)),
{
    let mut body: Object = body;
    match body.take2("k", "v") {
        Some((a, b)) => {
            let key: K = match K::deserialize(a) {
                Ok(x) => x,
                Err(e) => return Err(e),
            };
            let value: V = match V::deserialize(b) {
                Ok(x) => x,
                Err(e) => return Err(e),
            };
            Ok(WireCommand::Write { key, value })
        },
        None => Err(DeserializeError::InvalidValue(Value::Object(body))),
    }
}

/// What the members of a `c` command stand for.
pub open spec fn cas_from_json<K: Deserialize, V: Deserialize>(m: Members) -> Result<
    Op<K::V, V::V>,
    Undeserialized,
> {
    match taken3(m, "k"@, "f"@, "t"@) {
        (Some((a, b, c)), _) => match both3(K::from_json(a), V::from_json(b), V::from_json(c)) {
            Ok((key, from, to)) => Ok(Op::CAS { key, from, to }),
            Err(e) => Err(e),
        },
        (None, rest) => Err(Undeserialized::InvalidValue(Json::Object(rest))),
    }
}

fn deserialize_cas<K: Deserialize, V: Deserialize>(body: Object) -> (r: Result<WireCommand<K, V>, DeserializeError>)
    ensures
        says(r, cas_from_json::<K, V>(body@)),
{
    let mut body: Object = body;
    match body.take3("k", "f", "t") {
        Some((a, b, c)) => {
            let key: K = match K::deserialize(a) {
                Ok(x) => x,
                Err(e) => return Err(e),
            };
            let from: V = match V::deserialize(b) {
                Ok(x) => x,
                Err(e) => return Err(e),
            };
            let to: V = match V::deserialize(c) {
                Ok(x) => x,
                Err(e) => return Err(e),
            };
            Ok(WireCommand::CAS { key, from, to })
        },
        None => Err(DeserializeError::InvalidValue(Value::Object(body))),
    }
}

/// The command that a representation stands for.
pub open spec fn op_from_json<K: Deserialize, V: Deserialize>(j: Json) -> Result<
    Op<K::V, V::V>,
    Undeserialized,
> {
    match j {
        Json::Object(m) => match taken1(m, "T"@) {
            (Some(Json::String(typ)), rest) => if typ == "r"@ {
                read_from_json::<K, V>(rest)
            } else if typ == "w"@ {
                write_from_json::<K, V>(rest)
            } else if typ == "c"@ {
                cas_from_json::<K, V>(rest)
            } else {
                Err(Undeserialized::InvalidValue(Json::Object(rest)))
            },
            (_, rest) => Err(Undeserialized::InvalidValue(Json::Object(rest))),
        },
        _ => Err(Undeserialized::InvalidValue(j)),
    }
}

impl<K: Deserialize, V: Deserialize> Deserialize for WireCommand<K, V> {
    open spec fn from_json(j: Json) -> Result<Op<K::V, V::V>, Undeserialized> {
        op_from_json::<K, V>(j)
    }

    fn deserialize(value: Value) -> (r: Result<Self, DeserializeError>) {
        match value {
            Value::Object(map) => {
                let mut map: Object = map;
                match map.remove("T") {
                    Some(Value::String(typ)) => {
                        let t: &str = typ.as_str();
                        if str_eq(t, "r") {
                            deserialize_read(map)
                        } else if str_eq(t, "w") {
                            deserialize_write(map)
                        } else if str_eq(t, "c") {
                            deserialize_cas(map)
                        } else {
                            Err(DeserializeError::InvalidValue(Value::Object(map)))
                        }
                    },
                    _ => Err(DeserializeError::InvalidValue(Value::Object(map))),
                }
            },
            _ => Err(DeserializeError::InvalidValue(value)),
        }
    }
}

/// Whether the data in a command reads back.
pub open spec fn operands_readable<K: Serialize + Deserialize, V: Serialize + Deserialize>(
    c: WireCommand<K, V>,
) -> bool {
    match c {
        WireCommand::Read { key } => reads_back(key),
        WireCommand::Write { key, value } => reads_back(key) && reads_back(value),
        WireCommand::CAS { key, from, to } => reads_back(key) && reads_back(from) && reads_back(to),
    }
}

proof fn lemma_read_reads_back<K: Serialize + Deserialize, V: Serialize + Deserialize>(m: WireCommand<K, V>)
    requires
        m is Read,
        operands_readable(m),
    ensures
        reads_back(m),
{
    broadcast use lookup_after_put, lookup_after_without;

    assert("T"@ != "k"@) by {
        reveal_strlit("T");
        reveal_strlit("k");
        assert("T"@[0] == 'T' && "k"@[0] == 'k');
    }
    if let WireCommand::Read { key } = m {
        let all = m.json()->Object_0;
        assert(lookup(all, "T"@) == Some(Json::String("r"@)));
        let m0 = without(all, "T"@);
        assert(lookup(m0, "k"@) == Some(key.json()));
    }
}

proof fn lemma_write_reads_back<K: Serialize + Deserialize, V: Serialize + Deserialize>(m: WireCommand<K, V>)
    requires
        m is Write,
        operands_readable(m),
    ensures
        reads_back(m),
{
    broadcast use lookup_after_put, lookup_after_without;

    assert("T"@ != "k"@) by {
        reveal_strlit("T");
        reveal_strlit("k");
        assert("T"@[0] == 'T' && "k"@[0] == 'k');
    }
    assert("T"@ != "v"@) by {
        reveal_strlit("T");
        reveal_strlit("v");
        assert("T"@[0] == 'T' && "v"@[0] == 'v');
    }
    assert("k"@ != "v"@) by {
        reveal_strlit("k");
        reveal_strlit("v");
        assert("k"@[0] == 'k' && "v"@[0] == 'v');
    }
    assert("w"@ != "r"@) by {
        reveal_strlit("w");
        reveal_strlit("r");
        assert("w"@[0] == 'w' && "r"@[0] == 'r');
    }
    if let WireCommand::Write { key, value } = m {
        let all = m.json()->Object_0;
        assert(lookup(all, "T"@) == Some(Json::String("w"@)));
        let m0 = without(all, "T"@);
        assert(lookup(m0, "k"@) == Some(key.json()));
        let m1 = without(m0, "k"@);
        assert(lookup(m1, "v"@) == Some(value.json()));
    }
}

proof fn lemma_cas_reads_back<K: Serialize + Deserialize, V: Serialize + Deserialize>(m: WireCommand<K, V>)
    requires
        m is CAS,
        operands_readable(m),
    ensures
        reads_back(m),
{
    broadcast use lookup_after_put, lookup_after_without;

    assert("T"@ != "k"@) by {
        reveal_strlit("T");
        reveal_strlit("k");
        assert("T"@[0] == 'T' && "k"@[0] == 'k');
    }
    assert("T"@ != "f"@) by {
        reveal_strlit("T");
        reveal_strlit("f");
        assert("T"@[0] == 'T' && "f"@[0] == 'f');
    }
    assert("T"@ != "t"@) by {
        reveal_strlit("T");
        reveal_strlit("t");
        assert("T"@[0] == 'T' && "t"@[0] == 't');
    }
    assert("k"@ != "f"@) by {
        reveal_strlit("k");
        reveal_strlit("f");
        assert("k"@[0] == 'k' && "f"@[0] == 'f');
    }
    assert("k"@ != "t"@) by {
        reveal_strlit("k");
        reveal_strlit("t");
        assert("k"@[0] == 'k' && "t"@[0] == 't');
    }
    assert("f"@ != "t"@) by {
        reveal_strlit("f");
        reveal_strlit("t");
        assert("f"@[0] == 'f' && "t"@[0] == 't');
    }
    assert("c"@ != "r"@) by {
        reveal_strlit("c");
        reveal_strlit("r");
        assert("c"@[0] == 'c' && "r"@[0] == 'r');
    }
    assert("c"@ != "w"@) by {
        reveal_strlit("c");
        reveal_strlit("w");
        assert("c"@[0] == 'c' && "w"@[0] == 'w');
    }
    if let WireCommand::CAS { key, from, to } = m {
        let all = m.json()->Object_0;
        assert(lookup(all, "T"@) == Some(Json::String("c"@)));
        let m0 = without(all, "T"@);
        assert(lookup(m0, "k"@) == Some(key.json()));
        let m1 = without(m0, "k"@);
        assert(lookup(m1, "f"@) == Some(from.json()));
        let m2 = without(m1, "f"@);
        assert(lookup(m2, "t"@) == Some(to.json()));
    }
}

/// A command is read as it was written, where the data in it is.
pub proof fn wire_command_reads_back<K: Serialize + Deserialize, V: Serialize + Deserialize>(
    c: WireCommand<K, V>,
)
    requires
        operands_readable(c),
    ensures
        reads_back(c),
{
    match c {
        WireCommand::Read { .. } => lemma_read_reads_back(c),
        WireCommand::Write { .. } => lemma_write_reads_back(c),
        WireCommand::CAS { .. } => lemma_cas_reads_back(c),
    }
}

/// A command for the Raft log, specific to the key-value store use case.
#[derive(Debug)]
pub struct Command<K, V> {
    pub inner: WireCommand<K, V>,
    /// Below are Options as they do not exist on the wire and when deserializing state
    /// (which contains the [`crate::raft::log::Log`] and thus commands) from disk.
    ///
    /// Restoring from disk implies a node booting, thus crashed, thus there's no way to
    /// respond to clients anymore anyway. Clients need to retry.
    ///
    /// The below are pure in-memory concepts.
    pub response_id: Option<MessageID>,
    pub in_reply_to: Option<MessageID>,
    pub client: Option<NodeID>,
}

/// What a [`Command`] is, mathematically.
#[verifier::ext_equal]
pub struct Cmd<K, V> {
    pub inner: Op<K, V>,
    pub response_id: Option<u64>,
    pub in_reply_to: Option<u64>,
    pub client: Option<Seq<char>>,
}

impl<K: DeepView, V: DeepView> DeepView for Command<K, V> {
    type V = Cmd<K::V, V::V>;

    open spec fn deep_view(&self) -> Cmd<K::V, V::V> {
        Cmd {
            inner: self.inner.deep_view(),
            response_id: self.response_id,
            in_reply_to: self.in_reply_to,
            client: self.client.deep_view(),
        }
    }
}

impl<K: Duplicate, V: Duplicate> Duplicate for Command<K, V> {
    fn duplicate(&self) -> (d: Command<K, V>) {
        Command {
            inner: self.inner.duplicate(),
            response_id: self.response_id,
            in_reply_to: self.in_reply_to,
            client: self.client.duplicate(),
        }
    }
}

/// The command for a client's request.
pub open spec fn command_for<K, V>(client: Seq<char>, response_id: u64, msg: ClientMsg<K, V>) -> Cmd<
    K,
    V,
> {
    Cmd {
        inner: match msg {
            ClientMsg::WriteRequest { key, value, .. } => Op::Write { key, value },
            ClientMsg::CASRequest { key, from, to, .. } => Op::CAS { key, from, to },
            _ => Op::Read { key: msg->ReadRequest_key },
        },
        response_id: Some(response_id),
        in_reply_to: Some(msg.id()),
        client: Some(client),
    }
}

impl<K: DeepView, V: DeepView> Command<K, V> {
    /// The command for a client's request. Client responses cannot be turned into Raft
    /// log commands; they are handed back.
    pub fn from_request(client: NodeID, response_id: MessageID, msg: ClientMessage<K, V>) -> (r:
        Result<Command<K, V>, ClientMessage<K, V>>)
        ensures
            match r {
                Ok(c) => msg.deep_view().is_request() && c.deep_view() == command_for(
                    client@,
                    response_id,
                    msg.deep_view(),
                ),
                Err(m) => !msg.deep_view().is_request() && m == msg,
            },
    {
        match msg {
            ClientMessage::ReadRequest { key, id } => Ok(
                Command {
                    inner: WireCommand::Read { key },
                    response_id: Some(response_id),
                    in_reply_to: Some(id),
                    client: Some(client),
                },
            ),
            ClientMessage::WriteRequest { key, value, id } => Ok(
                Command {
                    inner: WireCommand::Write { key, value },
                    response_id: Some(response_id),
                    in_reply_to: Some(id),
                    client: Some(client),
                },
            ),
            ClientMessage::CASRequest { key, from, to, id } => Ok(
                Command {
                    inner: WireCommand::CAS { key, from, to },
                    response_id: Some(response_id),
                    in_reply_to: Some(id),
                    client: Some(client),
                },
            ),
            _ => Err(msg),
        }
    }
}

impl<K: Serialize, V: Serialize> Serialize for Command<K, V> {
    open spec fn json(&self) -> Json {
        self.inner.json()
    }

    fn serialize(&self) -> (r: Result<Value, SerializeError>) {
        self.inner.serialize()
    }
}

impl<K: Deserialize, V: Deserialize> Deserialize for Command<K, V> {
    open spec fn from_json(j: Json) -> Result<Cmd<K::V, V::V>, Undeserialized> {
        match op_from_json::<K, V>(j) {
            Ok(inner) => Ok(Cmd { inner, response_id: None, in_reply_to: None, client: None }),
            Err(e) => Err(e),
        }
    }

    fn deserialize(value: Value) -> (r: Result<Self, DeserializeError>) {
        match WireCommand::<K, V>::deserialize(value) {
            Ok(inner) => Ok(
                Command { inner, response_id: None, in_reply_to: None, client: None },
            ),
            Err(e) => Err(e),
        }
    }
}

/// What is read of a written command is the operation; who asked for it is not written.
pub proof fn command_keeps_operation<K: Serialize + Deserialize, V: Serialize + Deserialize>(
    c: Command<K, V>,
)
    requires
        operands_readable(c.inner),
    ensures
        Command::<K, V>::from_json(c.json()) == Ok::<Cmd<K::V, V::V>, Undeserialized>(
            Cmd {
                inner: c.inner.deep_view(),
                response_id: None,
                in_reply_to: None,
                client: None,
            },
        ),
{
    wire_command_reads_back(c.inner);
}

/// The response to a command on a store.
pub open spec fn response<K, V: Datum>(s: Holds<K, V::V>, cmd: Cmd<K, V::V>) -> ClientMsg<K, V::V> {
    // If not set, use a bogus default: we will not end up sending this on the wire anyway.
    let id = match cmd.response_id {
        Some(n) => n,
        None => 0,
    };
    let in_reply_to = match cmd.in_reply_to {
        Some(n) => n,
        None => 0,
    };
    let no_such_key = ClientMsg::ErrorResponse {
        in_reply_to,
        id,
        code: reserved_number(ReservedErrorCode::KeyDoesNotExist),
        text: "no such key"@,
    };
    match cmd.inner {
        Op::Read { key } => match lookup(s, key) {
            Some(value) => ClientMsg::ReadResponse { in_reply_to, value, id },
            None => no_such_key,
        },
        Op::Write { .. } => ClientMsg::WriteResponse { in_reply_to, id },
        Op::CAS { key, from, .. } => match lookup(s, key) {
            Some(found) => if found == from {
                ClientMsg::CASResponse { in_reply_to, id }
            } else {
                ClientMsg::ErrorResponse {
                    in_reply_to,
                    id,
                    code: reserved_number(ReservedErrorCode::PreconditionFailed),
                    text: "values for key differ (found "@ + V::shown(found) + ")"@,
                }
            },
            None => no_such_key,
        },
    }
}

/// What a store holds behind a command.
pub open spec fn stored<K, V>(s: Holds<K, V>, op: Op<K, V>) -> Holds<K, V> {
    match op {
        Op::Read { .. } => s,
        Op::Write { key, value } => put(s, key, value),
        Op::CAS { key, from, to } => swapped(s, key, from, to),
    }
}

impl<K: Datum, V: Datum> StateMachine for Store<K, V> {
    type Command = Command<K, V>;

    /// Whom to respond to, and how.
    type Output = (NodeID, ClientMessage<K, V>);

    open spec fn start() -> Holds<K::V, V::V> {
        Seq::empty()
    }

    open spec fn applied(s: Holds<K::V, V::V>, cmd: Cmd<K::V, V::V>) -> (
        Holds<K::V, V::V>,
        Option<(Seq<char>, ClientMsg<K::V, V::V>)>,
    ) {
        (
            stored(s, cmd.inner),
            match cmd.client {
                Some(client) => Some((client, response::<K::V, V>(s, cmd))),
                None => None,
            },
        )
    }

    fn fresh() -> (m: Store<K, V>) {
        Store::new()
    }

    fn apply(&mut self, cmd: Command<K, V>) -> (r: Option<(NodeID, ClientMessage<K, V>)>) {
        let id: MessageID = match cmd.response_id {
            Some(n) => n,
            None => 0,
        };
        let in_reply_to: MessageID = match cmd.in_reply_to {
            Some(n) => n,
            None => 0,
        };
        let resp: ClientMessage<K, V> = match cmd.inner {
            WireCommand::Read { key } => match self.read(&key) {
                Some(v) => ClientMessage::ReadResponse { in_reply_to, value: v.duplicate(), id },
                None => ClientMessage::ErrorResponse {
                    in_reply_to,
                    id,
                    code: ReservedErrorCode::KeyDoesNotExist.code(),
                    text: "no such key".to_owned(),
                },
            },
            WireCommand::Write { key, value } => {
                self.write(key, value);
                ClientMessage::WriteResponse { in_reply_to, id }
            },
            WireCommand::CAS { key, from, to } => match self.compare_and_swap(&key, from, to) {
                Ok(_) => ClientMessage::CASResponse { in_reply_to, id },
                Err(CASError::ValueMismatch { found, .. }) => {
                    let mut text: String = "values for key differ (found ".to_owned();
                    text.append(found.show().as_str());
                    text.append(")");
                    ClientMessage::ErrorResponse {
                        in_reply_to,
                        id,
                        code: ReservedErrorCode::PreconditionFailed.code(),
                        text,
                    }
                },
                Err(CASError::NoSuchKey) => ClientMessage::ErrorResponse {
                    in_reply_to,
                    id,
                    code: ReservedErrorCode::KeyDoesNotExist.code(),
                    text: "no such key".to_owned(),
                },
            },
        };
        // There can be no client when deserializing the log fresh from disk: it would have
        // to retry -- we just crashed and rebooted!
        match cmd.client {
            Some(client) => Some((client, resp)),
            None => None,
        }
    }
}

/// Clients see a store: what a command answers is what it finds, and what it leaves behind
/// is what the next one finds.
pub proof fn read_command_sees_write<K, V: Datum>(
    s: Holds<K, V::V>,
    write: Cmd<K, V::V>,
    read: Cmd<K, V::V>,
)
    requires
        write.inner is Write,
        read.inner == (Op::<K, V::V>::Read { key: write.inner->Write_key }),
        read.response_id is Some,
        read.in_reply_to is Some,
    ensures
        response::<K, V>(stored(s, write.inner), read) == (ClientMsg::<K, V::V>::ReadResponse {
            in_reply_to: read.in_reply_to->Some_0,
            value: write.inner->Write_value,
            id: read.response_id->Some_0,
        }),
{
    lookup_after_put(s, write.inner->Write_key, write.inner->Write_value, write.inner->Write_key);
}

} // verus!
