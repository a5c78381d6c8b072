//! What the messages that clients exchange with nodes look like.
use crate::assoc::{lookup, lookup_after_put, lookup_after_without};
use crate::json::fields::Members;
use crate::json::serde::{u64_reads_back, Deserialize, Serialize, Undeserialized};
use crate::json::value::Json;
use crate::maelstrom::rpc::{letter_from_json, letter_json, request_from_json, Asked, ErrorCode, Letter, Response};
use crate::raft::maelstrom::rpc::{init_in, init_ok_json, Init, InitRequest};
use crate::raft::rpc::{client_message_from_json, ClientMessage, ClientMsg};
use vstd::prelude::*;

verus! {

/// The member `name` reads as `x`.
pub open spec fn holds<T: Deserialize>(m: Members, name: Seq<char>, x: T::V) -> bool {
    lookup(m, name) matches Some(j) && T::from_json(j) == Ok::<T::V, Undeserialized>(x)
}

/// The member `type` is `kind`.
pub open spec fn is_a(m: Members, kind: Seq<char>) -> bool {
    lookup(m, "type"@) == Some(Json::String(kind))
}

proof fn lemma_member_names()
    ensures
        "type"@ != "key"@,
        "type"@ != "value"@,
        "type"@ != "from"@,
        "type"@ != "to"@,
        "type"@ != "msg_id"@,
        "type"@ != "in_reply_to"@,
        "type"@ != "code"@,
        "type"@ != "text"@,
        "type"@ != "node_id"@,
        "type"@ != "node_ids"@,
        "key"@ != "value"@,
        "key"@ != "from"@,
        "key"@ != "to"@,
        "key"@ != "msg_id"@,
        "value"@ != "msg_id"@,
        "value"@ != "in_reply_to"@,
        "from"@ != "to"@,
        "from"@ != "msg_id"@,
        "to"@ != "msg_id"@,
        "in_reply_to"@ != "msg_id"@,
        "in_reply_to"@ != "code"@,
        "in_reply_to"@ != "text"@,
        "code"@ != "msg_id"@,
        "text"@ != "msg_id"@,
        "code"@ != "text"@,
        "node_id"@ != "msg_id"@,
        "node_ids"@ != "msg_id"@,
        "node_id"@ != "node_ids"@,
{
    reveal_strlit("type");
    reveal_strlit("key");
    reveal_strlit("value");
    reveal_strlit("from");
    reveal_strlit("to");
    reveal_strlit("msg_id");
    reveal_strlit("in_reply_to");
    reveal_strlit("code");
    reveal_strlit("text");
    reveal_strlit("node_id");
    reveal_strlit("node_ids");
    assert("key"@.len() == 3 && "value"@.len() == 5 && "to"@.len() == 2 && "msg_id"@.len() == 6);
    assert("node_id"@.len() == 7 && "node_ids"@.len() == 8 && "in_reply_to"@.len() == 11);
    assert("type"@[0] == 't' && "from"@[0] == 'f' && "code"@[0] == 'c');
    assert("type"@[1] == 'y' && "text"@[1] == 'e');
    assert("code"@[1] == 'o');
}

proof fn lemma_kind_names()
    ensures
        "init"@ != "read"@,
        "init"@ != "write"@,
        "init"@ != "cas"@,
        "read"@ != "write"@,
        "read"@ != "cas"@,
        "write"@ != "cas"@,
{
    reveal_strlit("init");
    reveal_strlit("read");
    reveal_strlit("write");
    reveal_strlit("cas");
    assert("write"@.len() == 5 && "cas"@.len() == 3);
    assert("init"@[0] == 'i' && "read"@[0] == 'r');
}

/// A client's request is read by the names of its members, in whatever order they come and
/// whatever else is among them.
pub proof fn requests_are_read_by_name<K: Deserialize, V: Deserialize>(
    m: Members,
    key: K::V,
    value: V::V,
    to: V::V,
    id: u64,
)
    requires
        holds::<K>(m, "key"@, key),
        holds::<u64>(m, "msg_id"@, id),
    ensures
        is_a(m, "read"@) ==> client_message_from_json::<K, V>(Json::Object(m)) == Ok::<ClientMsg<K::V, V::V>, Undeserialized>(
            ClientMsg::ReadRequest { key, id },
        ),
        is_a(m, "write"@) && holds::<V>(m, "value"@, value) ==> client_message_from_json::<K, V>(
            Json::Object(m),
        ) == Ok::<ClientMsg<K::V, V::V>, Undeserialized>(ClientMsg::WriteRequest { key, value, id }),
        is_a(m, "cas"@) && holds::<V>(m, "from"@, value) && holds::<V>(m, "to"@, to)
            ==> client_message_from_json::<K, V>(Json::Object(m)) == Ok::<ClientMsg<K::V, V::V>, Undeserialized>(
            ClientMsg::CASRequest { key, from: value, to, id },
        ),
{
    broadcast use lookup_after_without;

    lemma_member_names();
    lemma_kind_names();
}

/// What a request asks for is what its members say.
pub proof fn requests_ask_for_what_they_name<K: Deserialize, V: Deserialize>(m: Members)
    ensures
        match client_message_from_json::<K, V>(Json::Object(m)) {
            Ok(ClientMsg::ReadRequest { key, id }) => is_a(m, "read"@) && holds::<K>(m, "key"@, key)
                && holds::<u64>(m, "msg_id"@, id),
            Ok(ClientMsg::WriteRequest { key, value, id }) => is_a(m, "write"@) && holds::<K>(
                m,
                "key"@,
                key,
            ) && holds::<V>(m, "value"@, value) && holds::<u64>(m, "msg_id"@, id),
            Ok(ClientMsg::CASRequest { key, from, to, id }) => is_a(m, "cas"@) && holds::<K>(
                m,
                "key"@,
                key,
            ) && holds::<V>(m, "from"@, from) && holds::<V>(m, "to"@, to) && holds::<u64>(
                m,
                "msg_id"@,
                id,
            ),
            Ok(ClientMsg::ReadResponse { in_reply_to, value, id }) => is_a(m, "read_ok"@)
                && holds::<u64>(m, "in_reply_to"@, in_reply_to) && holds::<V>(m, "value"@, value)
                && holds::<u64>(m, "msg_id"@, id),
            Ok(ClientMsg::WriteResponse { in_reply_to, id }) => is_a(m, "write_ok"@) && holds::<u64>(
                m,
                "in_reply_to"@,
                in_reply_to,
            ) && holds::<u64>(m, "msg_id"@, id),
            Ok(ClientMsg::CASResponse { in_reply_to, id }) => is_a(m, "cas_ok"@) && holds::<u64>(
                m,
                "in_reply_to"@,
                in_reply_to,
            ) && holds::<u64>(m, "msg_id"@, id),
            Ok(ClientMsg::ErrorResponse { in_reply_to, id, code, text }) => is_a(m, "error"@)
                && holds::<u64>(m, "in_reply_to"@, in_reply_to) && holds::<u64>(m, "msg_id"@, id)
                && holds::<u64>(m, "code"@, code) && holds::<String>(m, "text"@, text),
            Err(_) => true,
        },
{
    broadcast use lookup_after_without;

    lemma_member_names();
    lemma_kind_names();
}

/// An answer names what it answers, and says what it says, under the names that clients know.
pub proof fn answers_are_written_by_name<K: Serialize, V: Serialize>(m: ClientMessage<K, V>)
    requires
        !(m is ReadRequest || m is WriteRequest || m is CASRequest),
    ensures
        m.json() matches Json::Object(all) && match m {
            ClientMessage::ReadResponse { in_reply_to, value, id } => is_a(all, "read_ok"@)
                && holds::<u64>(all, "in_reply_to"@, in_reply_to) && lookup(all, "value"@) == Some(
                value.json(),
            ) && holds::<u64>(all, "msg_id"@, id),
            ClientMessage::WriteResponse { in_reply_to, id } => is_a(all, "write_ok"@) && holds::<
                u64,
            >(all, "in_reply_to"@, in_reply_to) && holds::<u64>(all, "msg_id"@, id),
            ClientMessage::CASResponse { in_reply_to, id } => is_a(all, "cas_ok"@) && holds::<u64>(
                all,
                "in_reply_to"@,
                in_reply_to,
            ) && holds::<u64>(all, "msg_id"@, id),
            ClientMessage::ErrorResponse { in_reply_to, id, code, text } => is_a(all, "error"@)
                && holds::<u64>(all, "in_reply_to"@, in_reply_to) && holds::<u64>(all, "msg_id"@, id)
                && holds::<u64>(all, "code"@, code) && lookup(all, "text"@) == Some(
                Json::String(text@),
            ),
            _ => false,
        },
{
    broadcast use lookup_after_put;

    lemma_member_names();
    match m {
        ClientMessage::ReadResponse { in_reply_to, value, id } => {
            u64_reads_back(in_reply_to);
            u64_reads_back(id);
        },
        ClientMessage::WriteResponse { in_reply_to, id } => {
            u64_reads_back(in_reply_to);
            u64_reads_back(id);
        },
        ClientMessage::CASResponse { in_reply_to, id } => {
            u64_reads_back(in_reply_to);
            u64_reads_back(id);
        },
        ClientMessage::ErrorResponse { in_reply_to, id, code, text } => {
            u64_reads_back(in_reply_to);
            u64_reads_back(id);
            u64_reads_back(code);
        },
        _ => {},
    }
}

/// What one node of the key-value workload is asked is read by the names of its members.
pub proof fn asks_are_read_by_name<K: Deserialize, V: Deserialize>(
    m: Members,
    id: u64,
    key: K::V,
    value: V::V,
    to: V::V,
    node: Seq<char>,
    nodes: Seq<Seq<char>>,
)
    requires
        holds::<u64>(m, "msg_id"@, id),
    ensures
        is_a(m, "init"@) && holds::<String>(m, "node_id"@, node) && holds::<Vec<String>>(
            m,
            "node_ids"@,
            nodes,
        ) ==> request_from_json::<K, V>(Json::Object(m)) == Ok::<Asked<K::V, V::V>, Undeserialized>(
            Asked::Init { message_id: id, node_id: node, node_ids: nodes },
        ),
        is_a(m, "read"@) && holds::<K>(m, "key"@, key) ==> request_from_json::<K, V>(
            Json::Object(m),
        ) == Ok::<Asked<K::V, V::V>, Undeserialized>(Asked::KVRead { key, message_id: id }),
        is_a(m, "write"@) && holds::<K>(m, "key"@, key) && holds::<V>(m, "value"@, value)
            ==> request_from_json::<K, V>(Json::Object(m)) == Ok::<Asked<K::V, V::V>, Undeserialized>(
            Asked::KVWrite { key, value, message_id: id },
        ),
        is_a(m, "cas"@) && holds::<K>(m, "key"@, key) && holds::<V>(m, "from"@, value) && holds::<
            V,
        >(m, "to"@, to) ==> request_from_json::<K, V>(Json::Object(m)) == Ok::<Asked<K::V, V::V>, Undeserialized>(
            Asked::KVCAS { key, from: value, to, message_id: id },
        ),
{
    broadcast use lookup_after_without;

    lemma_member_names();
    lemma_kind_names();
}

/// What is asked is what the members say.
pub proof fn asks_say_what_they_name<K: Deserialize, V: Deserialize>(m: Members)
    ensures
        match request_from_json::<K, V>(Json::Object(m)) {
            Ok(Asked::Init { message_id, node_id, node_ids }) => is_a(m, "init"@) && holds::<u64>(
                m,
                "msg_id"@,
                message_id,
            ) && holds::<String>(m, "node_id"@, node_id) && holds::<Vec<String>>(
                m,
                "node_ids"@,
                node_ids,
            ),
            Ok(Asked::KVRead { key, message_id }) => is_a(m, "read"@) && holds::<u64>(
                m,
                "msg_id"@,
                message_id,
            ) && holds::<K>(m, "key"@, key),
            Ok(Asked::KVWrite { key, value, message_id }) => is_a(m, "write"@) && holds::<u64>(
                m,
                "msg_id"@,
                message_id,
            ) && holds::<K>(m, "key"@, key) && holds::<V>(m, "value"@, value),
            Ok(Asked::KVCAS { key, from, to, message_id }) => is_a(m, "cas"@) && holds::<u64>(
                m,
                "msg_id"@,
                message_id,
            ) && holds::<K>(m, "key"@, key) && holds::<V>(m, "from"@, from) && holds::<V>(
                m,
                "to"@,
                to,
            ),
            Err(_) => true,
        },
{
    broadcast use lookup_after_without;

    lemma_member_names();
    lemma_kind_names();
}

/// An answer of the key-value workload says what it says under the names that clients know.
pub proof fn replies_are_written_by_name<'v, V: Serialize, EC: ErrorCode>(r: Response<'v, V, EC>)
    ensures
        r.json() matches Json::Object(all) && match r {
            Response::InitOk { in_reply_to } => is_a(all, "init_ok"@) && holds::<u64>(
                all,
                "in_reply_to"@,
                in_reply_to,
            ),
            Response::Error { in_reply_to, code, text } => is_a(all, "error"@) && holds::<u64>(
                all,
                "in_reply_to"@,
                in_reply_to,
            ) && holds::<u64>(all, "code"@, code.number()) && lookup(all, "text"@) == Some(
                text.json(),
            ),
            Response::KVReadOK { in_reply_to, value, message_id } => is_a(all, "read_ok"@)
                && holds::<u64>(all, "in_reply_to"@, in_reply_to) && lookup(all, "value"@) == Some(
                value.json(),
            ) && holds::<u64>(all, "msg_id"@, message_id@),
            Response::KVWriteOK { in_reply_to, message_id } => is_a(all, "write_ok"@) && holds::<
                u64,
            >(all, "in_reply_to"@, in_reply_to) && holds::<u64>(all, "msg_id"@, message_id@),
            Response::KVCASOK { in_reply_to, message_id } => is_a(all, "cas_ok"@) && holds::<u64>(
                all,
                "in_reply_to"@,
                in_reply_to,
            ) && holds::<u64>(all, "msg_id"@, message_id@),
        },
{
    broadcast use lookup_after_put;

    lemma_member_names();
    match r {
        Response::InitOk { in_reply_to } => {
            u64_reads_back(in_reply_to);
        },
        Response::Error { in_reply_to, code, text } => {
            u64_reads_back(in_reply_to);
            u64_reads_back(code.number());
        },
        Response::KVReadOK { in_reply_to, value, message_id } => {
            u64_reads_back(in_reply_to);
            u64_reads_back(message_id@);
        },
        Response::KVWriteOK { in_reply_to, message_id } => {
            u64_reads_back(in_reply_to);
            u64_reads_back(message_id@);
        },
        Response::KVCASOK { in_reply_to, message_id } => {
            u64_reads_back(in_reply_to);
            u64_reads_back(message_id@);
        },
    }
}

proof fn lemma_envelope_names()
    ensures
        "src"@ != "dest"@,
        "src"@ != "body"@,
        "dest"@ != "body"@,
{
    reveal_strlit("src");
    reveal_strlit("dest");
    reveal_strlit("body");
    assert("src"@.len() == 3);
    assert("dest"@[0] == 'd' && "body"@[0] == 'b');
}

/// A message tells who sent it, whom it is for, and what it says, under the names that everyone
/// knows; and it is read by those names exactly.
pub proof fn envelopes_are_told_by_name<B: Deserialize>(
    source: Seq<char>,
    destination: Seq<char>,
    body: Json,
    m: Members,
)
    ensures
        letter_json(source, destination, body) matches Json::Object(all) && lookup(all, "src"@) == Some(
            Json::String(source),
        ) && lookup(all, "dest"@) == Some(Json::String(destination)) && lookup(all, "body"@) == Some(
            body,
        ),
        letter_from_json::<B>(Json::Object(m)) matches Ok(l) ==> holds::<String>(m, "src"@, l.source)
            && holds::<String>(m, "dest"@, l.destination) && holds::<B>(m, "body"@, l.body),
        forall|s: Seq<char>, d: Seq<char>, b: B::V|
            #![trigger holds::<String>(m, "src"@, s), holds::<String>(m, "dest"@, d), holds::<B>(m, "body"@, b)]
            holds::<String>(m, "src"@, s) && holds::<String>(m, "dest"@, d) && holds::<B>(
                m,
                "body"@,
                b,
            ) ==> letter_from_json::<B>(Json::Object(m)) == Ok::<Letter<B::V>, Undeserialized>(
                Letter { source: s, destination: d, body: b },
            ),
{
    broadcast use {lookup_after_put, lookup_after_without};

    lemma_envelope_names();
}

/// A node learns who it is, and who its cluster is, by the names in the message that says so; and
/// the answer names that message.
pub proof fn inits_are_read_by_name(m: Members, id: u64, node: Seq<char>, nodes: Seq<Seq<char>>)
    ensures
        InitRequest::from_json(Json::Object(m)) == Ok::<Init, Undeserialized>(
            Init { message_id: id, node_id: node, node_ids: nodes },
        ) <==> is_a(m, "init"@) && holds::<u64>(m, "msg_id"@, id) && holds::<String>(
            m,
            "node_id"@,
            node,
        ) && holds::<Vec<String>>(m, "node_ids"@, nodes),
        init_ok_json(id) matches Json::Object(all) && is_a(all, "init_ok"@) && holds::<u64>(
            all,
            "in_reply_to"@,
            id,
        ),
{
    broadcast use {lookup_after_put, lookup_after_without};

    lemma_member_names();
    u64_reads_back(id);
    assert(InitRequest::from_json(Json::Object(m)) == init_in(m));
}

} // verus!
