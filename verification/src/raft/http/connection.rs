//! What becomes of what arrives on a socket.
use crate::decimal::{decimal, parse_u16, push_decimal, unsigned_upto, ParseIntError};
use crate::json::serde::Deserialize;
use crate::json::wire::{read_as, read_document, ReadError, Unread};
use crate::maelstrom::id_after;
use crate::maelstrom::rpc::Letter;
use crate::raft::http::request::{
    asked_in, has_request_line, request_in, Refusal, Request, RequestError,
};
use crate::raft::http::response::{reply_for, wire_text, Response};
use crate::raft::http::{sniff_message_type, sniffed, IncomingMessageType};
use crate::raft::maelstrom::infra::{route_incoming, Routed};
use crate::raft::maelstrom::rpc::MessageEnvelope;
use crate::raft::maelstrom::{CurrentMessageID, NodeMessageIDGenerator};
use crate::raft::rpc::{
    ClientMessage, ClientMsg, Message, MessageID, Msg, RaftMessage, RaftMsg,
};
use crate::raft::NodeID;
use crate::text::str_eq;
use vstd::prelude::*;
use vstd::string::StringExecFns;
use vstd::utf8::encode_utf8;

verus! {

/// The name under which a client waits for the answer to a message.
pub open spec fn queue_name(node: Seq<char>, id: u64) -> Seq<char> {
    "node-"@ + node + "-"@ + decimal(id as nat)
}

/// The name under which a client waits for the answer to a message.
pub fn queue_id(node: &str, id: MessageID) -> (s: String)
    ensures
        s@ == queue_name(node@, id),
{
    let mut s: String = "node-".to_owned();
    s.append(node);
    s.append("-");
    push_decimal(&mut s, id);
    s
}

/// What to do with a message.
pub enum Dispatch<K, V, Cmd> {
    /// Hand it to the engine.
    Route(Routed<K, V, Cmd>),
    /// It is the answer to what a client asked. If the client waits here, under the first
    /// name or else the second, send it there. Otherwise, the engine knows whom to send it to.
    Answer {
        message: ClientMessage<K, V>,
        if_follower: String,
        if_leader: String,
    },
}

/// Tells what to do with a message that arrived at a node.
pub fn dispatch<K: DeepView, V: DeepView, Cmd>(
    node: &str,
    envelope: MessageEnvelope<Message<K, V, Cmd>>,
) -> (r: Dispatch<K, V, Cmd>)
    ensures
        match (envelope.body, r) {
            (Message::Client(m), Dispatch::Answer { message, if_follower, if_leader }) => {
                &&& m.deep_view().answered() is Some
                &&& message == m
                &&& if_follower@ == queue_name(node@, m.deep_view().id())
                &&& if_leader@ == queue_name(node@, m.deep_view().answered()->Some_0)
            },
            (Message::Client(m), Dispatch::Route(to)) => m.deep_view().answered() is None && to
                == Routed::<K, V, Cmd>::Client(envelope.source, m),
            (Message::Raft(m), Dispatch::Route(to)) => to == Routed::<K, V, Cmd>::Raft(
                envelope.source,
                m,
            ),
            _ => false,
        },
{
    // Check if received message is a client response that needs to resurface.
    let answered: Option<MessageID> = match &envelope.body {
        Message::Client(m) => m.answered(),
        Message::Raft(_) => None,
    };
    match (envelope.body, answered) {
        (Message::Client(message), Some(in_reply_to)) => {
            let if_follower: String = queue_id(node, message.id());
            let if_leader: String = queue_id(node, in_reply_to);
            Dispatch::Answer { message, if_follower, if_leader }
        },
        // If message is not intended to resurface, send to proper channel for further
        // handling.
        (body, _) => Dispatch::Route(
            route_incoming(
                MessageEnvelope {
                    source: envelope.source,
                    destination: envelope.destination,
                    body,
                },
            ),
        ),
    }
}

/// What to do about what arrived at a node.
#[derive(Debug)]
pub enum Action<Cmd> {
    /// A client asks for something. It waits under a name, and the engine gets the message.
    Ask { name: String, message: ClientMessage<String, String> },
    /// The engine gets a message of another client, or node.
    HandClient { source: NodeID, message: ClientMessage<String, String> },
    /// The engine gets a message of a peer.
    HandRaft { source: NodeID, rpc: RaftMessage<Cmd> },
    /// The client that waits under a name gets its response, and waits no longer.
    Respond { name: String, wire: Vec<u8> },
    /// An answer that nobody waits for here makes another trip through the engine, in order to
    /// swap its ID back to the one that the client knows.
    Resurface { message: ClientMessage<String, String> },
    /// A request that makes no sense.
    Refuse(RequestError),
    /// A message that makes no sense.
    Unreadable(ReadError),
    /// Something unrelated.
    Drop,
}

/// What an [`Action`] is, mathematically.
#[verifier::ext_equal]
pub enum Act<C> {
    Ask { name: Seq<char>, message: ClientMsg<Seq<char>, Seq<char>> },
    HandClient { source: Seq<char>, message: ClientMsg<Seq<char>, Seq<char>> },
    HandRaft { source: Seq<char>, rpc: RaftMsg<C> },
    Respond { name: Seq<char>, wire: Seq<u8> },
    Resurface { message: ClientMsg<Seq<char>, Seq<char>> },
    Refuse(Refusal),
    Unreadable(Unread),
    Drop,
}

impl<Cmd: DeepView> DeepView for Action<Cmd> {
    type V = Act<Cmd::V>;

    open spec fn deep_view(&self) -> Act<Cmd::V> {
        match *self {
            Action::Ask { name, message } => Act::Ask {
                name: name@,
                message: message.deep_view(),
            },
            Action::HandClient { source, message } => Act::HandClient {
                source: source@,
                message: message.deep_view(),
            },
            Action::HandRaft { source, rpc } => Act::HandRaft {
                source: source@,
                rpc: rpc.deep_view(),
            },
            Action::Respond { name, wire } => Act::Respond { name: name@, wire: wire@ },
            Action::Resurface { message } => Act::Resurface { message: message.deep_view() },
            Action::Refuse(e) => Act::Refuse(e@),
            Action::Unreadable(e) => Act::Unreadable(e@),
            Action::Drop => Act::Drop,
        }
    }
}

/// The name under which the client for an answer waits, if it does: that of the message that
/// a follower passed on, or else that of the message which the leader got.
pub open spec fn waiting_name(
    waiting: Seq<Seq<char>>,
    if_follower: Seq<char>,
    if_leader: Seq<char>,
) -> Option<Seq<char>> {
    if waiting.contains(if_follower) {
        Some(if_follower)
    } else if waiting.contains(if_leader) {
        Some(if_leader)
    } else {
        None
    }
}

/// What to do about a client's request, which gets an ID.
pub open spec fn act_on_request<C>(node: Seq<char>, data: Seq<u8>, id: u64) -> Act<C> {
    match request_in(data) {
        Err(e) => Act::Refuse(e),
        Ok(wish) => match asked_in(wish, id) {
            Err(e) => Act::Refuse(e),
            Ok(message) => Act::Ask { name: queue_name(node, message.id()), message },
        },
    }
}

/// What to do about a message, where clients wait under some names.
pub open spec fn act_on_message<C>(
    node: Seq<char>,
    letter: Letter<Msg<Seq<char>, Seq<char>, C>>,
    waiting: Seq<Seq<char>>,
) -> Act<C> {
    match letter.body {
        Msg::Raft(rpc) => Act::HandRaft { source: letter.source, rpc },
        Msg::Client(message) => match message.answered() {
            None => Act::HandClient { source: letter.source, message },
            Some(in_reply_to) => match waiting_name(
                waiting,
                queue_name(node, message.id()),
                queue_name(node, in_reply_to),
            ) {
                None => Act::Resurface { message },
                Some(name) => Act::Respond {
                    name,
                    wire: encode_utf8(wire_text(reply_for::<String, String>(message))),
                },
            },
        },
    }
}

/// What to do about all that arrived on a socket. A request gets an ID.
pub open spec fn act_on<Cmd: Deserialize>(
    node: Seq<char>,
    data: Seq<u8>,
    id: u64,
    waiting: Seq<Seq<char>>,
) -> Act<Cmd::V> {
    match sniffed(data) {
        IncomingMessageType::HTTPRequest => act_on_request(node, data, id),
        IncomingMessageType::JSON => match read_as::<
            MessageEnvelope<Message<String, String, Cmd>>,
        >(data) {
            Err(e) => Act::Unreadable(e),
            Ok(letter) => act_on_message(node, letter, waiting),
        },
        IncomingMessageType::Unidentified => Act::Drop,
    }
}

/// Whether an ID is drawn: for each request that can be read.
pub open spec fn draws_id(data: Seq<u8>) -> bool {
    sniffed(data) is HTTPRequest && request_in(data) is Ok
}

fn waits(waiting: &Vec<String>, name: &str) -> (b: bool)
    ensures
        b == waiting.deep_view().contains(name@),
{
    let ghost names = waiting.deep_view();
    let mut i: usize = 0;
    while i < waiting.len()
        invariant
            i <= waiting@.len(),
            names == waiting.deep_view(),
            forall|k: int| 0 <= k < i ==> names[k] != name@,
        decreases waiting@.len() - i,
    {
        assert(names[i as int] == waiting@[i as int]@);
        if str_eq(waiting[i].as_str(), name) {
            assert(names.contains(name@));
            return true;
        }
        i = i + 1;
    }
    false
}

/// Picks the name under which the client for an answer waits.
pub fn pick_waiting(waiting: &Vec<String>, if_follower: String, if_leader: String) -> (r: Option<
    String,
>)
    ensures
        r.deep_view() == waiting_name(waiting.deep_view(), if_follower@, if_leader@),
{
    if waits(waiting, if_follower.as_str()) {
        Some(if_follower)
    } else if waits(waiting, if_leader.as_str()) {
        Some(if_leader)
    } else {
        None
    }
}

/// Tells what to do about all that arrived on a socket of a node, where clients wait under
/// some names.
pub fn act<Cmd: Deserialize>(
    node: &str,
    data: &[u8],
    ids: &mut CurrentMessageID,
    waiting: &Vec<String>,
) -> (r: Action<Cmd>)
    requires
        // should have http method and uri
        sniffed(data@) is HTTPRequest ==> has_request_line(data@),
    ensures
        r.deep_view() == act_on::<Cmd>(node@, data@, old(ids)@, waiting.deep_view()),
        final(ids)@ == if draws_id(data@) {
            id_after(old(ids)@)
        } else {
            old(ids)@
        },
{
    match sniff_message_type(data) {
        IncomingMessageType::HTTPRequest => {
            let request: Request = match Request::from_stream(data) {
                Ok(request) => request,
                Err(e) => return Action::Refuse(e),
            };
            let id: MessageID = match NodeMessageIDGenerator.next(ids) {
                Some(id) => id.get(),
                None => return Action::Drop,  // never: there is always another ID
            };
            match request.into_client_message(id) {
                Ok(message) => Action::Ask { name: queue_id(node, message.id()), message },
                Err(e) => Action::Refuse(e),
            }
        },
        IncomingMessageType::JSON => {
            let envelope: MessageEnvelope<Message<String, String, Cmd>> = match read_document(
                data,
            ) {
                Ok(envelope) => envelope,
                Err(e) => return Action::Unreadable(e),
            };
            match dispatch(node, envelope) {
                Dispatch::Route(Routed::Client(source, message)) => Action::HandClient {
                    source,
                    message,
                },
                Dispatch::Route(Routed::Raft(source, rpc)) => Action::HandRaft { source, rpc },
                Dispatch::Answer { message, if_follower, if_leader } => match pick_waiting(
                    waiting,
                    if_follower,
                    if_leader,
                ) {
                    Some(name) => Action::Respond { name, wire: Response::from(message).to_wire() },
                    None => Action::Resurface { message },
                },
            }
        },
        IncomingMessageType::Unidentified => Action::Drop,
    }
}

/// The port that a node listens on: names of nodes are ports on localhost.
pub fn port_of(node: &str) -> (r: Option<u16>)
    ensures
        match r {
            Some(p) => unsigned_upto(node@, u16::MAX as nat) == Ok::<nat, ParseIntError>(p as nat),
            None => unsigned_upto(node@, u16::MAX as nat) is Err,
        },
{
    match parse_u16(node) {
        Ok(n) => Some(n),
        Err(_) => None,
    }
}

} // verus!
