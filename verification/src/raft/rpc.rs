//! Types and implementations (ser/de) for client and Raft RPC.
//!
//! See also p. 4 of <https://raft.github.io/raft.pdf>.
use crate::assoc::{lookup, lookup_after_put, lookup_after_without, put, without};
use crate::datum::Duplicate;
use crate::json::fields::{both, both3, both4, both5, taken1, taken2, taken3, taken4, taken5, Members};
use crate::json::serde::{
    bool_reads_back, option_reads_back, reads_back, says, string_reads_back, u64_reads_back, Deserialize,
    DeserializeError, Serialize, SerializeError, Undeserialized,
};
use crate::json::value::{Json, Object, Value};
use crate::raft::log::{Entry, Log, LogIndex, Term};
use crate::raft::serde::{index_reads_back, log_reads_back, term_reads_back};
use crate::text::str_eq;
use vstd::prelude::*;

verus! {

pub type MessageID = u64;

/// Any message.
#[derive(Debug)]
pub enum Message<K, V, C> {
    Raft(RaftMessage<C>),
    Client(ClientMessage<K, V>),
}

/// What a [`Message`] is, mathematically.
#[verifier::ext_equal]
pub enum Msg<K, V, C> {
    Raft(RaftMsg<C>),
    Client(ClientMsg<K, V>),
}

impl<K: DeepView, V: DeepView, C: DeepView> DeepView for Message<K, V, C> {
    type V = Msg<K::V, V::V, C::V>;

    open spec fn deep_view(&self) -> Msg<K::V, V::V, C::V> {
        match *self {
            Message::Raft(m) => Msg::Raft(m.deep_view()),
            Message::Client(m) => Msg::Client(m.deep_view()),
        }
    }
}

/// What Raft peers send each other.
#[derive(Debug)]
pub enum RaftMessage<Cmd> {
    AppendEntries {
        /// Leader's term.
        term: Term,
        /// Leader's commit index. No commits might have occurred yet.
        commit_index: Option<LogIndex>,
        /// Leader's index of log entry immediately preceding new ones.
        ///
        /// Unset if this is the very first request, sending _initial_ entries.
        prev_log_index: Option<LogIndex>,
        /// Leader's term of log entry immediately preceding new ones.
        prev_log_term: Option<Term>,
        /// Log entries to store (empty for heartbeat). May send more than one for
        /// efficiency.
        entries: Log<Cmd>,
    },
    AppendEntriesResponse {
        /// Current term, for leader to update itself.
        current_term: Term,
        /// New index of potentially updated follower log.
        ///
        /// Note if appending entries fails, no log update might happen, leaving empty
        /// logs empty, thus having an index is optional.
        index: Option<LogIndex>,
        /// True if follower contained entry matching previous log index and previous
        /// log term.
        success: bool,
    },
    RequestVote {
        /// The requesting candidate's term.
        candidate_term: Term,
        /// Index of candidate's last log entry, if any.
        last_log_index: Option<LogIndex>,
        /// Term of candidate's last log entry, if any.
        last_log_term: Option<Term>,
    },
    RequestVoteResponse {
        /// Node's term, for candidate to update itself.
        term: Term,
        /// If true, candidate received vote.
        vote_granted: bool,
    },
}

/// What a [`RaftMessage`] is, mathematically.
#[verifier::ext_equal]
pub enum RaftMsg<C> {
    AppendEntries {
        term: u64,
        commit_index: Option<u64>,
        prev_log_index: Option<u64>,
        prev_log_term: Option<u64>,
        entries: Seq<Entry<C>>,
    },
    AppendEntriesResponse { current_term: u64, index: Option<u64>, success: bool },
    RequestVote { candidate_term: u64, last_log_index: Option<u64>, last_log_term: Option<u64> },
    RequestVoteResponse { term: u64, vote_granted: bool },
}

impl<C: DeepView> DeepView for RaftMessage<C> {
    type V = RaftMsg<C::V>;

    open spec fn deep_view(&self) -> RaftMsg<C::V> {
        match *self {
            RaftMessage::AppendEntries {
                term,
                commit_index,
                prev_log_index,
                prev_log_term,
                entries,
            } => RaftMsg::AppendEntries {
                term: term.0,
                commit_index: commit_index.deep_view(),
                prev_log_index: prev_log_index.deep_view(),
                prev_log_term: prev_log_term.deep_view(),
                entries: entries.deep_view(),
            },
            RaftMessage::AppendEntriesResponse { current_term, index, success } =>
                RaftMsg::AppendEntriesResponse {
                current_term: current_term.0,
                index: index.deep_view(),
                success,
            },
            RaftMessage::RequestVote { candidate_term, last_log_index, last_log_term } =>
                RaftMsg::RequestVote {
                candidate_term: candidate_term.0,
                last_log_index: last_log_index.deep_view(),
                last_log_term: last_log_term.deep_view(),
            },
            RaftMessage::RequestVoteResponse { term, vote_granted } =>
                RaftMsg::RequestVoteResponse { term: term.0, vote_granted },
        }
    }
}

impl<C> RaftMsg<C> {
    /// The term in the message.
    pub open spec fn term(self) -> u64 {
        match self {
            RaftMsg::AppendEntries { term, .. } => term,
            RaftMsg::AppendEntriesResponse { current_term, .. } => current_term,
            RaftMsg::RequestVote { candidate_term, .. } => candidate_term,
            RaftMsg::RequestVoteResponse { term, .. } => term,
        }
    }
}

impl<C: DeepView> RaftMessage<C> {
    /// All message envelopes contain a term. Extract it.
    pub fn term(&self) -> (t: Term)
        ensures
            t.0 == self.deep_view().term(),
    {
        match self {
            RaftMessage::AppendEntries { term, .. } => *term,
            RaftMessage::AppendEntriesResponse { current_term, .. } => *current_term,
            RaftMessage::RequestVote { candidate_term, .. } => *candidate_term,
            RaftMessage::RequestVoteResponse { term, .. } => *term,
        }
    }
}

/// What clients and nodes send each other. See also
/// <https://github.com/jepsen-io/maelstrom/blob/cb7f07239012d85d2c0595fd942ddb4613205905/doc/workloads.md#workload-lin-kv>.
#[derive(Debug)]
pub enum ClientMessage<K, V> {
    ReadRequest { key: K, id: MessageID },
    WriteRequest { key: K, value: V, id: MessageID },
    CASRequest { key: K, from: V, to: V, id: MessageID },
    ReadResponse { in_reply_to: MessageID, value: V, id: MessageID },
    WriteResponse { in_reply_to: MessageID, id: MessageID },
    CASResponse { in_reply_to: MessageID, id: MessageID },
    ErrorResponse { in_reply_to: MessageID, id: MessageID, code: u64, text: String },
}

/// What a [`ClientMessage`] is, mathematically.
#[verifier::ext_equal]
pub enum ClientMsg<K, V> {
    ReadRequest { key: K, id: u64 },
    WriteRequest { key: K, value: V, id: u64 },
    CASRequest { key: K, from: V, to: V, id: u64 },
    ReadResponse { in_reply_to: u64, value: V, id: u64 },
    WriteResponse { in_reply_to: u64, id: u64 },
    CASResponse { in_reply_to: u64, id: u64 },
    ErrorResponse { in_reply_to: u64, id: u64, code: u64, text: Seq<char> },
}

impl<K: DeepView, V: DeepView> DeepView for ClientMessage<K, V> {
    type V = ClientMsg<K::V, V::V>;

    open spec fn deep_view(&self) -> ClientMsg<K::V, V::V> {
        match *self {
            ClientMessage::ReadRequest { key, id } => ClientMsg::ReadRequest {
                key: key.deep_view(),
                id,
            },
            ClientMessage::WriteRequest { key, value, id } => ClientMsg::WriteRequest {
                key: key.deep_view(),
                value: value.deep_view(),
                id,
            },
            ClientMessage::CASRequest { key, from, to, id } => ClientMsg::CASRequest {
                key: key.deep_view(),
                from: from.deep_view(),
                to: to.deep_view(),
                id,
            },
            ClientMessage::ReadResponse { in_reply_to, value, id } => ClientMsg::ReadResponse {
                in_reply_to,
                value: value.deep_view(),
                id,
            },
            ClientMessage::WriteResponse { in_reply_to, id } => ClientMsg::WriteResponse {
                in_reply_to,
                id,
            },
            ClientMessage::CASResponse { in_reply_to, id } => ClientMsg::CASResponse {
                in_reply_to,
                id,
            },
            ClientMessage::ErrorResponse { in_reply_to, id, code, text } =>
                ClientMsg::ErrorResponse { in_reply_to, id, code, text: text@ },
        }
    }
}

impl<K, V> ClientMsg<K, V> {
    /// The ID of the message.
    pub open spec fn id(self) -> u64 {
        match self {
            ClientMsg::ReadRequest { id, .. } => id,
            ClientMsg::WriteRequest { id, .. } => id,
            ClientMsg::CASRequest { id, .. } => id,
            ClientMsg::ReadResponse { id, .. } => id,
            ClientMsg::WriteResponse { id, .. } => id,
            ClientMsg::CASResponse { id, .. } => id,
            ClientMsg::ErrorResponse { id, .. } => id,
        }
    }

    /// The message with another ID.
    pub open spec fn with_id(self, to: u64) -> ClientMsg<K, V> {
        match self {
            ClientMsg::ReadRequest { key, .. } => ClientMsg::ReadRequest { key, id: to },
            ClientMsg::WriteRequest { key, value, .. } => ClientMsg::WriteRequest {
                key,
                value,
                id: to,
            },
            ClientMsg::CASRequest { key, from, to: new, .. } => ClientMsg::CASRequest {
                key,
                from,
                to: new,
                id: to,
            },
            ClientMsg::ReadResponse { in_reply_to, value, .. } => ClientMsg::ReadResponse {
                in_reply_to,
                value,
                id: to,
            },
            ClientMsg::WriteResponse { in_reply_to, .. } => ClientMsg::WriteResponse {
                in_reply_to,
                id: to,
            },
            ClientMsg::CASResponse { in_reply_to, .. } => ClientMsg::CASResponse {
                in_reply_to,
                id: to,
            },
            ClientMsg::ErrorResponse { in_reply_to, code, text, .. } => ClientMsg::ErrorResponse {
                in_reply_to,
                id: to,
                code,
                text,
            },
        }
    }

    /// The message as an answer to the message with another ID.
    pub open spec fn answering(self, to: u64) -> ClientMsg<K, V> {
        match self {
            ClientMsg::ReadResponse { value, id, .. } => ClientMsg::ReadResponse {
                in_reply_to: to,
                value,
                id,
            },
            ClientMsg::WriteResponse { id, .. } => ClientMsg::WriteResponse { in_reply_to: to, id },
            ClientMsg::CASResponse { id, .. } => ClientMsg::CASResponse { in_reply_to: to, id },
            ClientMsg::ErrorResponse { id, code, text, .. } => ClientMsg::ErrorResponse {
                in_reply_to: to,
                id,
                code,
                text,
            },
            _ => self,
        }
    }

    /// Whether this asks for something, rather than answers.
    pub open spec fn is_request(self) -> bool {
        self is ReadRequest || self is WriteRequest || self is CASRequest
    }

    /// The ID of the message that this answers.
    pub open spec fn answered(self) -> Option<u64> {
        match self {
            ClientMsg::ReadResponse { in_reply_to, .. } => Some(in_reply_to),
            ClientMsg::WriteResponse { in_reply_to, .. } => Some(in_reply_to),
            ClientMsg::CASResponse { in_reply_to, .. } => Some(in_reply_to),
            ClientMsg::ErrorResponse { in_reply_to, .. } => Some(in_reply_to),
            _ => None,
        }
    }
}

impl<K: DeepView, V: DeepView> ClientMessage<K, V> {
    /// The ID of the message.
    pub fn id(&self) -> (id: MessageID)
        ensures
            id == self.deep_view().id(),
    {
        match self {
            ClientMessage::ReadRequest { id, .. } => *id,
            ClientMessage::WriteRequest { id, .. } => *id,
            ClientMessage::CASRequest { id, .. } => *id,
            ClientMessage::ReadResponse { id, .. } => *id,
            ClientMessage::WriteResponse { id, .. } => *id,
            ClientMessage::CASResponse { id, .. } => *id,
            ClientMessage::ErrorResponse { id, .. } => *id,
        }
    }

    /// Gives the message another ID.
    pub fn set_id(&mut self, to: MessageID)
        ensures
            final(self).deep_view() == old(self).deep_view().with_id(to),
    {
        match self {
            ClientMessage::ReadRequest { id, .. } => *id = to,
            ClientMessage::WriteRequest { id, .. } => *id = to,
            ClientMessage::CASRequest { id, .. } => *id = to,
            ClientMessage::ReadResponse { id, .. } => *id = to,
            ClientMessage::WriteResponse { id, .. } => *id = to,
            ClientMessage::CASResponse { id, .. } => *id = to,
            ClientMessage::ErrorResponse { id, .. } => *id = to,
        }
    }

    /// Lets an answer answer another message.
    pub fn set_answered(&mut self, to: MessageID)
        ensures
            final(self).deep_view() == old(self).deep_view().answering(to),
    {
        match self {
            ClientMessage::ReadResponse { in_reply_to, .. } => *in_reply_to = to,
            ClientMessage::WriteResponse { in_reply_to, .. } => *in_reply_to = to,
            ClientMessage::CASResponse { in_reply_to, .. } => *in_reply_to = to,
            ClientMessage::ErrorResponse { in_reply_to, .. } => *in_reply_to = to,
            _ => {},
        }
    }

    /// The ID of the message that this answers, if it is an answer.
    pub fn answered(&self) -> (r: Option<MessageID>)
        ensures
            r == self.deep_view().answered(),
            r is None == self.deep_view().is_request(),
    {
        match self {
            ClientMessage::ReadResponse { in_reply_to, .. } => Some(*in_reply_to),
            ClientMessage::WriteResponse { in_reply_to, .. } => Some(*in_reply_to),
            ClientMessage::CASResponse { in_reply_to, .. } => Some(*in_reply_to),
            ClientMessage::ErrorResponse { in_reply_to, .. } => Some(*in_reply_to),
            _ => None,
        }
    }
}

/// A message that was given an ID has that ID.
pub proof fn set_id_is_id<K, V>(m: ClientMsg<K, V>, to: u64)
    ensures
        m.with_id(to).id() == to,
        m.with_id(to).with_id(m.id()) == m,
{
}

impl<C: Serialize> Serialize for RaftMessage<C> {
    open spec fn json(&self) -> Json {
        Json::Object(match *self {
            RaftMessage::AppendEntries { term, prev_log_index, prev_log_term, entries, commit_index } => {
                let m = put(Seq::empty(), "type"@, Json::String("append_entries"@));
                let m = put(m, "leader_term"@, term.json());
                let m = put(m, "prev_log_index"@, prev_log_index.json());
                let m = put(m, "prev_log_term"@, prev_log_term.json());
                let m = put(m, "entries"@, entries.json());
                put(m, "leader_commit"@, commit_index.json())
            },
            RaftMessage::AppendEntriesResponse { index, current_term, success } => {
                let m = put(Seq::empty(), "type"@, Json::String("append_entries_response"@));
                let m = put(m, "index"@, index.json());
                let m = put(m, "current_term"@, current_term.json());
                put(m, "success"@, success.json())
            },
            RaftMessage::RequestVote { candidate_term, last_log_index, last_log_term } => {
                let m = put(Seq::empty(), "type"@, Json::String("request_vote"@));
                let m = put(m, "candidate_term"@, candidate_term.json());
                let m = put(m, "last_log_index"@, last_log_index.json());
                put(m, "last_log_term"@, last_log_term.json())
            },
            RaftMessage::RequestVoteResponse { term, vote_granted } => {
                let m = put(Seq::empty(), "type"@, Json::String("request_vote_response"@));
                let m = put(m, "term"@, term.json());
                put(m, "vote_granted"@, vote_granted.json())
            },
        })
    }

    fn serialize(&self) -> (r: Result<Value, SerializeError>) {
        let mut map: Object = Object::new();
        match self {
            RaftMessage::AppendEntries { term, prev_log_index, prev_log_term, entries, commit_index } => {
                map.put("type", "append_entries")?;
                map.put("leader_term", term)?;
                map.put("prev_log_index", prev_log_index)?;
                map.put("prev_log_term", prev_log_term)?;
                map.put("entries", entries)?;
                map.put("leader_commit", commit_index)?;
            },
            RaftMessage::AppendEntriesResponse { index, current_term, success } => {
                map.put("type", "append_entries_response")?;
                map.put("index", index)?;
                map.put("current_term", current_term)?;
                map.put("success", success)?;
            },
            RaftMessage::RequestVote { candidate_term, last_log_index, last_log_term } => {
                map.put("type", "request_vote")?;
                map.put("candidate_term", candidate_term)?;
                map.put("last_log_index", last_log_index)?;
                map.put("last_log_term", last_log_term)?;
            },
            RaftMessage::RequestVoteResponse { term, vote_granted } => {
                map.put("type", "request_vote_response")?;
                map.put("term", term)?;
                map.put("vote_granted", vote_granted)?;
            },
        }
        Ok(Value::Object(map))
    }
}

/// What the members of a `append_entries` message stand for.
pub open spec fn append_entries_from_json<C: Deserialize>(m: Members) -> Result<
    RaftMsg<C::V>,
    Undeserialized,
> {
    match taken5(m, "leader_term"@, "prev_log_index"@, "prev_log_term"@, "entries"@, "leader_commit"@) {
        (Some((a, b, c, d, e)), _) => match both5(Term::from_json(a), Option::<LogIndex>::from_json(b), Option::<Term>::from_json(c), Log::<C>::from_json(d), Option::<LogIndex>::from_json(e)) {
            Ok((term, prev_log_index, prev_log_term, entries, commit_index)) => Ok(RaftMsg::AppendEntries { term, prev_log_index, prev_log_term, entries, commit_index }),
            Err(e) => Err(e),
        },
        (None, rest) => Err(Undeserialized::InvalidValue(Json::Object(rest))),
    }
}

fn deserialize_append_entries<C: Deserialize>(body: Object) -> (r: Result<RaftMessage<C>, DeserializeError>)
    ensures
        says(r, append_entries_from_json::<C>(body@)),
{
    let mut body: Object = body;
    match body.take5("leader_term", "prev_log_index", "prev_log_term", "entries", "leader_commit") {
        Some((a, b, c, d, e)) => {
            let term: Term = match Term::deserialize(a) {
                Ok(x) => x,
                Err(e) => return Err(e),
            };
            let prev_log_index: Option<LogIndex> = match Option::<LogIndex>::deserialize(b) {
                Ok(x) => x,
                Err(e) => return Err(e),
            };
            let prev_log_term: Option<Term> = match Option::<Term>::deserialize(c) {
                Ok(x) => x,
                Err(e) => return Err(e),
            };
            let entries: Log<C> = match Log::<C>::deserialize(d) {
                Ok(x) => x,
                Err(e) => return Err(e),
            };
            let commit_index: Option<LogIndex> = match Option::<LogIndex>::deserialize(e) {
                Ok(x) => x,
                Err(e) => return Err(e),
            };
            Ok(RaftMessage::AppendEntries { term, prev_log_index, prev_log_term, entries, commit_index })
        },
        None => Err(DeserializeError::InvalidValue(Value::Object(body))),
    }
}

/// What the members of a `append_entries_response` message stand for.
pub open spec fn append_entries_response_from_json<C: Deserialize>(m: Members) -> Result<
    RaftMsg<C::V>,
    Undeserialized,
> {
    match taken3(m, "current_term"@, "index"@, "success"@) {
        (Some((a, b, c)), _) => match both3(Term::from_json(a), Option::<LogIndex>::from_json(b), bool::from_json(c)) {
            Ok((current_term, index, success)) => Ok(RaftMsg::AppendEntriesResponse { current_term, index, success }),
            Err(e) => Err(e),
        },
        (None, rest) => Err(Undeserialized::InvalidValue(Json::Object(rest))),
    }
}

fn deserialize_append_entries_response<C: Deserialize>(body: Object) -> (r: Result<RaftMessage<C>, DeserializeError>)
    ensures
        says(r, append_entries_response_from_json::<C>(body@)),
{
    let mut body: Object = body;
    match body.take3("current_term", "index", "success") {
        Some((a, b, c)) => {
            let current_term: Term = match Term::deserialize(a) {
                Ok(x) => x,
                Err(e) => return Err(e),
            };
            let index: Option<LogIndex> = match Option::<LogIndex>::deserialize(b) {
                Ok(x) => x,
                Err(e) => return Err(e),
            };
            let success: bool = match bool::deserialize(c) {
                Ok(x) => x,
                Err(e) => return Err(e),
            };
            Ok(RaftMessage::AppendEntriesResponse { current_term, index, success })
        },
        None => Err(DeserializeError::InvalidValue(Value::Object(body))),
    }
}

/// What the members of a `request_vote` message stand for.
pub open spec fn request_vote_from_json<C: Deserialize>(m: Members) -> Result<
    RaftMsg<C::V>,
    Undeserialized,
> {
    match taken3(m, "candidate_term"@, "last_log_index"@, "last_log_term"@) {
        (Some((a, b, c)), _) => match both3(Term::from_json(a), Option::<LogIndex>::from_json(b), Option::<Term>::from_json(c)) {
            Ok((candidate_term, last_log_index, last_log_term)) => Ok(RaftMsg::RequestVote { candidate_term, last_log_index, last_log_term }),
            Err(e) => Err(e),
        },
        (None, rest) => Err(Undeserialized::InvalidValue(Json::Object(rest))),
    }
}

fn deserialize_request_vote<C: Deserialize>(body: Object) -> (r: Result<RaftMessage<C>, DeserializeError>)
    ensures
        says(r, request_vote_from_json::<C>(body@)),
{
    let mut body: Object = body;
    match body.take3("candidate_term", "last_log_index", "last_log_term") {
        Some((a, b, c)) => {
            let candidate_term: Term = match Term::deserialize(a) {
                Ok(x) => x,
                Err(e) => return Err(e),
            };
            let last_log_index: Option<LogIndex> = match Option::<LogIndex>::deserialize(b) {
                Ok(x) => x,
                Err(e) => return Err(e),
            };
            let last_log_term: Option<Term> = match Option::<Term>::deserialize(c) {
                Ok(x) => x,
                Err(e) => return Err(e),
            };
            Ok(RaftMessage::RequestVote { candidate_term, last_log_index, last_log_term })
        },
        None => Err(DeserializeError::InvalidValue(Value::Object(body))),
    }
}

/// What the members of a `request_vote_response` message stand for.
pub open spec fn request_vote_response_from_json<C: Deserialize>(m: Members) -> Result<
    RaftMsg<C::V>,
    Undeserialized,
> {
    match taken2(m, "term"@, "vote_granted"@) {
        (Some((a, b)), _) => match both(Term::from_json(a), bool::from_json(b)) {
            Ok((term, vote_granted)) => Ok(RaftMsg::RequestVoteResponse { term, vote_granted }),
            Err(e) => Err(e),
        },
        (None, rest) => Err(Undeserialized::InvalidValue(Json::Object(rest))),
    }
}

fn deserialize_request_vote_response<C: Deserialize>(body: Object) -> (r: Result<RaftMessage<C>, DeserializeError>)
    ensures
        says(r, request_vote_response_from_json::<C>(body@)),
{
    let mut body: Object = body;
    match body.take2("term", "vote_granted") {
        Some((a, b)) => {
            let term: Term = match Term::deserialize(a) {
                Ok(x) => x,
                Err(e) => return Err(e),
            };
            let vote_granted: bool = match bool::deserialize(b) {
                Ok(x) => x,
                Err(e) => return Err(e),
            };
            Ok(RaftMessage::RequestVoteResponse { term, vote_granted })
        },
        None => Err(DeserializeError::InvalidValue(Value::Object(body))),
    }
}

/// The Raft message that a representation stands for.
pub open spec fn raft_message_from_json<C: Deserialize>(j: Json) -> Result<
    RaftMsg<C::V>,
    Undeserialized,
> {
    match j {
        Json::Object(m) => match taken1(m, "type"@) {
            (Some(Json::String(typ)), rest) => if typ == "append_entries"@ {
                append_entries_from_json::<C>(rest)
            } else if typ == "append_entries_response"@ {
                append_entries_response_from_json::<C>(rest)
            } else if typ == "request_vote"@ {
                request_vote_from_json::<C>(rest)
            } else if typ == "request_vote_response"@ {
                request_vote_response_from_json::<C>(rest)
            } else {
                Err(Undeserialized::InvalidValue(Json::Object(rest)))
            },
            (_, rest) => Err(Undeserialized::InvalidValue(Json::Object(rest))),
        },
        _ => Err(Undeserialized::InvalidValue(j)),
    }
}

impl<C: Deserialize> Deserialize for RaftMessage<C> {
    open spec fn from_json(j: Json) -> Result<RaftMsg<C::V>, Undeserialized> {
        raft_message_from_json::<C>(j)
    }

    fn deserialize(value: Value) -> (r: Result<Self, DeserializeError>) {
        assert(Self::from_json(value@) == raft_message_from_json::<C>(value@));
        match value {
            Value::Object(body) => {
                let mut body: Object = body;
                match body.remove("type") {
                    Some(Value::String(typ)) => {
                        let t: &str = typ.as_str();
                        if str_eq(t, "append_entries") {
                            deserialize_append_entries(body)
                        } else if str_eq(t, "append_entries_response") {
                            deserialize_append_entries_response(body)
                        } else if str_eq(t, "request_vote") {
                            deserialize_request_vote(body)
                        } else if str_eq(t, "request_vote_response") {
                            deserialize_request_vote_response(body)
                        } else {
                            Err(DeserializeError::InvalidValue(Value::Object(body)))
                        }
                    },
                    _ => Err(DeserializeError::InvalidValue(Value::Object(body))),
                }
            },
            _ => Err(DeserializeError::InvalidValue(value)),
        }
    }
}

impl<K: Serialize, V: Serialize> Serialize for ClientMessage<K, V> {
    open spec fn json(&self) -> Json {
        Json::Object(match *self {
            ClientMessage::ReadRequest { key, id } => {
                let m = put(Seq::empty(), "type"@, Json::String("read"@));
                let m = put(m, "key"@, key.json());
                put(m, "msg_id"@, id.json())
            },
            ClientMessage::WriteRequest { key, value, id } => {
                let m = put(Seq::empty(), "type"@, Json::String("write"@));
                let m = put(m, "key"@, key.json());
                let m = put(m, "value"@, value.json());
                put(m, "msg_id"@, id.json())
            },
            ClientMessage::CASRequest { key, from, to, id } => {
                let m = put(Seq::empty(), "type"@, Json::String("cas"@));
                let m = put(m, "key"@, key.json());
                let m = put(m, "from"@, from.json());
                let m = put(m, "to"@, to.json());
                put(m, "msg_id"@, id.json())
            },
            ClientMessage::ReadResponse { in_reply_to, value, id } => {
                let m = put(Seq::empty(), "type"@, Json::String("read_ok"@));
                let m = put(m, "in_reply_to"@, in_reply_to.json());
                let m = put(m, "value"@, value.json());
                put(m, "msg_id"@, id.json())
            },
            ClientMessage::WriteResponse { in_reply_to, id } => {
                let m = put(Seq::empty(), "type"@, Json::String("write_ok"@));
                let m = put(m, "in_reply_to"@, in_reply_to.json());
                put(m, "msg_id"@, id.json())
            },
            ClientMessage::CASResponse { in_reply_to, id } => {
                let m = put(Seq::empty(), "type"@, Json::String("cas_ok"@));
                let m = put(m, "in_reply_to"@, in_reply_to.json());
                put(m, "msg_id"@, id.json())
            },
            ClientMessage::ErrorResponse { in_reply_to, id, code, text } => {
                let m = put(Seq::empty(), "type"@, Json::String("error"@));
                let m = put(m, "in_reply_to"@, in_reply_to.json());
                let m = put(m, "msg_id"@, id.json());
                let m = put(m, "code"@, code.json());
                put(m, "text"@, text.json())
            },
        })
    }

    fn serialize(&self) -> (r: Result<Value, SerializeError>) {
        let mut map: Object = Object::new();
        match self {
            ClientMessage::ReadRequest { key, id } => {
                map.put("type", "read")?;
                map.put("key", key)?;
                map.put("msg_id", id)?;
            },
            ClientMessage::WriteRequest { key, value, id } => {
                map.put("type", "write")?;
                map.put("key", key)?;
                map.put("value", value)?;
                map.put("msg_id", id)?;
            },
            ClientMessage::CASRequest { key, from, to, id } => {
                map.put("type", "cas")?;
                map.put("key", key)?;
                map.put("from", from)?;
                map.put("to", to)?;
                map.put("msg_id", id)?;
            },
            ClientMessage::ReadResponse { in_reply_to, value, id } => {
                map.put("type", "read_ok")?;
                map.put("in_reply_to", in_reply_to)?;
                map.put("value", value)?;
                map.put("msg_id", id)?;
            },
            ClientMessage::WriteResponse { in_reply_to, id } => {
                map.put("type", "write_ok")?;
                map.put("in_reply_to", in_reply_to)?;
                map.put("msg_id", id)?;
            },
            ClientMessage::CASResponse { in_reply_to, id } => {
                map.put("type", "cas_ok")?;
                map.put("in_reply_to", in_reply_to)?;
                map.put("msg_id", id)?;
            },
            ClientMessage::ErrorResponse { in_reply_to, id, code, text } => {
                map.put("type", "error")?;
                map.put("in_reply_to", in_reply_to)?;
                map.put("msg_id", id)?;
                map.put("code", code)?;
                map.put("text", text)?;
            },
        }
        Ok(Value::Object(map))
    }
}

/// What the members of a `read` message stand for.
pub open spec fn read_from_json<K: Deserialize, V: Deserialize>(m: Members) -> Result<
    ClientMsg<K::V, V::V>,
    Undeserialized,
> {
    match taken2(m, "key"@, "msg_id"@) {
        (Some((a, b)), _) => match both(K::from_json(a), u64::from_json(b)) {
            Ok((key, id)) => Ok(ClientMsg::ReadRequest { key, id }),
            Err(e) => Err(e),
        },
        (None, rest) => Err(Undeserialized::InvalidValue(Json::Object(rest))),
    }
}

fn deserialize_read<K: Deserialize, V: Deserialize>(body: Object) -> (r: Result<ClientMessage<K, V>, DeserializeError>)
    ensures
        says(r, read_from_json::<K, V>(body@)),
{
    let mut body: Object = body;
    match body.take2("key", "msg_id") {
        Some((a, b)) => {
            let key: K = match K::deserialize(a) {
                Ok(x) => x,
                Err(e) => return Err(e),
            };
            let id: u64 = match u64::deserialize(b) {
                Ok(x) => x,
                Err(e) => return Err(e),
            };
            Ok(ClientMessage::ReadRequest { key, id })
        },
        None => Err(DeserializeError::InvalidValue(Value::Object(body))),
    }
}

/// What the members of a `write` message stand for.
pub open spec fn write_from_json<K: Deserialize, V: Deserialize>(m: Members) -> Result<
    ClientMsg<K::V, V::V>,
    Undeserialized,
> {
    match taken3(m, "key"@, "value"@, "msg_id"@) {
        (Some((a, b, c)), _) => match both3(K::from_json(a), V::from_json(b), u64::from_json(c)) {
            Ok((key, value, id)) => Ok(ClientMsg::WriteRequest { key, value, id }),
            Err(e) => Err(e),
        },
        (None, rest) => Err(Undeserialized::InvalidValue(Json::Object(rest))),
    }
}

fn deserialize_write<K: Deserialize, V: Deserialize>(body: Object) -> (r: Result<ClientMessage<K, V>, DeserializeError>)
    ensures
        says(r, write_from_json::<K, V>(body@)),
{
    let mut body: Object = body;
    match body.take3("key", "value", "msg_id") {
        Some((a, b, c)) => {
            let key: K = match K::deserialize(a) {
                Ok(x) => x,
                Err(e) => return Err(e),
            };
            let value: V = match V::deserialize(b) {
                Ok(x) => x,
                Err(e) => return Err(e),
            };
            let id: u64 = match u64::deserialize(c) {
                Ok(x) => x,
                Err(e) => return Err(e),
            };
            Ok(ClientMessage::WriteRequest { key, value, id })
        },
        None => Err(DeserializeError::InvalidValue(Value::Object(body))),
    }
}

/// What the members of a `cas` message stand for.
pub open spec fn cas_from_json<K: Deserialize, V: Deserialize>(m: Members) -> Result<
    ClientMsg<K::V, V::V>,
    Undeserialized,
> {
    match taken4(m, "key"@, "from"@, "to"@, "msg_id"@) {
        (Some((a, b, c, d)), _) => match both4(K::from_json(a), V::from_json(b), V::from_json(c), u64::from_json(d)) {
            Ok((key, from, to, id)) => Ok(ClientMsg::CASRequest { key, from, to, id }),
            Err(e) => Err(e),
        },
        (None, rest) => Err(Undeserialized::InvalidValue(Json::Object(rest))),
    }
}

fn deserialize_cas<K: Deserialize, V: Deserialize>(body: Object) -> (r: Result<ClientMessage<K, V>, DeserializeError>)
    ensures
        says(r, cas_from_json::<K, V>(body@)),
{
    let mut body: Object = body;
    match body.take4("key", "from", "to", "msg_id") {
        Some((a, b, c, d)) => {
            let key: K = match K::deserialize(a) {
                Ok(x) => x,
                Err(e) => return Err(e),
            };
            let from: V = match V::deserialize(b) {
                Ok(x) => x,
                Err(e) => return Err(e),
            };
            let to: V = match V::deserialize(c) {
                Ok(x) => x,
                Err(e) => return Err(e),
            };
            let id: u64 = match u64::deserialize(d) {
                Ok(x) => x,
                Err(e) => return Err(e),
            };
            Ok(ClientMessage::CASRequest { key, from, to, id })
        },
        None => Err(DeserializeError::InvalidValue(Value::Object(body))),
    }
}

/// What the members of a `read_ok` message stand for.
pub open spec fn read_ok_from_json<K: Deserialize, V: Deserialize>(m: Members) -> Result<
    ClientMsg<K::V, V::V>,
    Undeserialized,
> {
    match taken3(m, "in_reply_to"@, "value"@, "msg_id"@) {
        (Some((a, b, c)), _) => match both3(u64::from_json(a), V::from_json(b), u64::from_json(c)) {
            Ok((in_reply_to, value, id)) => Ok(ClientMsg::ReadResponse { in_reply_to, value, id }),
            Err(e) => Err(e),
        },
        (None, rest) => Err(Undeserialized::InvalidValue(Json::Object(rest))),
    }
}

fn deserialize_read_ok<K: Deserialize, V: Deserialize>(body: Object) -> (r: Result<ClientMessage<K, V>, DeserializeError>)
    ensures
        says(r, read_ok_from_json::<K, V>(body@)),
{
    let mut body: Object = body;
    match body.take3("in_reply_to", "value", "msg_id") {
        Some((a, b, c)) => {
            let in_reply_to: u64 = match u64::deserialize(a) {
                Ok(x) => x,
                Err(e) => return Err(e),
            };
            let value: V = match V::deserialize(b) {
                Ok(x) => x,
                Err(e) => return Err(e),
            };
            let id: u64 = match u64::deserialize(c) {
                Ok(x) => x,
                Err(e) => return Err(e),
            };
            Ok(ClientMessage::ReadResponse { in_reply_to, value, id })
        },
        None => Err(DeserializeError::InvalidValue(Value::Object(body))),
    }
}

/// What the members of a `write_ok` message stand for.
pub open spec fn write_ok_from_json<K: Deserialize, V: Deserialize>(m: Members) -> Result<
    ClientMsg<K::V, V::V>,
    Undeserialized,
> {
    match taken2(m, "in_reply_to"@, "msg_id"@) {
        (Some((a, b)), _) => match both(u64::from_json(a), u64::from_json(b)) {
            Ok((in_reply_to, id)) => Ok(ClientMsg::WriteResponse { in_reply_to, id }),
            Err(e) => Err(e),
        },
        (None, rest) => Err(Undeserialized::InvalidValue(Json::Object(rest))),
    }
}

fn deserialize_write_ok<K: Deserialize, V: Deserialize>(body: Object) -> (r: Result<ClientMessage<K, V>, DeserializeError>)
    ensures
        says(r, write_ok_from_json::<K, V>(body@)),
{
    let mut body: Object = body;
    match body.take2("in_reply_to", "msg_id") {
        Some((a, b)) => {
            let in_reply_to: u64 = match u64::deserialize(a) {
                Ok(x) => x,
                Err(e) => return Err(e),
            };
            let id: u64 = match u64::deserialize(b) {
                Ok(x) => x,
                Err(e) => return Err(e),
            };
            Ok(ClientMessage::WriteResponse { in_reply_to, id })
        },
        None => Err(DeserializeError::InvalidValue(Value::Object(body))),
    }
}

/// What the members of a `cas_ok` message stand for.
pub open spec fn cas_ok_from_json<K: Deserialize, V: Deserialize>(m: Members) -> Result<
    ClientMsg<K::V, V::V>,
    Undeserialized,
> {
    match taken2(m, "in_reply_to"@, "msg_id"@) {
        (Some((a, b)), _) => match both(u64::from_json(a), u64::from_json(b)) {
            Ok((in_reply_to, id)) => Ok(ClientMsg::CASResponse { in_reply_to, id }),
            Err(e) => Err(e),
        },
        (None, rest) => Err(Undeserialized::InvalidValue(Json::Object(rest))),
    }
}

fn deserialize_cas_ok<K: Deserialize, V: Deserialize>(body: Object) -> (r: Result<ClientMessage<K, V>, DeserializeError>)
    ensures
        says(r, cas_ok_from_json::<K, V>(body@)),
{
    let mut body: Object = body;
    match body.take2("in_reply_to", "msg_id") {
        Some((a, b)) => {
            let in_reply_to: u64 = match u64::deserialize(a) {
                Ok(x) => x,
                Err(e) => return Err(e),
            };
            let id: u64 = match u64::deserialize(b) {
                Ok(x) => x,
                Err(e) => return Err(e),
            };
            Ok(ClientMessage::CASResponse { in_reply_to, id })
        },
        None => Err(DeserializeError::InvalidValue(Value::Object(body))),
    }
}

/// What the members of a `error` message stand for.
pub open spec fn error_from_json<K: Deserialize, V: Deserialize>(m: Members) -> Result<
    ClientMsg<K::V, V::V>,
    Undeserialized,
> {
    match taken4(m, "in_reply_to"@, "msg_id"@, "code"@, "text"@) {
        (Some((a, b, c, d)), _) => match both4(u64::from_json(a), u64::from_json(b), u64::from_json(c), String::from_json(d)) {
            Ok((in_reply_to, id, code, text)) => Ok(ClientMsg::ErrorResponse { in_reply_to, id, code, text }),
            Err(e) => Err(e),
        },
        (None, rest) => Err(Undeserialized::InvalidValue(Json::Object(rest))),
    }
}

fn deserialize_error<K: Deserialize, V: Deserialize>(body: Object) -> (r: Result<ClientMessage<K, V>, DeserializeError>)
    ensures
        says(r, error_from_json::<K, V>(body@)),
{
    let mut body: Object = body;
    match body.take4("in_reply_to", "msg_id", "code", "text") {
        Some((a, b, c, d)) => {
            let in_reply_to: u64 = match u64::deserialize(a) {
                Ok(x) => x,
                Err(e) => return Err(e),
            };
            let id: u64 = match u64::deserialize(b) {
                Ok(x) => x,
                Err(e) => return Err(e),
            };
            let code: u64 = match u64::deserialize(c) {
                Ok(x) => x,
                Err(e) => return Err(e),
            };
            let text: String = match String::deserialize(d) {
                Ok(x) => x,
                Err(e) => return Err(e),
            };
            Ok(ClientMessage::ErrorResponse { in_reply_to, id, code, text })
        },
        None => Err(DeserializeError::InvalidValue(Value::Object(body))),
    }
}

/// The client message that a representation stands for.
pub open spec fn client_message_from_json<K: Deserialize, V: Deserialize>(j: Json) -> Result<
    ClientMsg<K::V, V::V>,
    Undeserialized,
> {
    match j {
        Json::Object(m) => match taken1(m, "type"@) {
            (Some(Json::String(typ)), rest) => if typ == "read"@ {
                read_from_json::<K, V>(rest)
            } else if typ == "write"@ {
                write_from_json::<K, V>(rest)
            } else if typ == "cas"@ {
                cas_from_json::<K, V>(rest)
            } else if typ == "read_ok"@ {
                read_ok_from_json::<K, V>(rest)
            } else if typ == "write_ok"@ {
                write_ok_from_json::<K, V>(rest)
            } else if typ == "cas_ok"@ {
                cas_ok_from_json::<K, V>(rest)
            } else if typ == "error"@ {
                error_from_json::<K, V>(rest)
            } else {
                Err(Undeserialized::InvalidValue(Json::Object(rest)))
            },
            (_, rest) => Err(Undeserialized::InvalidValue(Json::Object(rest))),
        },
        _ => Err(Undeserialized::InvalidValue(j)),
    }
}

impl<K: Deserialize, V: Deserialize> Deserialize for ClientMessage<K, V> {
    open spec fn from_json(j: Json) -> Result<ClientMsg<K::V, V::V>, Undeserialized> {
        client_message_from_json::<K, V>(j)
    }

    fn deserialize(value: Value) -> (r: Result<Self, DeserializeError>) {
        assert(Self::from_json(value@) == client_message_from_json::<K, V>(value@));
        match value {
            Value::Object(body) => {
                let mut body: Object = body;
                match body.remove("type") {
                    Some(Value::String(typ)) => {
                        let t: &str = typ.as_str();
                        if str_eq(t, "read") {
                            deserialize_read(body)
                        } else if str_eq(t, "write") {
                            deserialize_write(body)
                        } else if str_eq(t, "cas") {
                            deserialize_cas(body)
                        } else if str_eq(t, "read_ok") {
                            deserialize_read_ok(body)
                        } else if str_eq(t, "write_ok") {
                            deserialize_write_ok(body)
                        } else if str_eq(t, "cas_ok") {
                            deserialize_cas_ok(body)
                        } else if str_eq(t, "error") {
                            deserialize_error(body)
                        } else {
                            Err(DeserializeError::InvalidValue(Value::Object(body)))
                        }
                    },
                    _ => Err(DeserializeError::InvalidValue(Value::Object(body))),
                }
            },
            _ => Err(DeserializeError::InvalidValue(value)),
        }
    }
}

impl<K: Serialize, V: Serialize, C: Serialize> Serialize for Message<K, V, C> {
    open spec fn json(&self) -> Json {
        match *self {
            Message::Raft(m) => m.json(),
            Message::Client(m) => m.json(),
        }
    }

    fn serialize(&self) -> (r: Result<Value, SerializeError>) {
        match self {
            Message::Raft(m) => m.serialize(),
            Message::Client(m) => m.serialize(),
        }
    }
}

impl<K: Deserialize, V: Deserialize, C: Deserialize> Deserialize for Message<K, V, C> {
    open spec fn from_json(j: Json) -> Result<Msg<K::V, V::V, C::V>, Undeserialized> {
        match raft_message_from_json::<C>(j) {
            Ok(m) => Ok(Msg::Raft(m)),
            Err(_) => match client_message_from_json::<K, V>(j) {
                Ok(m) => Ok(Msg::Client(m)),
                Err(_) => Err(Undeserialized::InvalidValue(j)),
            },
        }
    }

    fn deserialize(value: Value) -> (r: Result<Self, DeserializeError>) {
        // A bit inefficient... but there's no enum tag on this level.
        if let Ok(m) = RaftMessage::<C>::deserialize(value.copy()) {
            return Ok(Message::Raft(m));
        }
        if let Ok(m) = ClientMessage::<K, V>::deserialize(value.copy()) {
            return Ok(Message::Client(m));
        }
        Err(DeserializeError::InvalidValue(value))
    }
}

/// An index that is missing, or is one.
pub open spec fn index_ok(i: Option<LogIndex>) -> bool {
    i matches Some(x) ==> x@ >= 1
}

proof fn lemma_optional_index(i: Option<LogIndex>)
    requires
        index_ok(i),
    ensures
        reads_back(i),
{
    if let Some(x) = i {
        index_reads_back(x);
    }
    option_reads_back(i);
}

proof fn lemma_optional_term(t: Option<Term>)
    ensures
        reads_back(t),
{
    if let Some(x) = t {
        term_reads_back(x);
    }
    option_reads_back(t);
}

/// Whether what a Raft message carries reads back, and its indexes are indexes.
pub open spec fn carries_readable<C: Serialize + Deserialize>(m: RaftMessage<C>) -> bool {
    match m {
        RaftMessage::AppendEntries { commit_index, prev_log_index, entries, .. } => {
            &&& index_ok(commit_index)
            &&& index_ok(prev_log_index)
            &&& forall|k: int|
                0 <= k < entries.inner@.len() ==> reads_back((#[trigger] entries.inner@[k]).cmd)
        },
        RaftMessage::AppendEntriesResponse { index, .. } => index_ok(index),
        RaftMessage::RequestVote { last_log_index, .. } => index_ok(last_log_index),
        RaftMessage::RequestVoteResponse { .. } => true,
    }
}

proof fn lemma_append_entries_reads_back<C: Serialize + Deserialize>(m: RaftMessage<C>)
    requires
        m is AppendEntries,
        carries_readable(m),
    ensures
        reads_back(m),
{
    broadcast use lookup_after_put, lookup_after_without;

    assert("type"@ != "leader_term"@) by {
        reveal_strlit("type");
        reveal_strlit("leader_term");
        assert("type"@.len() == 4 && "leader_term"@.len() == 11);
    }
    assert("type"@ != "prev_log_index"@) by {
        reveal_strlit("type");
        reveal_strlit("prev_log_index");
        assert("type"@.len() == 4 && "prev_log_index"@.len() == 14);
    }
    assert("type"@ != "prev_log_term"@) by {
        reveal_strlit("type");
        reveal_strlit("prev_log_term");
        assert("type"@.len() == 4 && "prev_log_term"@.len() == 13);
    }
    assert("type"@ != "entries"@) by {
        reveal_strlit("type");
        reveal_strlit("entries");
        assert("type"@.len() == 4 && "entries"@.len() == 7);
    }
    assert("type"@ != "leader_commit"@) by {
        reveal_strlit("type");
        reveal_strlit("leader_commit");
        assert("type"@.len() == 4 && "leader_commit"@.len() == 13);
    }
    assert("leader_term"@ != "prev_log_index"@) by {
        reveal_strlit("leader_term");
        reveal_strlit("prev_log_index");
        assert("leader_term"@.len() == 11 && "prev_log_index"@.len() == 14);
    }
    assert("leader_term"@ != "prev_log_term"@) by {
        reveal_strlit("leader_term");
        reveal_strlit("prev_log_term");
        assert("leader_term"@.len() == 11 && "prev_log_term"@.len() == 13);
    }
    assert("leader_term"@ != "entries"@) by {
        reveal_strlit("leader_term");
        reveal_strlit("entries");
        assert("leader_term"@.len() == 11 && "entries"@.len() == 7);
    }
    assert("leader_term"@ != "leader_commit"@) by {
        reveal_strlit("leader_term");
        reveal_strlit("leader_commit");
        assert("leader_term"@.len() == 11 && "leader_commit"@.len() == 13);
    }
    assert("prev_log_index"@ != "prev_log_term"@) by {
        reveal_strlit("prev_log_index");
        reveal_strlit("prev_log_term");
        assert("prev_log_index"@.len() == 14 && "prev_log_term"@.len() == 13);
    }
    assert("prev_log_index"@ != "entries"@) by {
        reveal_strlit("prev_log_index");
        reveal_strlit("entries");
        assert("prev_log_index"@.len() == 14 && "entries"@.len() == 7);
    }
    assert("prev_log_index"@ != "leader_commit"@) by {
        reveal_strlit("prev_log_index");
        reveal_strlit("leader_commit");
        assert("prev_log_index"@.len() == 14 && "leader_commit"@.len() == 13);
    }
    assert("prev_log_term"@ != "entries"@) by {
        reveal_strlit("prev_log_term");
        reveal_strlit("entries");
        assert("prev_log_term"@.len() == 13 && "entries"@.len() == 7);
    }
    assert("prev_log_term"@ != "leader_commit"@) by {
        reveal_strlit("prev_log_term");
        reveal_strlit("leader_commit");
        assert("prev_log_term"@[0] == 'p' && "leader_commit"@[0] == 'l');
    }
    assert("entries"@ != "leader_commit"@) by {
        reveal_strlit("entries");
        reveal_strlit("leader_commit");
        assert("entries"@.len() == 7 && "leader_commit"@.len() == 13);
    }
    if let RaftMessage::AppendEntries { term, prev_log_index, prev_log_term, entries, commit_index } = m {
        term_reads_back(term);
        assert(reads_back(term));
        lemma_optional_index(prev_log_index);
        lemma_optional_term(prev_log_term);
        log_reads_back(entries);
        assert(reads_back(entries));
        lemma_optional_index(commit_index);
        let all = m.json()->Object_0;
        assert(lookup(all, "type"@) == Some(Json::String("append_entries"@)));
        let m0 = without(all, "type"@);
        assert(lookup(m0, "leader_term"@) == Some(term.json()));
        let m1 = without(m0, "leader_term"@);
        assert(lookup(m1, "prev_log_index"@) == Some(prev_log_index.json()));
        let m2 = without(m1, "prev_log_index"@);
        assert(lookup(m2, "prev_log_term"@) == Some(prev_log_term.json()));
        let m3 = without(m2, "prev_log_term"@);
        assert(lookup(m3, "entries"@) == Some(entries.json()));
        let m4 = without(m3, "entries"@);
        assert(lookup(m4, "leader_commit"@) == Some(commit_index.json()));
    }
}

proof fn lemma_append_entries_response_reads_back<C: Serialize + Deserialize>(m: RaftMessage<C>)
    requires
        m is AppendEntriesResponse,
        carries_readable(m),
    ensures
        reads_back(m),
{
    broadcast use lookup_after_put, lookup_after_without;

    assert("type"@ != "current_term"@) by {
        reveal_strlit("type");
        reveal_strlit("current_term");
        assert("type"@.len() == 4 && "current_term"@.len() == 12);
    }
    assert("type"@ != "index"@) by {
        reveal_strlit("type");
        reveal_strlit("index");
        assert("type"@.len() == 4 && "index"@.len() == 5);
    }
    assert("type"@ != "success"@) by {
        reveal_strlit("type");
        reveal_strlit("success");
        assert("type"@.len() == 4 && "success"@.len() == 7);
    }
    assert("current_term"@ != "index"@) by {
        reveal_strlit("current_term");
        reveal_strlit("index");
        assert("current_term"@.len() == 12 && "index"@.len() == 5);
    }
    assert("current_term"@ != "success"@) by {
        reveal_strlit("current_term");
        reveal_strlit("success");
        assert("current_term"@.len() == 12 && "success"@.len() == 7);
    }
    assert("index"@ != "success"@) by {
        reveal_strlit("index");
        reveal_strlit("success");
        assert("index"@.len() == 5 && "success"@.len() == 7);
    }
    assert("append_entries_response"@ != "append_entries"@) by {
        reveal_strlit("append_entries_response");
        reveal_strlit("append_entries");
        assert("append_entries_response"@.len() == 23 && "append_entries"@.len() == 14);
    }
    if let RaftMessage::AppendEntriesResponse { current_term, index, success } = m {
        term_reads_back(current_term);
        assert(reads_back(current_term));
        lemma_optional_index(index);
        bool_reads_back(success);
        assert(reads_back(success));
        let all = m.json()->Object_0;
        assert(lookup(all, "type"@) == Some(Json::String("append_entries_response"@)));
        let m0 = without(all, "type"@);
        assert(lookup(m0, "current_term"@) == Some(current_term.json()));
        let m1 = without(m0, "current_term"@);
        assert(lookup(m1, "index"@) == Some(index.json()));
        let m2 = without(m1, "index"@);
        assert(lookup(m2, "success"@) == Some(success.json()));
    }
}

proof fn lemma_request_vote_reads_back<C: Serialize + Deserialize>(m: RaftMessage<C>)
    requires
        m is RequestVote,
        carries_readable(m),
    ensures
        reads_back(m),
{
    broadcast use lookup_after_put, lookup_after_without;

    assert("type"@ != "candidate_term"@) by {
        reveal_strlit("type");
        reveal_strlit("candidate_term");
        assert("type"@.len() == 4 && "candidate_term"@.len() == 14);
    }
    assert("type"@ != "last_log_index"@) by {
        reveal_strlit("type");
        reveal_strlit("last_log_index");
        assert("type"@.len() == 4 && "last_log_index"@.len() == 14);
    }
    assert("type"@ != "last_log_term"@) by {
        reveal_strlit("type");
        reveal_strlit("last_log_term");
        assert("type"@.len() == 4 && "last_log_term"@.len() == 13);
    }
    assert("candidate_term"@ != "last_log_index"@) by {
        reveal_strlit("candidate_term");
        reveal_strlit("last_log_index");
        assert("candidate_term"@[0] == 'c' && "last_log_index"@[0] == 'l');
    }
    assert("candidate_term"@ != "last_log_term"@) by {
        reveal_strlit("candidate_term");
        reveal_strlit("last_log_term");
        assert("candidate_term"@.len() == 14 && "last_log_term"@.len() == 13);
    }
    assert("last_log_index"@ != "last_log_term"@) by {
        reveal_strlit("last_log_index");
        reveal_strlit("last_log_term");
        assert("last_log_index"@.len() == 14 && "last_log_term"@.len() == 13);
    }
    assert("request_vote"@ != "append_entries"@) by {
        reveal_strlit("request_vote");
        reveal_strlit("append_entries");
        assert("request_vote"@.len() == 12 && "append_entries"@.len() == 14);
    }
    assert("request_vote"@ != "append_entries_response"@) by {
        reveal_strlit("request_vote");
        reveal_strlit("append_entries_response");
        assert("request_vote"@.len() == 12 && "append_entries_response"@.len() == 23);
    }
    if let RaftMessage::RequestVote { candidate_term, last_log_index, last_log_term } = m {
        term_reads_back(candidate_term);
        assert(reads_back(candidate_term));
        lemma_optional_index(last_log_index);
        lemma_optional_term(last_log_term);
        let all = m.json()->Object_0;
        assert(lookup(all, "type"@) == Some(Json::String("request_vote"@)));
        let m0 = without(all, "type"@);
        assert(lookup(m0, "candidate_term"@) == Some(candidate_term.json()));
        let m1 = without(m0, "candidate_term"@);
        assert(lookup(m1, "last_log_index"@) == Some(last_log_index.json()));
        let m2 = without(m1, "last_log_index"@);
        assert(lookup(m2, "last_log_term"@) == Some(last_log_term.json()));
    }
}

proof fn lemma_request_vote_response_reads_back<C: Serialize + Deserialize>(m: RaftMessage<C>)
    requires
        m is RequestVoteResponse,
        carries_readable(m),
    ensures
        reads_back(m),
{
    broadcast use lookup_after_put, lookup_after_without;

    assert("type"@ != "term"@) by {
        reveal_strlit("type");
        reveal_strlit("term");
        assert("type"@[1] == 'y' && "term"@[1] == 'e');
    }
    assert("type"@ != "vote_granted"@) by {
        reveal_strlit("type");
        reveal_strlit("vote_granted");
        assert("type"@.len() == 4 && "vote_granted"@.len() == 12);
    }
    assert("term"@ != "vote_granted"@) by {
        reveal_strlit("term");
        reveal_strlit("vote_granted");
        assert("term"@.len() == 4 && "vote_granted"@.len() == 12);
    }
    assert("request_vote_response"@ != "append_entries"@) by {
        reveal_strlit("request_vote_response");
        reveal_strlit("append_entries");
        assert("request_vote_response"@.len() == 21 && "append_entries"@.len() == 14);
    }
    assert("request_vote_response"@ != "append_entries_response"@) by {
        reveal_strlit("request_vote_response");
        reveal_strlit("append_entries_response");
        assert("request_vote_response"@.len() == 21 && "append_entries_response"@.len() == 23);
    }
    assert("request_vote_response"@ != "request_vote"@) by {
        reveal_strlit("request_vote_response");
        reveal_strlit("request_vote");
        assert("request_vote_response"@.len() == 21 && "request_vote"@.len() == 12);
    }
    if let RaftMessage::RequestVoteResponse { term, vote_granted } = m {
        term_reads_back(term);
        assert(reads_back(term));
        bool_reads_back(vote_granted);
        assert(reads_back(vote_granted));
        let all = m.json()->Object_0;
        assert(lookup(all, "type"@) == Some(Json::String("request_vote_response"@)));
        let m0 = without(all, "type"@);
        assert(lookup(m0, "term"@) == Some(term.json()));
        let m1 = without(m0, "term"@);
        assert(lookup(m1, "vote_granted"@) == Some(vote_granted.json()));
    }
}

/// A peer reads a Raft message as it was sent, where the commands in it read back.
pub proof fn raft_message_reads_back<C: Serialize + Deserialize>(m: RaftMessage<C>)
    requires
        carries_readable(m),
    ensures
        reads_back(m),
{
    match m {
        RaftMessage::AppendEntries { .. } => lemma_append_entries_reads_back(m),
        RaftMessage::AppendEntriesResponse { .. } => lemma_append_entries_response_reads_back(m),
        RaftMessage::RequestVote { .. } => lemma_request_vote_reads_back(m),
        RaftMessage::RequestVoteResponse { .. } => lemma_request_vote_response_reads_back(m),
    }
}

/// Whether the data in a client message reads back.
pub open spec fn data_readable<K: Serialize + Deserialize, V: Serialize + Deserialize>(
    m: ClientMessage<K, V>,
) -> bool {
    match m {
        ClientMessage::ReadRequest { key, .. } => reads_back(key),
        ClientMessage::WriteRequest { key, value, .. } => reads_back(key) && reads_back(value),
        ClientMessage::CASRequest { key, from, to, .. } => reads_back(key) && reads_back(from)
            && reads_back(to),
        ClientMessage::ReadResponse { value, .. } => reads_back(value),
        _ => true,
    }
}

proof fn lemma_read_reads_back<K: Serialize + Deserialize, V: Serialize + Deserialize>(m: ClientMessage<K, V>)
    requires
        m is ReadRequest,
        data_readable(m),
    ensures
        reads_back(m),
{
    broadcast use lookup_after_put, lookup_after_without;

    assert("type"@ != "key"@) by {
        reveal_strlit("type");
        reveal_strlit("key");
        assert("type"@.len() == 4 && "key"@.len() == 3);
    }
    assert("type"@ != "msg_id"@) by {
        reveal_strlit("type");
        reveal_strlit("msg_id");
        assert("type"@.len() == 4 && "msg_id"@.len() == 6);
    }
    assert("key"@ != "msg_id"@) by {
        reveal_strlit("key");
        reveal_strlit("msg_id");
        assert("key"@.len() == 3 && "msg_id"@.len() == 6);
    }
    if let ClientMessage::ReadRequest { key, id } = m {
        u64_reads_back(id);
        assert(reads_back(id));
        let all = m.json()->Object_0;
        assert(lookup(all, "type"@) == Some(Json::String("read"@)));
        let m0 = without(all, "type"@);
        assert(lookup(m0, "key"@) == Some(key.json()));
        let m1 = without(m0, "key"@);
        assert(lookup(m1, "msg_id"@) == Some(id.json()));
    }
}

proof fn lemma_write_reads_back<K: Serialize + Deserialize, V: Serialize + Deserialize>(m: ClientMessage<K, V>)
    requires
        m is WriteRequest,
        data_readable(m),
    ensures
        reads_back(m),
{
    broadcast use lookup_after_put, lookup_after_without;

    assert("type"@ != "key"@) by {
        reveal_strlit("type");
        reveal_strlit("key");
        assert("type"@.len() == 4 && "key"@.len() == 3);
    }
    assert("type"@ != "value"@) by {
        reveal_strlit("type");
        reveal_strlit("value");
        assert("type"@.len() == 4 && "value"@.len() == 5);
    }
    assert("type"@ != "msg_id"@) by {
        reveal_strlit("type");
        reveal_strlit("msg_id");
        assert("type"@.len() == 4 && "msg_id"@.len() == 6);
    }
    assert("key"@ != "value"@) by {
        reveal_strlit("key");
        reveal_strlit("value");
        assert("key"@.len() == 3 && "value"@.len() == 5);
    }
    assert("key"@ != "msg_id"@) by {
        reveal_strlit("key");
        reveal_strlit("msg_id");
        assert("key"@.len() == 3 && "msg_id"@.len() == 6);
    }
    assert("value"@ != "msg_id"@) by {
        reveal_strlit("value");
        reveal_strlit("msg_id");
        assert("value"@.len() == 5 && "msg_id"@.len() == 6);
    }
    assert("write"@ != "read"@) by {
        reveal_strlit("write");
        reveal_strlit("read");
        assert("write"@.len() == 5 && "read"@.len() == 4);
    }
    if let ClientMessage::WriteRequest { key, value, id } = m {
        u64_reads_back(id);
        assert(reads_back(id));
        let all = m.json()->Object_0;
        assert(lookup(all, "type"@) == Some(Json::String("write"@)));
        let m0 = without(all, "type"@);
        assert(lookup(m0, "key"@) == Some(key.json()));
        let m1 = without(m0, "key"@);
        assert(lookup(m1, "value"@) == Some(value.json()));
        let m2 = without(m1, "value"@);
        assert(lookup(m2, "msg_id"@) == Some(id.json()));
    }
}

proof fn lemma_cas_reads_back<K: Serialize + Deserialize, V: Serialize + Deserialize>(m: ClientMessage<K, V>)
    requires
        m is CASRequest,
        data_readable(m),
    ensures
        reads_back(m),
{
    broadcast use lookup_after_put, lookup_after_without;

    assert("type"@ != "key"@) by {
        reveal_strlit("type");
        reveal_strlit("key");
        assert("type"@.len() == 4 && "key"@.len() == 3);
    }
    assert("type"@ != "from"@) by {
        reveal_strlit("type");
        reveal_strlit("from");
        assert("type"@[0] == 't' && "from"@[0] == 'f');
    }
    assert("type"@ != "to"@) by {
        reveal_strlit("type");
        reveal_strlit("to");
        assert("type"@.len() == 4 && "to"@.len() == 2);
    }
    assert("type"@ != "msg_id"@) by {
        reveal_strlit("type");
        reveal_strlit("msg_id");
        assert("type"@.len() == 4 && "msg_id"@.len() == 6);
    }
    assert("key"@ != "from"@) by {
        reveal_strlit("key");
        reveal_strlit("from");
        assert("key"@.len() == 3 && "from"@.len() == 4);
    }
    assert("key"@ != "to"@) by {
        reveal_strlit("key");
        reveal_strlit("to");
        assert("key"@.len() == 3 && "to"@.len() == 2);
    }
    assert("key"@ != "msg_id"@) by {
        reveal_strlit("key");
        reveal_strlit("msg_id");
        assert("key"@.len() == 3 && "msg_id"@.len() == 6);
    }
    assert("from"@ != "to"@) by {
        reveal_strlit("from");
        reveal_strlit("to");
        assert("from"@.len() == 4 && "to"@.len() == 2);
    }
    assert("from"@ != "msg_id"@) by {
        reveal_strlit("from");
        reveal_strlit("msg_id");
        assert("from"@.len() == 4 && "msg_id"@.len() == 6);
    }
    assert("to"@ != "msg_id"@) by {
        reveal_strlit("to");
        reveal_strlit("msg_id");
        assert("to"@.len() == 2 && "msg_id"@.len() == 6);
    }
    assert("cas"@ != "read"@) by {
        reveal_strlit("cas");
        reveal_strlit("read");
        assert("cas"@.len() == 3 && "read"@.len() == 4);
    }
    assert("cas"@ != "write"@) by {
        reveal_strlit("cas");
        reveal_strlit("write");
        assert("cas"@.len() == 3 && "write"@.len() == 5);
    }
    if let ClientMessage::CASRequest { key, from, to, id } = m {
        u64_reads_back(id);
        assert(reads_back(id));
        let all = m.json()->Object_0;
        assert(lookup(all, "type"@) == Some(Json::String("cas"@)));
        let m0 = without(all, "type"@);
        assert(lookup(m0, "key"@) == Some(key.json()));
        let m1 = without(m0, "key"@);
        assert(lookup(m1, "from"@) == Some(from.json()));
        let m2 = without(m1, "from"@);
        assert(lookup(m2, "to"@) == Some(to.json()));
        let m3 = without(m2, "to"@);
        assert(lookup(m3, "msg_id"@) == Some(id.json()));
    }
}

proof fn lemma_read_ok_reads_back<K: Serialize + Deserialize, V: Serialize + Deserialize>(m: ClientMessage<K, V>)
    requires
        m is ReadResponse,
        data_readable(m),
    ensures
        reads_back(m),
{
    broadcast use lookup_after_put, lookup_after_without;

    assert("type"@ != "in_reply_to"@) by {
        reveal_strlit("type");
        reveal_strlit("in_reply_to");
        assert("type"@.len() == 4 && "in_reply_to"@.len() == 11);
    }
    assert("type"@ != "value"@) by {
        reveal_strlit("type");
        reveal_strlit("value");
        assert("type"@.len() == 4 && "value"@.len() == 5);
    }
    assert("type"@ != "msg_id"@) by {
        reveal_strlit("type");
        reveal_strlit("msg_id");
        assert("type"@.len() == 4 && "msg_id"@.len() == 6);
    }
    assert("in_reply_to"@ != "value"@) by {
        reveal_strlit("in_reply_to");
        reveal_strlit("value");
        assert("in_reply_to"@.len() == 11 && "value"@.len() == 5);
    }
    assert("in_reply_to"@ != "msg_id"@) by {
        reveal_strlit("in_reply_to");
        reveal_strlit("msg_id");
        assert("in_reply_to"@.len() == 11 && "msg_id"@.len() == 6);
    }
    assert("value"@ != "msg_id"@) by {
        reveal_strlit("value");
        reveal_strlit("msg_id");
        assert("value"@.len() == 5 && "msg_id"@.len() == 6);
    }
    assert("read_ok"@ != "read"@) by {
        reveal_strlit("read_ok");
        reveal_strlit("read");
        assert("read_ok"@.len() == 7 && "read"@.len() == 4);
    }
    assert("read_ok"@ != "write"@) by {
        reveal_strlit("read_ok");
        reveal_strlit("write");
        assert("read_ok"@.len() == 7 && "write"@.len() == 5);
    }
    assert("read_ok"@ != "cas"@) by {
        reveal_strlit("read_ok");
        reveal_strlit("cas");
        assert("read_ok"@.len() == 7 && "cas"@.len() == 3);
    }
    if let ClientMessage::ReadResponse { in_reply_to, value, id } = m {
        u64_reads_back(in_reply_to);
        assert(reads_back(in_reply_to));
        u64_reads_back(id);
        assert(reads_back(id));
        let all = m.json()->Object_0;
        assert(lookup(all, "type"@) == Some(Json::String("read_ok"@)));
        let m0 = without(all, "type"@);
        assert(lookup(m0, "in_reply_to"@) == Some(in_reply_to.json()));
        let m1 = without(m0, "in_reply_to"@);
        assert(lookup(m1, "value"@) == Some(value.json()));
        let m2 = without(m1, "value"@);
        assert(lookup(m2, "msg_id"@) == Some(id.json()));
    }
}

proof fn lemma_write_ok_reads_back<K: Serialize + Deserialize, V: Serialize + Deserialize>(m: ClientMessage<K, V>)
    requires
        m is WriteResponse,
        data_readable(m),
    ensures
        reads_back(m),
{
    broadcast use lookup_after_put, lookup_after_without;

    assert("type"@ != "in_reply_to"@) by {
        reveal_strlit("type");
        reveal_strlit("in_reply_to");
        assert("type"@.len() == 4 && "in_reply_to"@.len() == 11);
    }
    assert("type"@ != "msg_id"@) by {
        reveal_strlit("type");
        reveal_strlit("msg_id");
        assert("type"@.len() == 4 && "msg_id"@.len() == 6);
    }
    assert("in_reply_to"@ != "msg_id"@) by {
        reveal_strlit("in_reply_to");
        reveal_strlit("msg_id");
        assert("in_reply_to"@.len() == 11 && "msg_id"@.len() == 6);
    }
    assert("write_ok"@ != "read"@) by {
        reveal_strlit("write_ok");
        reveal_strlit("read");
        assert("write_ok"@.len() == 8 && "read"@.len() == 4);
    }
    assert("write_ok"@ != "write"@) by {
        reveal_strlit("write_ok");
        reveal_strlit("write");
        assert("write_ok"@.len() == 8 && "write"@.len() == 5);
    }
    assert("write_ok"@ != "cas"@) by {
        reveal_strlit("write_ok");
        reveal_strlit("cas");
        assert("write_ok"@.len() == 8 && "cas"@.len() == 3);
    }
    assert("write_ok"@ != "read_ok"@) by {
        reveal_strlit("write_ok");
        reveal_strlit("read_ok");
        assert("write_ok"@.len() == 8 && "read_ok"@.len() == 7);
    }
    if let ClientMessage::WriteResponse { in_reply_to, id } = m {
        u64_reads_back(in_reply_to);
        assert(reads_back(in_reply_to));
        u64_reads_back(id);
        assert(reads_back(id));
        let all = m.json()->Object_0;
        assert(lookup(all, "type"@) == Some(Json::String("write_ok"@)));
        let m0 = without(all, "type"@);
        assert(lookup(m0, "in_reply_to"@) == Some(in_reply_to.json()));
        let m1 = without(m0, "in_reply_to"@);
        assert(lookup(m1, "msg_id"@) == Some(id.json()));
    }
}

proof fn lemma_cas_ok_reads_back<K: Serialize + Deserialize, V: Serialize + Deserialize>(m: ClientMessage<K, V>)
    requires
        m is CASResponse,
        data_readable(m),
    ensures
        reads_back(m),
{
    broadcast use lookup_after_put, lookup_after_without;

    assert("type"@ != "in_reply_to"@) by {
        reveal_strlit("type");
        reveal_strlit("in_reply_to");
        assert("type"@.len() == 4 && "in_reply_to"@.len() == 11);
    }
    assert("type"@ != "msg_id"@) by {
        reveal_strlit("type");
        reveal_strlit("msg_id");
        assert("type"@.len() == 4 && "msg_id"@.len() == 6);
    }
    assert("in_reply_to"@ != "msg_id"@) by {
        reveal_strlit("in_reply_to");
        reveal_strlit("msg_id");
        assert("in_reply_to"@.len() == 11 && "msg_id"@.len() == 6);
    }
    assert("cas_ok"@ != "read"@) by {
        reveal_strlit("cas_ok");
        reveal_strlit("read");
        assert("cas_ok"@.len() == 6 && "read"@.len() == 4);
    }
    assert("cas_ok"@ != "write"@) by {
        reveal_strlit("cas_ok");
        reveal_strlit("write");
        assert("cas_ok"@.len() == 6 && "write"@.len() == 5);
    }
    assert("cas_ok"@ != "cas"@) by {
        reveal_strlit("cas_ok");
        reveal_strlit("cas");
        assert("cas_ok"@.len() == 6 && "cas"@.len() == 3);
    }
    assert("cas_ok"@ != "read_ok"@) by {
        reveal_strlit("cas_ok");
        reveal_strlit("read_ok");
        assert("cas_ok"@.len() == 6 && "read_ok"@.len() == 7);
    }
    assert("cas_ok"@ != "write_ok"@) by {
        reveal_strlit("cas_ok");
        reveal_strlit("write_ok");
        assert("cas_ok"@.len() == 6 && "write_ok"@.len() == 8);
    }
    if let ClientMessage::CASResponse { in_reply_to, id } = m {
        u64_reads_back(in_reply_to);
        assert(reads_back(in_reply_to));
        u64_reads_back(id);
        assert(reads_back(id));
        let all = m.json()->Object_0;
        assert(lookup(all, "type"@) == Some(Json::String("cas_ok"@)));
        let m0 = without(all, "type"@);
        assert(lookup(m0, "in_reply_to"@) == Some(in_reply_to.json()));
        let m1 = without(m0, "in_reply_to"@);
        assert(lookup(m1, "msg_id"@) == Some(id.json()));
    }
}

proof fn lemma_error_reads_back<K: Serialize + Deserialize, V: Serialize + Deserialize>(m: ClientMessage<K, V>)
    requires
        m is ErrorResponse,
        data_readable(m),
    ensures
        reads_back(m),
{
    broadcast use lookup_after_put, lookup_after_without;

    assert("type"@ != "in_reply_to"@) by {
        reveal_strlit("type");
        reveal_strlit("in_reply_to");
        assert("type"@.len() == 4 && "in_reply_to"@.len() == 11);
    }
    assert("type"@ != "msg_id"@) by {
        reveal_strlit("type");
        reveal_strlit("msg_id");
        assert("type"@.len() == 4 && "msg_id"@.len() == 6);
    }
    assert("type"@ != "code"@) by {
        reveal_strlit("type");
        reveal_strlit("code");
        assert("type"@[0] == 't' && "code"@[0] == 'c');
    }
    assert("type"@ != "text"@) by {
        reveal_strlit("type");
        reveal_strlit("text");
        assert("type"@[1] == 'y' && "text"@[1] == 'e');
    }
    assert("in_reply_to"@ != "msg_id"@) by {
        reveal_strlit("in_reply_to");
        reveal_strlit("msg_id");
        assert("in_reply_to"@.len() == 11 && "msg_id"@.len() == 6);
    }
    assert("in_reply_to"@ != "code"@) by {
        reveal_strlit("in_reply_to");
        reveal_strlit("code");
        assert("in_reply_to"@.len() == 11 && "code"@.len() == 4);
    }
    assert("in_reply_to"@ != "text"@) by {
        reveal_strlit("in_reply_to");
        reveal_strlit("text");
        assert("in_reply_to"@.len() == 11 && "text"@.len() == 4);
    }
    assert("msg_id"@ != "code"@) by {
        reveal_strlit("msg_id");
        reveal_strlit("code");
        assert("msg_id"@.len() == 6 && "code"@.len() == 4);
    }
    assert("msg_id"@ != "text"@) by {
        reveal_strlit("msg_id");
        reveal_strlit("text");
        assert("msg_id"@.len() == 6 && "text"@.len() == 4);
    }
    assert("code"@ != "text"@) by {
        reveal_strlit("code");
        reveal_strlit("text");
        assert("code"@[0] == 'c' && "text"@[0] == 't');
    }
    assert("error"@ != "read"@) by {
        reveal_strlit("error");
        reveal_strlit("read");
        assert("error"@.len() == 5 && "read"@.len() == 4);
    }
    assert("error"@ != "write"@) by {
        reveal_strlit("error");
        reveal_strlit("write");
        assert("error"@[0] == 'e' && "write"@[0] == 'w');
    }
    assert("error"@ != "cas"@) by {
        reveal_strlit("error");
        reveal_strlit("cas");
        assert("error"@.len() == 5 && "cas"@.len() == 3);
    }
    assert("error"@ != "read_ok"@) by {
        reveal_strlit("error");
        reveal_strlit("read_ok");
        assert("error"@.len() == 5 && "read_ok"@.len() == 7);
    }
    assert("error"@ != "write_ok"@) by {
        reveal_strlit("error");
        reveal_strlit("write_ok");
        assert("error"@.len() == 5 && "write_ok"@.len() == 8);
    }
    assert("error"@ != "cas_ok"@) by {
        reveal_strlit("error");
        reveal_strlit("cas_ok");
        assert("error"@.len() == 5 && "cas_ok"@.len() == 6);
    }
    if let ClientMessage::ErrorResponse { in_reply_to, id, code, text } = m {
        u64_reads_back(in_reply_to);
        assert(reads_back(in_reply_to));
        u64_reads_back(id);
        assert(reads_back(id));
        u64_reads_back(code);
        assert(reads_back(code));
        string_reads_back(text);
        assert(reads_back(text));
        let all = m.json()->Object_0;
        assert(lookup(all, "type"@) == Some(Json::String("error"@)));
        let m0 = without(all, "type"@);
        assert(lookup(m0, "in_reply_to"@) == Some(in_reply_to.json()));
        let m1 = without(m0, "in_reply_to"@);
        assert(lookup(m1, "msg_id"@) == Some(id.json()));
        let m2 = without(m1, "msg_id"@);
        assert(lookup(m2, "code"@) == Some(code.json()));
        let m3 = without(m2, "code"@);
        assert(lookup(m3, "text"@) == Some(text.json()));
    }
}

/// A client message is read as it was sent, where the data in it reads back.
pub proof fn client_message_reads_back<K: Serialize + Deserialize, V: Serialize + Deserialize>(
    m: ClientMessage<K, V>,
)
    requires
        data_readable(m),
    ensures
        reads_back(m),
{
    match m {
        ClientMessage::ReadRequest { .. } => lemma_read_reads_back(m),
        ClientMessage::WriteRequest { .. } => lemma_write_reads_back(m),
        ClientMessage::CASRequest { .. } => lemma_cas_reads_back(m),
        ClientMessage::ReadResponse { .. } => lemma_read_ok_reads_back(m),
        ClientMessage::WriteResponse { .. } => lemma_write_ok_reads_back(m),
        ClientMessage::CASResponse { .. } => lemma_cas_ok_reads_back(m),
        ClientMessage::ErrorResponse { .. } => lemma_error_reads_back(m),
    }
}

} // verus!
