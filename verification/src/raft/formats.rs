//! What nodes tell each other, and what they keep, is told by the names of its parts.
use crate::assoc::{lookup, lookup_after_put, lookup_after_without};
use crate::base64::decode_inverts_encode;
use crate::json::conversions::from_value::{bytes_in, Unconverted};
use crate::json::fields::Members;
use crate::json::serde::{Deserialize, Serialize, Undeserialized};
use crate::json::value::Json;
use crate::kv::{put_in, put_json, PutBytes};
use crate::raft::command::{op_from_json, Op, WireCommand};
use crate::raft::log::{Entry, Log, LogEntry, LogIndex, Term};
use crate::raft::persistence::{kept_from_json, Kept, Persistent};
use crate::raft::protocol::{holds, is_a};
use crate::raft::rpc::{client_message_from_json, raft_message_from_json, Message, Msg, RaftMsg};
use vstd::prelude::*;

verus! {

proof fn lemma_part_names()
    ensures
        "type"@ != "leader_term"@,
        "type"@ != "prev_log_index"@,
        "type"@ != "prev_log_term"@,
        "type"@ != "entries"@,
        "type"@ != "leader_commit"@,
        "type"@ != "current_term"@,
        "type"@ != "index"@,
        "type"@ != "success"@,
        "type"@ != "candidate_term"@,
        "type"@ != "last_log_index"@,
        "type"@ != "last_log_term"@,
        "type"@ != "term"@,
        "type"@ != "vote_granted"@,
        "leader_term"@ != "prev_log_index"@,
        "leader_term"@ != "prev_log_term"@,
        "leader_term"@ != "entries"@,
        "leader_term"@ != "leader_commit"@,
        "prev_log_index"@ != "prev_log_term"@,
        "prev_log_index"@ != "entries"@,
        "prev_log_index"@ != "leader_commit"@,
        "prev_log_term"@ != "entries"@,
        "prev_log_term"@ != "leader_commit"@,
        "entries"@ != "leader_commit"@,
        "current_term"@ != "index"@,
        "current_term"@ != "success"@,
        "index"@ != "success"@,
        "candidate_term"@ != "last_log_index"@,
        "candidate_term"@ != "last_log_term"@,
        "last_log_index"@ != "last_log_term"@,
        "term"@ != "vote_granted"@,
{
    reveal_strlit("type");
    reveal_strlit("leader_term");
    reveal_strlit("prev_log_index");
    reveal_strlit("prev_log_term");
    reveal_strlit("entries");
    reveal_strlit("leader_commit");
    reveal_strlit("current_term");
    reveal_strlit("index");
    reveal_strlit("success");
    reveal_strlit("candidate_term");
    reveal_strlit("last_log_index");
    reveal_strlit("last_log_term");
    reveal_strlit("term");
    reveal_strlit("vote_granted");
    assert("type"@.len() == 4 && "leader_term"@.len() == 11 && "prev_log_index"@.len() == 14);
    assert("prev_log_term"@.len() == 13 && "entries"@.len() == 7 && "leader_commit"@.len() == 13);
    assert("current_term"@.len() == 12 && "index"@.len() == 5 && "success"@.len() == 7);
    assert("candidate_term"@.len() == 14 && "last_log_index"@.len() == 14);
    assert("last_log_term"@.len() == 13 && "term"@.len() == 4 && "vote_granted"@.len() == 12);
    assert("type"@[1] == 'y' && "term"@[1] == 'e');
    assert("prev_log_term"@[0] == 'p' && "leader_commit"@[0] == 'l');
    assert("candidate_term"@[0] == 'c' && "last_log_index"@[0] == 'l');
}

proof fn lemma_rpc_names()
    ensures
        "append_entries"@ != "append_entries_response"@,
        "append_entries"@ != "request_vote"@,
        "append_entries"@ != "request_vote_response"@,
        "append_entries_response"@ != "request_vote"@,
        "append_entries_response"@ != "request_vote_response"@,
        "request_vote"@ != "request_vote_response"@,
{
    reveal_strlit("append_entries");
    reveal_strlit("append_entries_response");
    reveal_strlit("request_vote");
    reveal_strlit("request_vote_response");
    assert("append_entries"@.len() == 14 && "append_entries_response"@.len() == 23);
    assert("request_vote"@.len() == 12 && "request_vote_response"@.len() == 21);
}

/// The parts that a message of a peer has, by name.
pub open spec fn has_parts<C: Deserialize>(m: Members, msg: RaftMsg<C::V>) -> bool {
    match msg {
        RaftMsg::AppendEntries { term, commit_index, prev_log_index, prev_log_term, entries } => {
            &&& is_a(m, "append_entries"@)
            &&& holds::<Term>(m, "leader_term"@, term)
            &&& holds::<Option<LogIndex>>(m, "prev_log_index"@, prev_log_index)
            &&& holds::<Option<Term>>(m, "prev_log_term"@, prev_log_term)
            &&& holds::<Log<C>>(m, "entries"@, entries)
            &&& holds::<Option<LogIndex>>(m, "leader_commit"@, commit_index)
        },
        RaftMsg::AppendEntriesResponse { current_term, index, success } => {
            &&& is_a(m, "append_entries_response"@)
            &&& holds::<Term>(m, "current_term"@, current_term)
            &&& holds::<Option<LogIndex>>(m, "index"@, index)
            &&& holds::<bool>(m, "success"@, success)
        },
        RaftMsg::RequestVote { candidate_term, last_log_index, last_log_term } => {
            &&& is_a(m, "request_vote"@)
            &&& holds::<Term>(m, "candidate_term"@, candidate_term)
            &&& holds::<Option<LogIndex>>(m, "last_log_index"@, last_log_index)
            &&& holds::<Option<Term>>(m, "last_log_term"@, last_log_term)
        },
        RaftMsg::RequestVoteResponse { term, vote_granted } => {
            &&& is_a(m, "request_vote_response"@)
            &&& holds::<Term>(m, "term"@, term)
            &&& holds::<bool>(m, "vote_granted"@, vote_granted)
        },
    }
}

/// A message of a peer is read exactly as its parts say, in whatever order they come.
#[verifier::rlimit(40)]
pub proof fn peers_are_read_by_name<C: Deserialize>(m: Members, msg: RaftMsg<C::V>)
    ensures
        raft_message_from_json::<C>(Json::Object(m)) == Ok::<RaftMsg<C::V>, Undeserialized>(msg)
            <==> has_parts::<C>(m, msg),
{
    broadcast use lookup_after_without;

    lemma_part_names();
    lemma_rpc_names();
}

/// Whatever is a message of a peer is read as one; else, whatever is a message of a client is
/// read as that; and nothing else is read.
pub proof fn messages_are_of_peers_or_clients<K: Deserialize, V: Deserialize, C: Deserialize>(j: Json)
    ensures
        match Message::<K, V, C>::from_json(j) {
            Ok(Msg::Raft(m)) => raft_message_from_json::<C>(j) == Ok::<RaftMsg<C::V>, Undeserialized>(m),
            Ok(Msg::Client(m)) => raft_message_from_json::<C>(j) is Err && client_message_from_json::<
                K,
                V,
            >(j) == Ok::<_, Undeserialized>(m),
            Err(_) => raft_message_from_json::<C>(j) is Err && client_message_from_json::<K, V>(j) is Err,
        },
{
}

proof fn lemma_letters()
    ensures
        "T"@ != "k"@,
        "T"@ != "v"@,
        "T"@ != "f"@,
        "T"@ != "t"@,
        "k"@ != "v"@,
        "k"@ != "f"@,
        "k"@ != "t"@,
        "f"@ != "t"@,
        "c"@ != "t"@,
        "r"@ != "w"@,
        "r"@ != "c"@,
        "w"@ != "c"@,
{
    reveal_strlit("T");
    reveal_strlit("k");
    reveal_strlit("v");
    reveal_strlit("f");
    reveal_strlit("t");
    reveal_strlit("c");
    reveal_strlit("r");
    reveal_strlit("w");
    assert("T"@[0] == 'T' && "k"@[0] == 'k' && "v"@[0] == 'v' && "f"@[0] == 'f' && "t"@[0] == 't');
    assert("c"@[0] == 'c' && "r"@[0] == 'r' && "w"@[0] == 'w');
}

/// A command is read exactly as its parts say: what it does, to which key, with which values.
pub proof fn commands_are_read_by_name<K: Deserialize, V: Deserialize>(m: Members, op: Op<K::V, V::V>)
    ensures
        op_from_json::<K, V>(Json::Object(m)) == Ok::<Op<K::V, V::V>, Undeserialized>(op) <==> match op {
            Op::Read { key } => lookup(m, "T"@) == Some(Json::String("r"@)) && holds::<K>(m, "k"@, key),
            Op::Write { key, value } => lookup(m, "T"@) == Some(Json::String("w"@)) && holds::<K>(
                m,
                "k"@,
                key,
            ) && holds::<V>(m, "v"@, value),
            Op::CAS { key, from, to } => lookup(m, "T"@) == Some(Json::String("c"@)) && holds::<K>(
                m,
                "k"@,
                key,
            ) && holds::<V>(m, "f"@, from) && holds::<V>(m, "t"@, to),
        },
{
    broadcast use lookup_after_without;

    lemma_letters();
}

/// A command is written with its parts under their names.
pub proof fn commands_are_written_by_name<K: Serialize, V: Serialize>(c: WireCommand<K, V>)
    ensures
        c.json() matches Json::Object(m) && match c {
            WireCommand::Read { key } => lookup(m, "T"@) == Some(Json::String("r"@)) && lookup(m, "k"@)
                == Some(key.json()),
            WireCommand::Write { key, value } => lookup(m, "T"@) == Some(Json::String("w"@)) && lookup(
                m,
                "k"@,
            ) == Some(key.json()) && lookup(m, "v"@) == Some(value.json()),
            WireCommand::CAS { key, from, to } => lookup(m, "T"@) == Some(Json::String("c"@)) && lookup(
                m,
                "k"@,
            ) == Some(key.json()) && lookup(m, "f"@) == Some(from.json()) && lookup(m, "t"@) == Some(
                to.json(),
            ),
        },
{
    broadcast use lookup_after_put;

    lemma_letters();
}

/// An entry is read exactly as its parts say: the command, and the term.
pub proof fn entries_are_read_by_name<C: Deserialize>(m: Members, e: Entry<C::V>)
    ensures
        LogEntry::<C>::from_json(Json::Object(m)) == Ok::<Entry<C::V>, Undeserialized>(e) <==> holds::<
            C,
        >(m, "c"@, e.cmd) && holds::<Term>(m, "t"@, e.term),
{
    broadcast use lookup_after_without;

    lemma_letters();
    assert(LogEntry::<C>::from_json(Json::Object(m)) is Ok ==> holds::<C>(
        m,
        "c"@,
        LogEntry::<C>::from_json(Json::Object(m))->Ok_0.cmd,
    ));
}

/// An entry is written with its parts under their names.
pub proof fn entries_are_written_by_name<C: Serialize>(e: LogEntry<C>)
    ensures
        e.json() matches Json::Object(m) && lookup(m, "c"@) == Some(e.cmd.json()) && lookup(m, "t"@)
            == Some(e.term.json()),
{
    broadcast use lookup_after_put;

    lemma_letters();
}

proof fn lemma_kept_names()
    ensures
        "current_term"@ != "voted_for"@,
        "current_term"@ != "log"@,
        "voted_for"@ != "log"@,
{
    reveal_strlit("current_term");
    reveal_strlit("voted_for");
    reveal_strlit("log");
    assert("current_term"@.len() == 12 && "voted_for"@.len() == 9 && "log"@.len() == 3);
}

/// What a node kept is read exactly as its parts say: the term, the vote, and the log.
pub proof fn kept_states_are_read_by_name<C: Deserialize>(m: Members, k: Kept<C::V>)
    ensures
        kept_from_json::<C>(Json::Object(m)) == Ok::<Kept<C::V>, Undeserialized>(k) <==> holds::<Term>(
            m,
            "current_term"@,
            k.current_term,
        ) && holds::<Option<String>>(m, "voted_for"@, k.voted_for) && holds::<Log<C>>(
            m,
            "log"@,
            k.log,
        ),
{
    broadcast use lookup_after_without;

    lemma_kept_names();
}

/// What a node keeps is written with its parts under their names.
pub proof fn kept_states_are_written_by_name<C: Serialize>(p: Persistent<C>)
    ensures
        p.json() matches Json::Object(m) && lookup(m, "current_term"@) == Some(p.current_term.json())
            && lookup(m, "voted_for"@) == Some(p.voted_for.json()) && lookup(m, "log"@) == Some(
            p.log.json(),
        ),
{
    broadcast use lookup_after_put;

    lemma_kept_names();
}

/// An index is any whole number but zero.
pub proof fn indexes_are_numbers_but_zero(j: Json, i: u64)
    ensures
        LogIndex::from_json(j) == Ok::<u64, Undeserialized>(i) <==> i != 0 && u64::from_json(j) == Ok::<
            u64,
            Undeserialized,
        >(i),
        Term::from_json(j) == u64::from_json(j),
{
}

/// A put is told, and read, as the base64 of its key and of its value, under their names.
pub proof fn puts_are_told_by_name(p: PutBytes, m: Members)
    ensures
        put_json(p) matches Json::Object(all) && lookup(all, "key"@) matches Some(k) && lookup(
            all,
            "value"@,
        ) matches Some(v) && bytes_in(k) == Ok::<_, Unconverted>(
            p.key,
        ) && bytes_in(v) == Ok::<_, Unconverted>(p.value),
        put_in(Json::Object(m)) matches Ok(q) ==> lookup(m, "key"@) matches Some(k) && lookup(
            m,
            "value"@,
        ) matches Some(v) && bytes_in(k) == Ok::<_, Unconverted>(
            q.key,
        ) && bytes_in(v) == Ok::<_, Unconverted>(q.value),
{
    broadcast use {lookup_after_put, lookup_after_without};

    assert("key"@ != "value"@) by {
        reveal_strlit("key");
        reveal_strlit("value");
        assert("key"@.len() == 3 && "value"@.len() == 5);
    }
    decode_inverts_encode(p.key);
    decode_inverts_encode(p.value);
}

} // verus!
