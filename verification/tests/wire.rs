//! What nodes send each other.
use miniraft::json::serde::{Deserialize, Serialize};
use miniraft::json::wire::{read_document, write_document, ReadError};
use miniraft::json::parse;
use miniraft::raft::command::{Command, WireCommand};
use miniraft::raft::log::{Log, LogEntry, LogIndex, Term};
use miniraft::raft::maelstrom::infra::{peers_of, read, read_and_handle_init, route_incoming, send, Routed};
use miniraft::raft::maelstrom::rpc::{InitRequest, MessageEnvelope};
use miniraft::raft::maelstrom::{CurrentMessageID, NodeMessageIDGenerator};
use miniraft::raft::rpc::{ClientMessage, Message, RaftMessage};

type Raft = RaftMessage<Command<u64, i64>>;
type Client = ClientMessage<u64, i64>;

fn raft_text(m: &Raft) -> String {
    write_document(m).unwrap()
}

#[test]
fn raft_messages_read_back() {
    let cmd = Command { inner: WireCommand::Write { key: 1, value: -2 }, response_id: None, in_reply_to: None, client: None };
    let messages: Vec<(Raft, &str)> = vec![
        (
            RaftMessage::AppendEntries {
                term: Term(3),
                commit_index: LogIndex::new(2),
                prev_log_index: LogIndex::new(4),
                prev_log_term: Some(Term(1)),
                entries: Log { inner: vec![LogEntry { cmd, term: Term(3) }] },
            },
            r#"{"type": "append_entries", "leader_term": 3, "prev_log_index": 4, "prev_log_term": 1, "entries": [{"c": {"T": "w", "k": 1, "v": -2}, "t": 3}], "leader_commit": 2}"#,
        ),
        (
            RaftMessage::AppendEntriesResponse { current_term: Term(3), index: None, success: false },
            r#"{"type": "append_entries_response", "index": null, "current_term": 3, "success": false}"#,
        ),
        (
            RaftMessage::RequestVote { candidate_term: Term(5), last_log_index: LogIndex::new(1), last_log_term: Some(Term(2)) },
            r#"{"type": "request_vote", "candidate_term": 5, "last_log_index": 1, "last_log_term": 2}"#,
        ),
        (
            RaftMessage::RequestVoteResponse { term: Term(5), vote_granted: true },
            r#"{"type": "request_vote_response", "term": 5, "vote_granted": true}"#,
        ),
    ];
    for (m, text) in messages {
        let want = parse(text.as_bytes()).unwrap();
        let got = m.serialize().unwrap();
        assert!(got.eq_by(&want, &|_: &str, _: &str| None), "{}", got.to_string());
        let back: Raft = read_document(text.as_bytes()).unwrap();
        assert_eq!(raft_text(&back), raft_text(&m));
        assert_eq!(back.term(), m.term());
    }
}

#[test]
fn client_messages_read_back() {
    let messages: Vec<Client> = vec![
        ClientMessage::ReadRequest { key: 1, id: 2 },
        ClientMessage::WriteRequest { key: 1, value: -3, id: 2 },
        ClientMessage::CASRequest { key: 1, from: 3, to: 4, id: 2 },
        ClientMessage::ReadResponse { in_reply_to: 7, value: 3, id: 2 },
        ClientMessage::WriteResponse { in_reply_to: 7, id: 2 },
        ClientMessage::CASResponse { in_reply_to: 7, id: 2 },
        ClientMessage::ErrorResponse { in_reply_to: 7, id: 2, code: 11, text: "no".into() },
    ];
    for mut m in messages {
        let text = write_document(&m).unwrap();
        let back: Client = read_document(text.as_bytes()).unwrap();
        assert_eq!(write_document(&back).unwrap(), text);
        assert_eq!(back.id(), 2);
        m.set_id(9);
        assert_eq!(m.id(), 9);
        m.set_answered(8);
        assert!(m.answered().is_none() || m.answered() == Some(8));
    }
}

#[test]
fn messages_of_clients_and_peers_are_told_apart() {
    let text = r#"{"src": "c1", "dest": "n1", "body": {"type": "read", "key": 1, "msg_id": 2}}"#;
    let m: MessageEnvelope<Message<u64, i64, Command<u64, i64>>> = read(text.as_bytes()).unwrap();
    assert!(matches!(route_incoming(m), Routed::Client(from, ClientMessage::ReadRequest { key: 1, id: 2 }) if from == "c1"));
    let text = r#"{"src": "n2", "dest": "n1", "body": {"type": "request_vote_response", "term": 5, "vote_granted": true}}"#;
    let m: MessageEnvelope<Message<u64, i64, Command<u64, i64>>> = read(text.as_bytes()).unwrap();
    assert!(matches!(route_incoming(m), Routed::Raft(from, RaftMessage::RequestVoteResponse { term: Term(5), vote_granted: true }) if from == "n2"));
}

#[test]
fn lines_are_sent_to_others() {
    let m = MessageEnvelope {
        source: "n1".to_string(),
        destination: "c1".to_string(),
        body: ClientMessage::<u64, i64>::WriteResponse { in_reply_to: 7, id: 2 },
    };
    let line = send(&m).unwrap();
    assert!(line.ends_with("}\n"));
    let back: MessageEnvelope<Client> = read(line.as_bytes()).unwrap();
    assert_eq!(back.source, "n1");
    assert_eq!(back.destination, "c1");
    assert!(matches!(back.body, ClientMessage::WriteResponse { in_reply_to: 7, id: 2 }));
}

#[test]
fn init_tells_a_node_its_peers() {
    let line = br#"{"src": "c0", "dest": "n2", "body": {"type": "init", "msg_id": 1, "node_id": "n2", "node_ids": ["n1", "n2", "n3"]}}
"#;
    let i = read_and_handle_init(line).unwrap();
    assert_eq!(i.node_id, "n2");
    assert_eq!(i.node_ids, vec!["n1", "n2", "n3"]);
    assert_eq!(
        send(&i.response).unwrap(),
        "{\"src\": \"n2\", \"dest\": \"c0\", \"body\": {\"type\": \"init_ok\", \"in_reply_to\": 1}}\n"
    );
    assert_eq!(peers_of(&i.node_ids, &i.node_id), vec!["n1", "n3"]);
    assert!(matches!(read_and_handle_init(b"oops"), Err(ReadError::Parse(_))));
    assert!(matches!(read_and_handle_init(b"{}"), Err(ReadError::Deserialize(_))));
    for body in [
        r#"{"type": "read", "msg_id": 1, "node_id": "n2", "node_ids": []}"#,
        r#"{"type": "init", "node_id": "n2", "node_ids": []}"#,
        r#"{"msg_id": 1, "node_id": "n2", "node_ids": []}"#,
        "[]",
    ] {
        assert!(InitRequest::deserialize(parse(body.as_bytes()).unwrap()).is_err());
    }
}

#[test]
fn indexes_are_not_zero() {
    assert!(LogIndex::new(0).is_none());
    let text = br#"{"type": "append_entries_response", "index": 0, "current_term": 3, "success": true}"#;
    assert!(read_document::<Raft>(text).is_err());
}

#[test]
fn bad_messages_are_not_read() {
    for text in [
        "1",
        "{}",
        r#"{"type": "request_vote"}"#,
        r#"{"type": "request_vote_response", "term": 5}"#,
        r#"{"type": "request_vote_response", "term": -5, "vote_granted": true}"#,
        r#"{"type": "request_vote_response", "term": 5, "vote_granted": 1}"#,
        r#"{"type": "unheard of"}"#,
    ] {
        assert!(read_document::<Raft>(text.as_bytes()).is_err());
    }
}

#[test]
fn message_ids_increase() {
    let mut ids = CurrentMessageID::new();
    let got: Vec<u64> = (0..3).map(|_| NodeMessageIDGenerator.next(&mut ids).unwrap().get()).collect();
    assert_eq!(got, vec![1, 2, 3]);
    // Generators share what they draw on
    let (mut one, mut other) = (NodeMessageIDGenerator, NodeMessageIDGenerator);
    assert_eq!(one.next(&mut ids).unwrap().get(), 4);
    assert_eq!(other.next(&mut ids).unwrap().get(), 5);
    assert_eq!(one.next(&mut ids).unwrap().get(), 6);
}
