//! The store, what clients ask of it, and what they get.
use miniraft::json::serde::{Deserialize, Serialize};
use miniraft::json::wire::{read_document, write_document};
use miniraft::json::{parse, Value};
use miniraft::kv::{CASError, Put, Store};
use miniraft::maelstrom::process::{handle_init, process};
use miniraft::maelstrom::rpc::{ErrorCode, Message, Request, ReservedErrorCode, Response};
use miniraft::maelstrom::{CurrentMessageId, NodeMessageIdGenerator};
use miniraft::raft::command::{Command, WireCommand};
use miniraft::raft::machine::StateMachine;
use miniraft::raft::rpc::ClientMessage;

#[test]
fn stores_give_back_what_they_got() {
    let mut s: Store<u64, i64> = Store::new();
    assert_eq!(s.read(&1), None);
    s.write(1, 10);
    s.write(2, 20);
    s.write(1, 11);
    assert_eq!(s.read(&1), Some(&11));
    assert_eq!(s.read(&2), Some(&20));
    assert_eq!(s.len(), 2);
}

#[test]
fn swaps_are_guarded() {
    let mut s: Store<String, i64> = Store::new();
    let key = "a".to_string();
    assert!(matches!(s.compare_and_swap(&key, 1, 2), Err(CASError::NoSuchKey)));
    s.write(key.clone(), 1);
    assert!(s.compare_and_swap(&key, 1, 2).is_ok());
    assert_eq!(s.read(&key), Some(&2));
    assert!(matches!(
        s.compare_and_swap(&key, 1, 3),
        Err(CASError::ValueMismatch { requested: 1, found: 2 })
    ));
    assert_eq!(s.read(&key), Some(&2));
}

#[test]
fn puts_are_base64_in_json() {
    let p = Put { key: b"foo".to_vec(), value: vec![0, 255] };
    let text = write_document(&p).unwrap();
    assert_eq!(text, r#"{"key": "Zm9v", "value": "AP8="}"#);
    let back: Put = read_document(text.as_bytes()).unwrap();
    assert_eq!(back.key, p.key);
    assert_eq!(back.value, p.value);
    assert_eq!(Value::from(&p).to_string(), text);
    let back = Put::try_from(parse(text.as_bytes()).unwrap()).unwrap();
    assert_eq!(back.key, p.key);
    let err = Put::try_from(parse(br#"{"key": "Zm9v", "value": "A"}"#).unwrap()).unwrap_err();
    assert_eq!(
        err.to_string("\"A\""),
        "conversion error for value '\"A\"' (reason: encoded text must be a multiple of 4)"
    );
    assert!(Put::deserialize(parse(b"1").unwrap()).is_err());
    assert!(Put::deserialize(parse(br#"{"key": "Zm9v"}"#).unwrap()).is_err());
    assert!(Put::default().key.is_empty());
}

fn ask(text: &str) -> Message<Request<u64, i64>> {
    let body = format!("{{\"src\": \"c1\", \"dest\": \"n1\", \"body\": {text}}}");
    read_document(body.as_bytes()).unwrap()
}

#[test]
fn requests_are_processed() {
    let mut ids = CurrentMessageId::new();
    let mut s: Store<u64, i64> = Store::new();
    let cases = [
        (
            r#"{"type": "read", "msg_id": 1, "key": 7}"#,
            r#"{"src": "n1", "dest": "c1", "body": {"type": "error", "in_reply_to": 1, "code": 20, "text": "key: 7"}}"#,
        ),
        (
            r#"{"type": "write", "msg_id": 2, "key": 7, "value": -4}"#,
            r#"{"src": "n1", "dest": "c1", "body": {"type": "write_ok", "in_reply_to": 2, "msg_id": 1}}"#,
        ),
        (
            r#"{"type": "read", "msg_id": 3, "key": 7}"#,
            r#"{"src": "n1", "dest": "c1", "body": {"type": "read_ok", "in_reply_to": 3, "msg_id": 2, "value": -4}}"#,
        ),
        (
            r#"{"type": "cas", "msg_id": 4, "key": 7, "from": 1, "to": 2}"#,
            r#"{"src": "n1", "dest": "c1", "body": {"type": "error", "in_reply_to": 4, "code": 22, "text": "found existing value: -4 != 1"}}"#,
        ),
        (
            r#"{"type": "cas", "msg_id": 5, "key": 7, "from": -4, "to": 2}"#,
            r#"{"src": "n1", "dest": "c1", "body": {"type": "cas_ok", "in_reply_to": 5, "msg_id": 3}}"#,
        ),
        (
            r#"{"type": "cas", "msg_id": 6, "key": 8, "from": 1, "to": 2}"#,
            r#"{"src": "n1", "dest": "c1", "body": {"type": "error", "in_reply_to": 6, "code": 20, "text": "no such key: 8"}}"#,
        ),
        (
            r#"{"type": "init", "msg_id": 7, "node_id": "n1", "node_ids": []}"#,
            r#"{"src": "n1", "dest": "c1", "body": {"type": "error", "in_reply_to": 7, "code": 12, "text": "unprocessable request"}}"#,
        ),
    ];
    for (request, response) in cases {
        let got = process(ask(request), "n1".to_string(), NodeMessageIdGenerator, &mut ids, &mut s);
        let want = parse(response.as_bytes()).unwrap();
        let got = got.serialize().unwrap();
        assert!(got.eq_by(&want, &|_: &str, _: &str| None), "{} != {}", got.to_string(), want.to_string());
    }
}

#[test]
fn strings_are_shown_with_escapes() {
    let mut ids = CurrentMessageId::new();
    let mut s: Store<String, i64> = Store::new();
    let m = Message {
        source: "c1".to_string(),
        destination: "n1".to_string(),
        body: Request::KVRead { key: "a\"\n".to_string(), message_id: 1 },
    };
    let r = process(m, "n1".to_string(), NodeMessageIdGenerator, &mut ids, &mut s);
    assert!(matches!(r.body, Response::Error { text, .. } if text == "key: \"a\\\"\\n\""));
}

#[test]
fn nodes_learn_who_they_are() {
    let m = ask(r#"{"type": "init", "msg_id": 7, "node_id": "n1", "node_ids": ["n1", "n2"]}"#);
    let (id, response) = handle_init(m).unwrap();
    assert_eq!(id, "n1");
    assert_eq!(
        write_document(&response).unwrap(),
        r#"{"src": "n1", "dest": "c1", "body": {"type": "init_ok", "in_reply_to": 7}}"#
    );
    assert!(handle_init(ask(r#"{"type": "read", "msg_id": 1, "key": 7}"#)).is_none());
}

#[test]
fn bad_requests_are_not_read() {
    for text in [
        "1",
        "{}",
        r#"{"type": 1}"#,
        r#"{"type": "delete", "msg_id": 1}"#,
        r#"{"type": "read", "key": 7}"#,
        r#"{"type": "read", "msg_id": "x", "key": 7}"#,
        r#"{"type": "write", "msg_id": 1, "key": 7}"#,
        r#"{"type": "cas", "msg_id": 1, "key": 7, "from": 1}"#,
        r#"{"type": "init", "msg_id": 1, "node_id": "n1", "node_ids": 5}"#,
    ] {
        assert!(Request::<u64, i64>::deserialize(parse(text.as_bytes()).unwrap()).is_err());
    }
}

#[test]
fn error_codes_have_numbers() {
    let all = [
        (ReservedErrorCode::Timeout, 0),
        (ReservedErrorCode::NodeNotFound, 1),
        (ReservedErrorCode::NotSupported, 10),
        (ReservedErrorCode::TemporarilyUnavailable, 11),
        (ReservedErrorCode::MalformedRequest, 12),
        (ReservedErrorCode::Crash, 13),
        (ReservedErrorCode::Abort, 14),
        (ReservedErrorCode::KeyDoesNotExist, 20),
        (ReservedErrorCode::KeyAlreadyExists, 21),
        (ReservedErrorCode::PreconditionFailed, 22),
        (ReservedErrorCode::TxnConflict, 30),
    ];
    for (code, number) in all {
        assert_eq!(u64::from(code), number);
        assert_eq!(code.code(), number);
    }
}

#[test]
fn ids_increase() {
    let mut ids = CurrentMessageId::new();
    let got: Vec<u64> = (0..4).map(|_| NodeMessageIdGenerator.next(&mut ids).unwrap().get()).collect();
    assert_eq!(got, vec![1, 2, 3, 4]);
}

fn cmd(inner: WireCommand<u64, i64>) -> Command<u64, i64> {
    Command { inner, response_id: Some(8), in_reply_to: Some(9), client: Some("c1".into()) }
}

#[test]
fn commands_are_applied_to_stores() {
    let mut s: Store<u64, i64> = Store::fresh();
    let (to, m) = s.apply(cmd(WireCommand::Read { key: 1 })).unwrap();
    assert_eq!(to, "c1");
    assert!(matches!(m, ClientMessage::ErrorResponse { in_reply_to: 9, id: 8, code: 20, text } if text == "no such key"));
    let (_, m) = s.apply(cmd(WireCommand::Write { key: 1, value: 5 })).unwrap();
    assert!(matches!(m, ClientMessage::WriteResponse { in_reply_to: 9, id: 8 }));
    let (_, m) = s.apply(cmd(WireCommand::Read { key: 1 })).unwrap();
    assert!(matches!(m, ClientMessage::ReadResponse { in_reply_to: 9, id: 8, value: 5 }));
    let (_, m) = s.apply(cmd(WireCommand::CAS { key: 1, from: 4, to: 6 })).unwrap();
    assert!(matches!(m, ClientMessage::ErrorResponse { code: 22, text, .. } if text == "values for key differ (found 5)"));
    let (_, m) = s.apply(cmd(WireCommand::CAS { key: 1, from: 5, to: 6 })).unwrap();
    assert!(matches!(m, ClientMessage::CASResponse { in_reply_to: 9, id: 8 }));
    let (_, m) = s.apply(cmd(WireCommand::CAS { key: 2, from: 5, to: 6 })).unwrap();
    assert!(matches!(m, ClientMessage::ErrorResponse { code: 20, .. }));
    // No client, no response
    let quiet = Command { inner: WireCommand::Write { key: 3, value: 1 }, response_id: None, in_reply_to: None, client: None };
    assert!(s.apply(quiet).is_none());
    assert_eq!(s.read(&3), Some(&1));
    assert_eq!(s.read(&1), Some(&6));
}

#[test]
fn requests_become_commands() {
    let c = Command::from_request("c1".into(), 3, ClientMessage::CASRequest { key: 1u64, from: 2i64, to: 3, id: 4 }).unwrap();
    assert!(matches!(c.inner, WireCommand::CAS { key: 1, from: 2, to: 3 }));
    assert_eq!(c.response_id, Some(3));
    assert_eq!(c.in_reply_to, Some(4));
    assert_eq!(c.client.as_deref(), Some("c1"));
    let back = Command::<u64, i64>::from_request("c1".into(), 3, ClientMessage::WriteResponse { in_reply_to: 1, id: 2 });
    assert!(matches!(back, Err(ClientMessage::WriteResponse { in_reply_to: 1, id: 2 })));
}
