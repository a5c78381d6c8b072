//! HTTP requests and responses.
use miniraft::json::wire::{write_document, ReadError};
use miniraft::raft::http::connection::{act, dispatch, pick_waiting, port_of, queue_id, Action, Dispatch};
use miniraft::raft::http::headers::Headers;
use miniraft::raft::http::request::{head_complete, Method, Request, RequestError};
use miniraft::raft::http::response::{Response, StatusCode};
use miniraft::raft::http::{sniff_message_type, IncomingMessageType};
use miniraft::raft::maelstrom::infra::Routed;
use miniraft::raft::maelstrom::rpc::MessageEnvelope;
use miniraft::raft::maelstrom::{CurrentMessageID, NodeMessageIDGenerator};
use miniraft::raft::rpc::{ClientMessage, Message, RaftMessage};

fn request(method: Method, uri: &str, headers: &[(&str, &str)], body: Option<&str>) -> Request {
    let mut h = Headers::new();
    for (k, v) in headers {
        h.insert(k.to_string(), v.to_string());
    }
    Request { method, uri: uri.into(), headers: h, body: body.map(Into::into) }
}

#[test]
fn method_from_str() {
    assert_eq!(Method::from_str("GET").unwrap(), Method::Get);
    assert_eq!(Method::from_str("PUT").unwrap(), Method::Put);
    assert!(Method::from_str("DELETE").is_err());
}

#[test]
fn from_stream_parses_request_line_headers_and_body() {
    let raw = "PUT /key/foo HTTP/1.1\r\nContent-Length: 3\r\nIf-Match: 1\r\n\r\nbar";
    let req = Request::from_stream(raw.as_bytes()).unwrap();

    assert_eq!(req.method, Method::Put);
    assert_eq!(req.uri, "/key/foo");
    assert_eq!(req.headers.get("Content-Length"), Some(&"3".to_string()));
    assert_eq!(req.headers.get("If-Match"), Some(&"1".to_string()));
    assert_eq!(req.body.as_deref(), Some("bar"));
}

#[test]
fn from_stream_without_content_length_has_no_body() {
    let req = Request::from_stream(b"GET /key/foo HTTP/1.1\r\n\r\n").unwrap();
    assert_eq!(req.method, Method::Get);
    assert_eq!(req.body, None);
}

#[test]
fn get_key_accepts_single_anchored_segment() {
    let req = request(Method::Get, "/key/foo", &[], None);
    assert_eq!(req.get_key().unwrap(), "foo");
}

#[test]
fn get_key_rejects_unanchored_or_missing_prefix() {
    assert!(request(Method::Get, "/other/key/foo", &[], None).get_key().is_err());
    assert!(request(Method::Get, "/foo", &[], None).get_key().is_err());
}

#[test]
fn get_key_rejects_empty_or_nested_key() {
    assert!(request(Method::Get, "/key/", &[], None).get_key().is_err());
    assert!(request(Method::Get, "/key/a/b", &[], None).get_key().is_err());
}

#[test]
fn sniff_classifies_http_json_and_unidentified() {
    assert_eq!(
        sniff_message_type(b"GET /key/foo HTTP/1.1\r\n\r\n"),
        IncomingMessageType::HTTPRequest
    );
    assert_eq!(sniff_message_type(b"{\"type\":\"append_entries\"}"), IncomingMessageType::JSON);
    assert_eq!(sniff_message_type(b"HTTP/1.1 403 Forbidden"), IncomingMessageType::Unidentified);
    assert_eq!(sniff_message_type(b"POST /"), IncomingMessageType::HTTPRequest);
    assert_eq!(sniff_message_type(b"PUT /"), IncomingMessageType::HTTPRequest);
    assert_eq!(sniff_message_type(b"PU"), IncomingMessageType::Unidentified);
    assert_eq!(sniff_message_type(b""), IncomingMessageType::Unidentified);
}

#[test]
fn get_request_becomes_read_request() {
    let msg = request(Method::Get, "/key/foo", &[], None).into_client_message(7).unwrap();
    assert!(matches!(msg, ClientMessage::ReadRequest { key, id: 7 } if key == "foo"));
}

#[test]
fn put_without_if_match_becomes_write_request() {
    let msg = request(Method::Put, "/key/foo", &[], Some("bar")).into_client_message(7).unwrap();
    assert!(
        matches!(msg, ClientMessage::WriteRequest { key, value, id: 7 } if key == "foo" && value == "bar")
    );
}

#[test]
fn put_with_if_match_becomes_cas_request() {
    let msg = request(Method::Put, "/key/foo", &[("If-Match", "1")], Some("bar"))
        .into_client_message(7)
        .unwrap();
    assert!(
        matches!(msg, ClientMessage::CASRequest { key, from, to, id: 7 } if key == "foo" && from == "1" && to == "bar")
    );
}

#[test]
fn put_without_body_is_rejected() {
    let res = request(Method::Put, "/key/foo", &[], None).into_client_message(7);
    assert!(res.is_err());
}

#[test]
fn read_response_serializes_to_200_with_body() {
    let msg: ClientMessage<String, String> =
        ClientMessage::ReadResponse { in_reply_to: 1, value: "bar".into(), id: 2 };
    let wire = String::from_utf8(Response::from(msg).to_wire()).unwrap();

    assert!(wire.starts_with("HTTP/1.1 200 OK\r\n"));
    assert!(wire.contains("Content-Length: 3\r\n"));
    assert!(wire.ends_with("\r\n\r\nbar"));
}

#[test]
fn write_response_serializes_to_201_without_body() {
    let msg: ClientMessage<String, String> = ClientMessage::WriteResponse { in_reply_to: 1, id: 2 };
    let wire = String::from_utf8(Response::from(msg).to_wire()).unwrap();

    assert!(wire.starts_with("HTTP/1.1 201 Created\r\n"));
    assert!(!wire.contains("Content-Length"));
    assert!(wire.ends_with("\r\n\r\n"));
}

#[test]
fn error_response_serializes_to_400_with_text() {
    let msg: ClientMessage<String, String> = ClientMessage::ErrorResponse {
        in_reply_to: 1,
        id: 2,
        code: 22,
        text: "computer says no".into(),
    };
    let wire = String::from_utf8(Response::from(msg).to_wire()).unwrap();

    assert!(wire.starts_with("HTTP/1.1 400 Bad Request\r\n"));
    assert!(wire.ends_with("\r\n\r\ncomputer says no"));
}

#[test]
fn responses_are_exact() {
    let msg: ClientMessage<u64, i64> = ClientMessage::ReadResponse { in_reply_to: 1, value: -5, id: 2 };
    assert_eq!(
        Response::from(msg).to_wire(),
        b"HTTP/1.1 200 OK\r\nContent-Length: 2\r\nConnection: close\r\n\r\n-5"
    );
    let msg: ClientMessage<u64, i64> = ClientMessage::CASResponse { in_reply_to: 1, id: 2 };
    assert_eq!(Response::from(msg).to_wire(), b"HTTP/1.1 200 OK\r\nConnection: close\r\n\r\n");
    // Length is in bytes
    let msg: ClientMessage<String, String> =
        ClientMessage::ReadResponse { in_reply_to: 1, value: "é".into(), id: 2 };
    assert!(String::from_utf8(Response::from(msg).to_wire()).unwrap().contains("Content-Length: 2\r\n"));
}

#[test]
fn requests_make_no_response() {
    let msg: ClientMessage<String, u64> =
        ClientMessage::CASRequest { key: "a\"b".into(), from: 1, to: 2, id: 3 };
    let wire = String::from_utf8(Response::from(msg).to_wire()).unwrap();
    assert!(wire.starts_with("HTTP/1.1 500 Internal Server Error\r\n"));
    assert!(wire.ends_with(
        "\r\n\r\nInternal Server Error (tried to cast other than ClientMessage response: CASRequest { key: \"a\\\"b\", from: 1, to: 2, id: 3 })"
    ));
    let msg: ClientMessage<u64, u64> = ClientMessage::ReadRequest { key: 1, id: 3 };
    let wire = String::from_utf8(Response::from(msg).to_wire()).unwrap();
    assert!(wire.ends_with("response: ReadRequest { key: 1, id: 3 })"));
    let msg: ClientMessage<u64, u64> = ClientMessage::WriteRequest { key: 1, value: 2, id: 3 };
    let wire = String::from_utf8(Response::from(msg).to_wire()).unwrap();
    assert!(wire.ends_with("response: WriteRequest { key: 1, value: 2, id: 3 })"));
}

#[test]
fn status_codes_are_what_they_are_made_from() {
    assert_eq!(StatusCode::from_u16(404).get(), 404);
    let response = Response { status: StatusCode::from_u16(404), headers: Headers::new(), body: None };
    assert_eq!(response.to_wire(), b"HTTP/1.1 404 \r\n\r\n");
}

#[test]
fn headers_tolerate_whitespace_and_junk() {
    let raw = "GET  /key/foo\tHTTP/1.1\r\n  A: b: c  \r\nnothing here\r\nA: d\r\nB: \u{a0}x\u{3000}\r\n\r\nrest";
    let req = Request::from_stream(raw.as_bytes()).unwrap();
    assert_eq!(req.uri, "/key/foo");
    assert_eq!(req.headers.len(), 2);
    assert_eq!(req.headers.get("A"), Some(&"d".to_string()));
    assert_eq!(req.headers.get("B"), Some(&"\u{a0}x".to_string()));
    assert!(!req.headers.contains_key("nothing here"));
    assert_eq!(req.body, None);
}

#[test]
fn bodies_are_as_long_as_told_or_shorter() {
    let raw = b"PUT /key/foo HTTP/1.1\r\nContent-Length: 2\r\n\r\nbar";
    assert_eq!(Request::from_stream(raw).unwrap().body.as_deref(), Some("ba"));
    let raw = b"PUT /key/foo HTTP/1.1\r\nContent-Length: 9\r\n\r\nbar";
    assert_eq!(Request::from_stream(raw).unwrap().body.as_deref(), Some("bar"));
    assert!(matches!(Request::body_length(raw), Ok(Some(9))));
    assert!(matches!(Request::body_length(b"GET /key/foo HTTP/1.1\r\n\r\n"), Ok(None)));
}

#[test]
fn bad_requests_are_refused() {
    let err = Request::from_stream(b"DELETE /key/foo HTTP/1.1\r\n\r\n").unwrap_err();
    assert!(matches!(&err, RequestError::UnknownMethod(m) if m == "DELETE"));
    assert_eq!(err.to_string(), "DELETE");
    let err = Request::from_stream(b"GET /key/\xff HTTP/1.1\r\n\r\n").unwrap_err();
    assert!(matches!(err, RequestError::NotUtf8));
    assert_eq!(err.to_string(), "stream did not contain valid UTF-8");
    let err = Request::from_stream(b"GET /key/a HTTP/1.1\r\nA: \xff\r\n\r\n").unwrap_err();
    assert!(matches!(err, RequestError::NotUtf8));
    let raw = b"PUT /key/foo HTTP/1.1\r\nContent-Length: x\r\n\r\nbar";
    let err = Request::from_stream(raw).unwrap_err();
    assert!(matches!(err, RequestError::InvalidLength(_)));
    assert_eq!(err.to_string(), "invalid digit found in string");
    let raw = b"PUT /key/foo HTTP/1.1\r\nContent-Length: 1\r\n\r\n\xff";
    assert!(matches!(Request::from_stream(raw).unwrap_err(), RequestError::NotUtf8));
    let err = request(Method::Get, "/foo", &[], None).get_key().unwrap_err();
    assert_eq!(err.to_string(), "path must start with /key/");
    let err = request(Method::Get, "/key/", &[], None).get_key().unwrap_err();
    assert_eq!(err.to_string(), "key after /key/ in path, not empty or another path");
    let err = request(Method::Put, "/key/a", &[], None).into_client_message(1).unwrap_err();
    assert_eq!(err.to_string(), "no body, but required for post");
}

#[test]
fn request_lines_need_words() {
    assert!(Request::has_request_line(b"GET /key/foo HTTP/1.1\r\n\r\n"));
    assert!(Request::has_request_line(b"DELETE"));
    assert!(!Request::has_request_line(b"GET\r\n"));
    assert!(!Request::has_request_line(b"  \r\n"));
    assert!(!Request::has_request_line(b""));
    // The line is refused, but for another reason
    assert!(Request::has_request_line(b"\xff"));
}

fn envelope(body: Message<String, String, String>) -> MessageEnvelope<Message<String, String, String>> {
    MessageEnvelope { source: "9001".into(), destination: "9002".into(), body }
}

#[test]
fn answers_go_to_who_waits() {
    assert_eq!(queue_id("9002", 17), "node-9002-17");
    let answer = ClientMessage::WriteResponse { in_reply_to: 5, id: 6 };
    match dispatch("9002", envelope(Message::Client(answer))) {
        Dispatch::Answer { message, if_follower, if_leader } => {
            assert!(matches!(message, ClientMessage::WriteResponse { in_reply_to: 5, id: 6 }));
            assert_eq!(if_follower, "node-9002-6");
            assert_eq!(if_leader, "node-9002-5");
        }
        _ => panic!("should be an answer"),
    }
    let ask = ClientMessage::ReadRequest { key: "a".into(), id: 6 };
    assert!(matches!(
        dispatch("9002", envelope(Message::Client(ask))),
        Dispatch::Route(Routed::Client(from, ClientMessage::ReadRequest { id: 6, .. })) if from == "9001"
    ));
    let vote = RaftMessage::RequestVoteResponse {
        term: miniraft::raft::log::Term(3),
        vote_granted: true,
    };
    assert!(matches!(
        dispatch("9002", envelope(Message::Raft(vote))),
        Dispatch::Route(Routed::Raft(from, RaftMessage::RequestVoteResponse { vote_granted: true, .. })) if from == "9001"
    ));
}

#[test]
fn names_are_ports() {
    assert_eq!(port_of("9002"), Some(9002));
    assert_eq!(port_of("65535"), Some(65535));
    assert_eq!(port_of("65536"), None);
    assert_eq!(port_of("n1"), None);
    assert_eq!(port_of(""), None);
}

#[test]
fn heads_end_with_an_empty_line() {
    assert!(head_complete(b"GET /key/a HTTP/1.1\r\n\r\n"));
    assert!(head_complete(b"PUT /key/a HTTP/1.1\r\nA: b\r\n\r\nbody\r\n"));
    assert!(head_complete(b"GET /key/a HTTP/1.1\n\r\n"));
    assert!(!head_complete(b"GET /key/a HTTP/1.1\r\nA: b\r\n"));
    assert!(!head_complete(b"GET /key/a HTTP/1.1\r\n\r"));
    assert!(!head_complete(b"GET /key/a HTTP/1.1\r\n\n"));
    assert!(!head_complete(b"\r\n"));
    assert!(!head_complete(b""));
    // Whatever follows, the length is the same
    let head = b"PUT /key/a HTTP/1.1\r\nContent-Length: 3\r\n\r\n";
    assert!(head_complete(head));
    let more = [&head[..], b"Content-Length: 4\r\n\r\n"].concat();
    assert!(matches!(Request::body_length(head), Ok(Some(3))));
    assert!(matches!(Request::body_length(&more), Ok(Some(3))));
}

fn line(body: Message<String, String, String>) -> Vec<u8> {
    write_document(&envelope(body)).unwrap().into_bytes()
}

#[test]
fn requests_get_ids_and_wait() {
    let mut ids = CurrentMessageID::new();
    let raw = b"PUT /key/a HTTP/1.1\r\nContent-Length: 1\r\n\r\nb";
    match act::<String>("9002", raw, &mut ids, &vec![]) {
        Action::Ask { name, message: ClientMessage::WriteRequest { key, value, id: 1 } } => {
            assert_eq!(name, "node-9002-1");
            assert_eq!((key.as_str(), value.as_str()), ("a", "b"));
        }
        other => panic!("{other:?}"),
    }
    // What cannot be read gets no ID
    assert!(matches!(
        act::<String>("9002", b"POST /key/a HTTP/1.1\r\n\r\n", &mut ids, &vec![]),
        Action::Refuse(RequestError::UnknownMethod(m)) if m == "POST"
    ));
    // What makes no sense does
    assert!(matches!(
        act::<String>("9002", b"GET /a HTTP/1.1\r\n\r\n", &mut ids, &vec![]),
        Action::Refuse(RequestError::NoKey)
    ));
    assert!(matches!(
        act::<String>("9002", b"GET /key/a HTTP/1.1\r\n\r\n", &mut ids, &vec![]),
        Action::Ask { name, message: ClientMessage::ReadRequest { id: 3, .. } } if name == "node-9002-3"
    ));
    assert!(matches!(act::<String>("9002", b"SSH-2.0", &mut ids, &vec![]), Action::Drop));
    assert!(matches!(act::<String>("9002", b"", &mut ids, &vec![]), Action::Drop));
    assert!(matches!(act::<String>("9002", b"{\"a\"", &mut ids, &vec![]), Action::Unreadable(ReadError::Parse(_))));
    assert!(matches!(act::<String>("9002", b"{}", &mut ids, &vec![]), Action::Unreadable(ReadError::Deserialize(_))));
    assert_eq!(NodeMessageIDGenerator.next(&mut ids).unwrap().get(), 4);
}

#[test]
fn answers_go_to_followers_first() {
    let mut ids = CurrentMessageID::new();
    let answer = line(Message::Client(ClientMessage::ReadResponse { in_reply_to: 5, value: "v".into(), id: 6 }));
    let names = |n: &[&str]| -> Vec<String> { n.iter().map(|s| s.to_string()).collect() };
    let mut on = |waiting: &[&str]| act::<String>("9002", &answer, &mut ids, &names(waiting));
    let wanted = b"HTTP/1.1 200 OK\r\nContent-Length: 1\r\nConnection: close\r\n\r\nv";
    for (waiting, winner) in [
        (vec!["node-9002-5", "node-9002-6"], "node-9002-6"),
        (vec!["node-9002-4", "node-9002-6"], "node-9002-6"),
        (vec!["node-9002-5", "node-9002-4"], "node-9002-5"),
    ] {
        match on(&waiting) {
            Action::Respond { name, wire } => {
                assert_eq!(name, winner);
                assert_eq!(wire, wanted);
            }
            other => panic!("{other:?}"),
        }
    }
    for waiting in [vec![], vec!["node-9001-5", "node-9002-56"]] {
        assert!(matches!(
            on(&waiting),
            Action::Resurface { message: ClientMessage::ReadResponse { in_reply_to: 5, id: 6, value } } if value == "v"
        ));
    }
    let ask = line(Message::Client(ClientMessage::ReadRequest { key: "a".into(), id: 6 }));
    assert!(matches!(
        act::<String>("9002", &ask, &mut ids, &names(&["node-9002-6"])),
        Action::HandClient { source, message: ClientMessage::ReadRequest { id: 6, .. } } if source == "9001"
    ));
    let vote = RaftMessage::RequestVoteResponse { term: miniraft::raft::log::Term(3), vote_granted: true };
    assert!(matches!(
        act::<String>("9002", &line(Message::Raft(vote)), &mut ids, &vec![]),
        Action::HandRaft { source, rpc: RaftMessage::RequestVoteResponse { vote_granted: true, .. } }
            if source == "9001"
    ));
    assert_eq!(NodeMessageIDGenerator.next(&mut ids).unwrap().get(), 1);
    assert_eq!(pick_waiting(&names(&["b"]), "a".into(), "b".into()).as_deref(), Some("b"));
    assert_eq!(pick_waiting(&names(&["b", "a"]), "a".into(), "b".into()).as_deref(), Some("a"));
    assert_eq!(pick_waiting(&names(&["c"]), "a".into(), "b".into()), None);
}
