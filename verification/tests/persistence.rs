//! What nodes keep across reboots.
use miniraft::json::serde::{Deserialize, Serialize};
use miniraft::raft::command::{Command, WireCommand};
use miniraft::raft::log::{Log, LogEntry, Term};
use miniraft::raft::node::{boot, generate_name};
use miniraft::raft::persistence::{Persistent, PersistenceError};

fn sample() -> Persistent<String> {
    Persistent {
        current_term: Term(3),
        voted_for: Some("foo".into()),
        log: Log {
            inner: vec![
                LogEntry { cmd: "foo".to_string(), term: Term(1) },
                LogEntry { cmd: "bar".to_string(), term: Term(7) },
            ],
        },
    }
}

#[test]
fn persistence_test_persistent_serialize_deserialize_roundtrip() {
    let there = sample();

    // In-memory values only
    {
        let jval = there.serialize().unwrap();
        let back: Persistent<String> = Deserialize::deserialize(jval).unwrap();

        assert_eq!(there, back);
    }

    // Actual serialization to a "file"
    {
        let mut file = Vec::new(); // in-memory "file"
        there.persist(&mut file).unwrap();

        let back = Persistent::<String>::restore(&file).unwrap();

        assert_eq!(
            there,
            back,
            "could not read back file with contents: {}",
            String::from_utf8_lossy(&file)
        );
    }
}

#[test]
fn state_test_persistent_serialize_deserialize_roundtrip() {
    let there = sample();

    // In-memory values only
    {
        let jval = there.serialize().unwrap();
        let back: Persistent<String> = Deserialize::deserialize(jval).unwrap();

        assert_eq!(there, back);
    }

    // Actual serialization to a "file"
    {
        let mut file = Vec::new(); // in-memory "file"
        there.persist(&mut file).unwrap();

        let back = Persistent::<String>::restore(&file).unwrap();

        assert_eq!(
            there,
            back,
            "could not read back file with contents: {}",
            String::from_utf8_lossy(&file)
        );
    }
}

#[test]
fn the_file_is_json() {
    let mut file = b"kept: ".to_vec();
    sample().persist(&mut file).unwrap();
    assert_eq!(
        String::from_utf8(file).unwrap(),
        "kept: {\"current_term\": 3, \"voted_for\": \"foo\", \"log\": [{\"c\": \"foo\", \"t\": 1}, {\"c\": \"bar\", \"t\": 7}]}"
    );
}

#[test]
fn commands_come_back_without_their_clients() {
    let cmd: Command<u64, i64> = Command {
        inner: WireCommand::CAS { key: 1, from: -2, to: 3 },
        response_id: Some(4),
        in_reply_to: Some(5),
        client: Some("c1".into()),
    };
    let there = Persistent {
        current_term: Term(1),
        voted_for: None,
        log: Log { inner: vec![LogEntry { cmd, term: Term(1) }] },
    };
    let mut file = Vec::new();
    there.persist(&mut file).unwrap();
    let back = Persistent::<Command<u64, i64>>::restore(&file).unwrap();
    assert_eq!(back.current_term, Term(1));
    assert_eq!(back.voted_for, None);
    assert_eq!(back.log.inner.len(), 1);
    let entry = &back.log.inner[0];
    assert_eq!(entry.term, Term(1));
    assert!(matches!(entry.cmd.inner, WireCommand::CAS { key: 1, from: -2, to: 3 }));
    assert_eq!(entry.cmd.response_id, None);
    assert_eq!(entry.cmd.in_reply_to, None);
    assert_eq!(entry.cmd.client, None);
}

#[test]
fn bad_files_are_refused() {
    let err = Persistent::<String>::restore(b"{\"current_term\": 3").unwrap_err();
    assert!(matches!(err, PersistenceError::Parse(_)));
    assert_eq!(
        err.to_string(""),
        "JSON parsing error while restoring: JSON parsing error at byte offset 18: unexpected end of input"
    );
    let err = Persistent::<String>::restore(b"[1]").unwrap_err();
    assert!(matches!(err, PersistenceError::Deserialize(_)));
    assert_eq!(err.to_string("[1]"), "deserialization error while restoring: invalid object: [1]");
    let err = Persistent::<String>::restore(b"{\"current_term\": -3, \"voted_for\": null, \"log\": []}")
        .unwrap_err();
    assert_eq!(
        err.to_string("x"),
        "deserialization error while restoring: invalid conversion: x"
    );
    let err = PersistenceError::IoError("disk full".into());
    assert_eq!(err.to_string(""), "i/o error while persisting: disk full");
}

#[test]
fn nodes_boot_with_what_they_kept() {
    assert_eq!(boot::<String>(None).unwrap(), Persistent::default());
    assert_eq!(boot::<String>(Some(b"")).unwrap(), Persistent::default());
    let mut file = Vec::new();
    sample().persist(&mut file).unwrap();
    assert_eq!(boot::<String>(Some(&file)).unwrap(), sample());
    assert!(boot::<String>(Some(b"oops")).is_err());
}

#[test]
fn names_of_files_are_random_digits() {
    let digits: Vec<u8> = (0..16).collect();
    assert_eq!(generate_name(&digits), "raft-persistence-0123456789abcdef");
}
