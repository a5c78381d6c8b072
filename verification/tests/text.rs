//! Text, numbers, names and chance.
use miniraft::datum::{Datum, Readable};
use miniraft::decimal::{i64_to_string, parse_i64, parse_u64, push_hexadecimal, u64_to_string, ParseIntError};
use miniraft::domain::state::{Candidate, LogEntry, Persistent, Term};
use miniraft::json::conversions::from_value::{Reason, TryFromError};
use miniraft::json::serde::DeserializeError as JsonDeserializeError;
use miniraft::json::{parse, Number, Value};
use miniraft::raft::metrics::http::{asks_for_metrics, ends_header, metrics_response, not_found};
use miniraft::raft::metrics::{InflightProxyRequests, InflightProxyRequestsLabels};
use miniraft::raft::node::{join_names, metrics_port, split_names, strip_first, strip_letter};
use miniraft::rand::{part, shuffle, shuffle_by, Coin, MAX_ROUNDS};
use miniraft::serde::{Deserialize, DeserializeError, Reader, Serialize, SerializeError};
use miniraft::utf8;
use miniraft::words::{split_once, split_white_space, trim};

#[test]
fn numbers_are_written_and_read() {
    for n in [0, 7, 10, 42, 1_000, u64::MAX] {
        assert_eq!(u64_to_string(n), n.to_string());
        assert!(matches!(parse_u64(&u64_to_string(n)), Ok(m) if m == n));
    }
    for n in [0, -1, 10, i64::MIN, i64::MAX] {
        assert_eq!(i64_to_string(n), n.to_string());
        assert!(matches!(parse_i64(&i64_to_string(n)), Ok(m) if m == n));
    }
    let mut s = String::from("0x");
    push_hexadecimal(&mut s, 0xbeef);
    assert_eq!(s, "0xbeef");
}

#[test]
fn bad_numbers_are_refused_like_std_does() {
    for text in ["", "+", "-", "x", "1x", "-1", "+1", "18446744073709551616", "99999999999999999999x", " 1", "007"] {
        match (parse_u64(text), text.parse::<u64>()) {
            (Ok(a), Ok(b)) => assert_eq!(a, b),
            (Err(a), Err(b)) => assert_eq!(a.to_string(), b.to_string(), "on {:?}", text),
            _ => panic!("differs on {:?}", text),
        }
        match (parse_i64(text), text.parse::<i64>()) {
            (Ok(a), Ok(b)) => assert_eq!(a, b),
            (Err(a), Err(b)) => assert_eq!(a.to_string(), b.to_string(), "on {:?}", text),
            _ => panic!("differs on {:?}", text),
        }
    }
    assert!(matches!(parse_i64("-9223372036854775809"), Err(ParseIntError::NegOverflow)));
}

#[test]
fn utf8_is_read_like_std_does() {
    for bytes in [
        b"".to_vec(),
        b"abc".to_vec(),
        "aé⌣🔥z".as_bytes().to_vec(),
        vec![0xff],
        vec![b'a', 0xc3],
        vec![b'a', 0xc3, b' '],
        vec![0xc0, 0xaf],
        vec![0xe2, 0x82],
        vec![0xed, 0xa0, 0x80],
        vec![0xf4, 0x90, 0x80, 0x80],
        vec![0xf0, 0x9f, 0x94],
        vec![0xe0, 0x80, 0x80],
    ] {
        match (utf8::read(&bytes), String::from_utf8(bytes.clone())) {
            (Ok(a), Ok(b)) => assert_eq!(a, b),
            (Err(a), Err(b)) => {
                assert_eq!(a.valid_up_to, b.utf8_error().valid_up_to());
                assert_eq!(a.error_len.map(|n| n as usize), b.utf8_error().error_len());
            }
            _ => panic!("differs on {:?}", bytes),
        }
    }
}

#[test]
fn data_are_shown() {
    assert_eq!("a\"b\u{7f}".to_string().show(), "\"a\\\"b\\u{7f}\"");
    assert_eq!(5u64.show(), "5");
    assert_eq!((-5i64).show(), "-5");
    assert_eq!("a\"b".to_string().print(), "a\"b");
    assert_eq!(5u64.print(), "5");
    assert_eq!((-5i64).print(), "-5");
    assert!("a".to_string().same(&"a".to_string()));
    assert!(!1u64.same(&2));
}

#[test]
fn whitespace_is_unicode_s() {
    for text in ["", " ", "a", " a  b\tc\r\n", "\u{a0}x\u{3000}y\u{2029}", "a\u{200b}b", "\u{1680}\u{85}z\u{b}"] {
        let want: Vec<String> = text.split_whitespace().map(|s| s.to_string()).collect();
        assert_eq!(split_white_space(text), want);
        assert_eq!(trim(text), text.trim());
    }
    for text in ["", ": ", "a: b", "a: b: c", "a:b", ":  "] {
        let want = text.split_once(": ").map(|(a, b)| (a.to_string(), b.to_string()));
        assert_eq!(split_once(text, ": "), want);
    }
    assert_eq!(split_once("ab", ""), Some(("".to_string(), "ab".to_string())));
}

#[test]
fn names_are_split_and_joined() {
    let names: Vec<String> = vec!["n1".into(), "n2".into(), "n3".into()];
    assert_eq!(join_names(&names), "n1,n2,n3");
    assert_eq!(split_names("n1,n2,n3"), names);
    assert_eq!(split_names(""), vec![""]);
    assert_eq!(split_names("a,,b,"), vec!["a", "", "b", ""]);
    assert_eq!(join_names(&vec![]), "");
}

#[test]
fn metrics_have_ports() {
    assert_eq!(strip_letter("n12").as_deref(), Some("12"));
    assert_eq!(strip_letter("12"), None);
    assert_eq!(strip_letter("٣x"), None);
    assert_eq!(strip_letter(""), None);
    assert_eq!(strip_first("n12", false).as_deref(), Some("12"));
    assert_eq!(strip_first("n12", true), None);
    assert!(matches!(metrics_port("12"), Ok(Some(11_012))));
    assert!(matches!(metrics_port("60000"), Ok(None)));
    assert!(matches!(metrics_port("65536"), Err(ParseIntError::PosOverflow)));
    assert!(matches!(metrics_port("n"), Err(ParseIntError::InvalidDigit)));
    // What comes first decides
    assert!(matches!(metrics_port("70000x"), Err(ParseIntError::PosOverflow)));
    assert!(matches!(metrics_port("7000x0"), Err(ParseIntError::InvalidDigit)));
    assert!(matches!(metrics_port("+12"), Ok(Some(11_012))));
    assert!(matches!(metrics_port("54535"), Ok(Some(65_535))));
    assert!(matches!(metrics_port("54536"), Ok(None)));
    assert!(matches!(metrics_port(""), Err(ParseIntError::Empty)));
}

#[test]
fn metrics_are_served() {
    let mut m = InflightProxyRequests::new();
    assert_eq!(m.name(), "inflight_proxy_requests");
    m.set(3, InflightProxyRequestsLabels { node: "n1".into() });
    m.set(4, InflightProxyRequestsLabels { node: "n2".into() });
    m.set(5, InflightProxyRequestsLabels { node: "n1".into() });
    let text = m.to_prometheus();
    assert_eq!(
        text,
        "# TYPE inflight_proxy_requests gauge\ninflight_proxy_requests{node=\"n1\"} 5\ninflight_proxy_requests{node=\"n2\"} 4\n"
    );
    assert_eq!(
        metrics_response("é\n"),
        "HTTP/1.1 200 OK\r\nContent-Type: text/plain; version=0.0.4\r\nContent-Length: 3\r\n\r\né\n".as_bytes()
    );
    assert_eq!(not_found(), b"HTTP/1.1 404 NOT FOUND\r\n\r\n");
    assert!(asks_for_metrics("GET /metrics HTTP/1.1\r\n"));
    assert!(!asks_for_metrics("GET / HTTP/1.1\r\n"));
    assert!(!asks_for_metrics("GET"));
    assert!(ends_header("\r\n"));
    assert!(!ends_header("Host: x\r\n"));
}

struct Alternating(bool);

impl Coin for Alternating {
    fn flip(&mut self) -> bool {
        self.0 = !self.0;
        self.0
    }
}

struct Stuck;

impl Coin for Stuck {
    fn flip(&mut self) -> bool {
        false
    }
}

#[test]
fn shuffling_keeps_all_items() {
    let shuffled = shuffle(vec![1, 2, 3, 4, 5], &mut Alternating(false)).unwrap();
    assert_eq!(shuffled, vec![1, 3, 5, 4, 2]);
    let mut sorted = shuffled.clone();
    sorted.sort();
    assert_eq!(sorted, vec![1, 2, 3, 4, 5]);
    assert_eq!(shuffle::<u8, Stuck>(vec![], &mut Stuck), Some(vec![]));
    assert_eq!(shuffle(vec![1], &mut Stuck), None);
    let mut new = vec![0];
    assert_eq!(part(vec![1, 2, 3], &vec![true, false, true], &mut new), vec![2]);
    assert_eq!(new, vec![0, 1, 3]);
}

#[test]
fn binary_is_little_endian() {
    let mut out = vec![];
    0x0102_0304_0506_0708u64.serialize(&mut out).unwrap();
    assert_eq!(out, vec![8, 7, 6, 5, 4, 3, 2, 1]);
    let mut r = Reader::new(&out);
    assert_eq!(u64::deserialize(&mut r).unwrap(), 0x0102_0304_0506_0708);
    let mut out = vec![];
    vec![1u8, 2].serialize(&mut out).unwrap();
    Some(7u8).serialize(&mut out).unwrap();
    Option::<u8>::None.serialize(&mut out).unwrap();
    assert_eq!(out, vec![2, 0, 0, 0, 0, 0, 0, 0, 1, 2, 1, 7, 0]);
    let mut r = Reader::new(&out);
    assert_eq!(Vec::<u8>::deserialize(&mut r).unwrap(), vec![1, 2]);
    assert_eq!(Option::<u8>::deserialize(&mut r).unwrap(), Some(7));
    assert_eq!(Option::<u8>::deserialize(&mut r).unwrap(), None);
    assert!(u8::deserialize(&mut r).is_err());
}

#[test]
fn bad_binary_is_refused() {
    let err = u64::deserialize(&mut Reader::new(&[1, 2, 3])).unwrap_err();
    assert!(matches!(&err, DeserializeError::Io(_)));
    assert_eq!(err.to_string(), "i/o error: failed to fill whole buffer");
    let err = Option::<u8>::deserialize(&mut Reader::new(&[2, 3])).unwrap_err();
    assert!(matches!(&err, DeserializeError::InvalidTag { found, .. } if *found == vec![2]));
    assert_eq!(err.to_string(), "invalid tag '[2]' for enum (Option only has tags: 0, 1)");
    let err = DeserializeError::InvalidTag { found: vec![1, 20, 3], diag: "d".into() };
    assert_eq!(err.to_string(), "invalid tag '[1, 20, 3]' for enum (d)");
    assert_eq!(SerializeError::Io("e".into()).to_string(), "i/o error: e");
    assert!(Vec::<u64>::deserialize(&mut Reader::new(&[1, 0, 0, 0, 0, 0, 0, 0, 5])).is_err());
}

#[test]
fn lasting_state_reads_back() {
    let p = Persistent {
        current_term: Term(3),
        voted_for: Some(Candidate(4)),
        log: vec![LogEntry { cmd: 9u64, term: Term(1) }, LogEntry { cmd: 8u64, term: Term(2) }],
    };
    let mut out = vec![];
    p.serialize(&mut out).unwrap();
    assert_eq!(out.len(), 8 + 9 + 8 + 2 * 16);
    let mut r = Reader::new(&out);
    assert_eq!(Persistent::<u64>::deserialize(&mut r).unwrap(), p);
    // Reading onto something adds to its log
    let mut q = Persistent { current_term: Term(0), voted_for: None, log: vec![LogEntry { cmd: 1u64, term: Term(1) }] };
    q.deserialize_into(&mut Reader::new(&out)).unwrap();
    assert_eq!(q.log.len(), 3);
    assert_eq!(p.to_string(), "3\n4\n");
    assert_eq!(Persistent::<u64>::default().to_string(), "0\n\n");
    assert_eq!(p.log[0].to_string(), "9\n1");
    let e = LogEntry { cmd: "a\tb\n'\"\\é".to_string(), term: Term(1) };
    assert_eq!(e.to_string(), "a\\tb\\n\\'\\\"\\\\\\u{e9}\n1");
    assert_eq!(Candidate(5).to_string(), "5");
    assert_eq!(Term::default().to_string(), "0");
}

#[test]
fn values_convert() {
    assert_eq!(Value::from("a").to_string(), "\"a\"");
    assert_eq!(Value::from("b".to_string()).to_string(), "\"b\"");
    assert_eq!(Value::from(b"foo".as_slice()).to_string(), "\"Zm9v\"");
    assert_eq!(Value::from(7u64).to_string(), "7");
    assert_eq!(Value::from(-7i64).to_string(), "-7");
    assert_eq!(Value::from(true).to_string(), "true");
    assert_eq!(String::try_from(parse(b"\"a\"").unwrap()).unwrap(), "a");
    assert_eq!(Vec::<u8>::try_from(parse(b"\"Zm9v\"").unwrap()).unwrap(), b"foo");
    assert_eq!(u64::try_from(parse(b"7").unwrap()).unwrap(), 7);
    assert_eq!(i64::try_from(parse(b"-7").unwrap()).unwrap(), -7);
    assert_eq!(u64::try_from(&Number("8".into())).unwrap(), 8);
    let err = String::try_from(parse(b"1").unwrap()).unwrap_err();
    assert!(matches!(err, TryFromError { reason: None, .. }));
    assert_eq!(err.to_string("1"), "conversion error for value '1' (no reason)");
    let err = u64::try_from(parse(b"-7").unwrap()).unwrap_err();
    assert!(matches!(err.reason, Some(Reason::Int(_))));
    assert_eq!(
        err.to_string("-7"),
        "conversion error for value '-7' (reason: invalid digit found in string)"
    );
    let err = Vec::<u8>::try_from(parse(b"\"Zm$v\"").unwrap()).unwrap_err();
    assert!(matches!(err.reason, Some(Reason::Base64(_))));
    assert_eq!(err.reason.unwrap().to_string(), "invalid byte 24 at position 2");
    let err = JsonDeserializeError::InvalidValue(Value::Null);
    assert_eq!(err.to_string("null"), "invalid object: null");
}

#[test]
fn parsing_errors_have_messages() {
    let cases: [(&[u8], &str); 8] = [
        (b"[1,", "JSON parsing error at byte offset 3: unexpected end of input"),
        (b"\"\\a\"", "JSON parsing error at byte offset 3: invalid escape sequence: '61'"),
        (b"\"\\u12z4\"", "JSON parsing error at byte offset 6: invalid hexadecimal character: 'z'"),
        (b"\"\\udd1e\"", "JSON parsing error at byte offset 7: orphaned UTF16 low surrogate: dd1e"),
        (b"\"\\ud800a\"", "JSON parsing error at byte offset 9: unpaired UTF16 high surrogate: d800"),
        (b"\"\xff\"", "JSON parsing error at byte offset 2: invalid UTF8 start byte: 'ff'"),
        (b"nul1", "JSON parsing error at byte offset 4: invalid byte: '31' (expected l scanning for null, got 1)"),
        (b"1 2", "JSON parsing error at byte offset 2: invalid byte: '32' (excessive data in input after parsing one JSON value)"),
    ];
    for (input, want) in cases {
        assert_eq!(parse(input).unwrap_err().to_string(), want);
    }
}

#[test]
fn nesting_is_limited() {
    let nested = |depth: usize| format!("{}{}", "[".repeat(depth), "]".repeat(depth));
    assert!(parse(nested(256).as_bytes()).is_ok());
    let err = parse(nested(257).as_bytes()).unwrap_err();
    assert_eq!(err.to_string(), "JSON parsing error at byte offset 256: values nested too deep: 257");
}

#[test]
fn parsing_inverts_printing() {
    let text = r#"{"a": [1, -2.5e+3, "x\n\"y\"", true, null, {}], "b": []}"#;
    let v = parse(text.as_bytes()).unwrap();
    assert_eq!(v.to_string(), text);
    assert_eq!(parse(v.to_string().as_bytes()).unwrap().to_string(), text);
}

#[test]
fn rounds_decide_the_order() {
    let items = || vec!['a', 'b', 'c'];
    let (yes, no) = (true, false);
    assert_eq!(shuffle_by(items(), &vec![vec![yes, yes, yes]]), Some(vec!['a', 'b', 'c']));
    assert_eq!(
        shuffle_by(items(), &vec![vec![no, yes, no], vec![no, yes], vec![yes]]),
        Some(vec!['b', 'c', 'a'])
    );
    // What is left over when nothing more comes up
    assert_eq!(shuffle_by(items(), &vec![vec![no, yes, no], vec![no, yes]]), None);
    assert_eq!(shuffle_by(items(), &vec![]), None);
    assert_eq!(shuffle_by(Vec::<char>::new(), &vec![]), Some(vec![]));
    // Rounds that come too late
    let late = |n: usize| {
        let mut rounds = vec![vec![no]; n];
        rounds.push(vec![yes]);
        rounds
    };
    assert_eq!(shuffle_by(vec!['a'], &late(MAX_ROUNDS as usize - 1)), Some(vec!['a']));
    assert_eq!(shuffle_by(vec!['a'], &late(MAX_ROUNDS as usize)), None);
}

#[test]
fn broken_reads_leave_what_was_read() {
    // Too short a number
    let mut n = 7u64;
    let mut reader = Reader::new(&[1, 2, 3]);
    assert!(n.deserialize_into(&mut reader).is_err());
    assert_eq!(n, 7);
    assert_eq!(reader.next(), None);

    // Two of three items, and a tag that is none
    let mut data = Vec::new();
    3u64.serialize(&mut data).unwrap();
    data.extend([1, 9, 0, 5, 6]);
    let mut items: Vec<Option<u8>> = vec![Some(4)];
    let mut reader = Reader::new(&data);
    let err = items.deserialize_into(&mut reader).unwrap_err();
    assert_eq!(err.to_string(), "invalid tag '[5]' for enum (Option only has tags: 0, 1)");
    assert_eq!(items, vec![Some(4), Some(9), None]);
    assert_eq!(reader.next(), Some(6));

    // An option stays what it was
    let mut x: Option<u64> = Some(3);
    let mut reader = Reader::new(&[1, 2]);
    assert!(x.deserialize_into(&mut reader).is_err());
    assert_eq!(x, Some(3));
    assert_eq!(reader.next(), None);

    // A term, and no vote
    let mut data = Vec::new();
    8u64.serialize(&mut data).unwrap();
    data.push(2);
    let mut p: Persistent<u64> = Persistent::default();
    assert!(p.deserialize_into(&mut Reader::new(&data)).is_err());
    assert_eq!((p.current_term, p.voted_for, p.log.len()), (Term(8), None, 0));
}
