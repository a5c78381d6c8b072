//! What separates two documents.
use miniraft::json::diff::{diff, Verdict};
use miniraft::json::jdiff::jdiff;
use miniraft::json::parse;

fn doubles(l: &str, r: &str) -> Option<bool> {
    match (l.parse::<f64>(), r.parse::<f64>()) {
        (Ok(l), Ok(r)) => Some(l == r),
        _ => None,
    }
}

const LEFT: &str = r#"{
    "same": true,
    "a": 1,
    "foo": "bar",
    "differing_items": [1, 2, 100, 101],
    "nested": {"a": {"deeper": 1}, "c": 1.0}
}"#;

const RIGHT: &str = r#"{
    "same": true,
    "b": 1,
    "foo": ["baz"],
    "differing_items": [1, 2, 0],
    "nested": {"b": 1, "c": 1}
}"#;

const REPORT: &str = r#"$.a: only in left document:
	1

$.b: only in right document:
	1

$.differing_items[2]: values differ:
	left:
		100
	right:
		0

$.differing_items[3]: only in left document:
	101

$.foo: values differ:
	left:
		"bar"
	right:
		["baz"]

$.nested.a: only in left document:
	{"deeper": 1}

$.nested.b: only in right document:
	1

"#;

#[test]
fn test_diff() {
    let left = parse(LEFT.as_bytes()).unwrap();
    let right = parse(RIGHT.as_bytes()).unwrap();
    assert_eq!(diff(&left, &right, &doubles).to_string(), REPORT);
}

#[test]
fn equal_documents_have_no_difference() {
    let l = parse(b"{\"a\": [1, 2.0], \"b\": null}").unwrap();
    let r = parse(b"{\"b\": null, \"a\": [1.0, 2]}").unwrap();
    assert!(l.eq_by(&r, &doubles));
    assert_eq!(diff(&l, &r, &doubles).findings.len(), 0);
    assert_eq!(diff(&l, &r, &doubles).to_string(), "");
}

#[test]
fn jdiff_reports_differences_and_errors() {
    assert_eq!(jdiff(LEFT.as_bytes(), RIGHT.as_bytes(), &doubles).unwrap(), Some(REPORT.to_string()));
    assert_eq!(jdiff(LEFT.as_bytes(), LEFT.as_bytes(), &doubles).unwrap(), None);
    let err = jdiff(b"[1", b"oops", &doubles).unwrap_err();
    assert_eq!(err.to_string(), "JSON parsing error at byte offset 2: unexpected end of input");
    assert!(jdiff(b"1", b"oops", &doubles).is_err());
}

#[test]
fn top_level_differences_are_at_the_root() {
    let l = parse(b"1").unwrap();
    let r = parse(b"\"x\"").unwrap();
    let d = diff(&l, &r, &doubles);
    assert_eq!(d.findings.len(), 1);
    assert_eq!(d.findings[0].loc.to_string(), "$.");
}

#[test]
fn exchanged_documents_exchange_sides() {
    let left = parse(LEFT.as_bytes()).unwrap();
    let right = parse(RIGHT.as_bytes()).unwrap();
    let there = diff(&left, &right, &doubles);
    let back = diff(&right, &left, &doubles);
    assert_eq!(there.findings.len(), 7);
    assert_eq!(there.findings.len(), back.findings.len());
    for (f, g) in there.findings.iter().zip(&back.findings) {
        assert_eq!(f.loc.to_string(), g.loc.to_string());
        match (&f.verdict, &g.verdict) {
            (Verdict::OnlyLeft(x), Verdict::OnlyRight(y)) | (Verdict::OnlyRight(x), Verdict::OnlyLeft(y)) => {
                assert_eq!(x.to_string(), y.to_string())
            }
            (Verdict::Differ(a, b), Verdict::Differ(c, d)) => {
                assert_eq!(a.to_string(), d.to_string());
                assert_eq!(b.to_string(), c.to_string());
            }
            (f, g) => panic!("{f:?} and {g:?}"),
        }
    }
}
