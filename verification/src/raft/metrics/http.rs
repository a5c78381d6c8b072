//! Simple HTTP/1.1 implementation for serving metrics.
use crate::decimal::{decimal, push_decimal};
use crate::text::chars_of;
use crate::words::{trim, trimmed};
use vstd::prelude::*;
use vstd::string::{StrSliceExecFns, StringExecFns};
use vstd::utf8::encode_utf8;

verus! {

/// Whether a request line asks for metrics.
pub fn asks_for_metrics(line: &str) -> (b: bool)
    ensures
        b == "GET /metrics HTTP/1.1"@.is_prefix_of(line@),
{
    let want: Vec<char> = chars_of("GET /metrics HTTP/1.1");
    let got: Vec<char> = chars_of(line);
    if got.len() < want.len() {
        return false;
    }
    let mut i: usize = 0;
    while i < want.len()
        invariant
            i <= want@.len() <= got@.len(),
            got@ == line@,
            want@ == "GET /metrics HTTP/1.1"@,
            forall|k: int| 0 <= k < i ==> got@[k] == want@[k],
        decreases want@.len() - i,
    {
        if got[i] != want[i] {
            assert(line@.subrange(0, want@.len() as int)[i as int] != want@[i as int]);
            return false;
        }
        i = i + 1;
    }
    assert(line@.subrange(0, want@.len() as int) =~= want@);
    true
}

/// Whether a line, with what ends it, is the end of the header.
pub fn ends_header(line: &str) -> (b: bool)
    ensures
        b == (trimmed(line@).len() == 0),
{
    let s: String = trim(line);
    let chars: Vec<char> = chars_of(s.as_str());
    chars.len() == 0
}

/// The answer to anything else.
pub fn not_found() -> (r: Vec<u8>)
    ensures
        r@ == encode_utf8("HTTP/1.1 404 NOT FOUND\r\n\r\n"@),
{
    "HTTP/1.1 404 NOT FOUND\r\n\r\n".as_bytes_vec()
}

/// The answer to a request for metrics, cf.
/// <https://prometheus.io/docs/instrumenting/exposition_formats/#http-content-type-requirements>.
pub open spec fn metrics_text(body: Seq<char>) -> Seq<char> {
    "HTTP/1.1 200 OK\r\nContent-Type: text/plain; version=0.0.4\r\nContent-Length: "@ + decimal(
        encode_utf8(body).len(),
    ) + "\r\n\r\n"@ + body
}

/// The answer to a request for metrics.
pub fn metrics_response(body: &str) -> (r: Vec<u8>)
    ensures
        r@ == encode_utf8(metrics_text(body@)),
{
    let mut s: String =
        "HTTP/1.1 200 OK\r\nContent-Type: text/plain; version=0.0.4\r\nContent-Length: ".to_owned();
    let n: usize = body.as_bytes().len();
    push_decimal(&mut s, n as u64);
    s.append("\r\n\r\n");
    s.append(body);
    s.as_str().as_bytes_vec()
}

} // verus!
