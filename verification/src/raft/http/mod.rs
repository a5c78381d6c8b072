//! HTTP/1.1, as far as clients of a node need it.
//!
//! Messages are as in <https://www.rfc-editor.org/info/rfc9112/#section-2>:
//!
//! ```text
//! HTTP-message   = start-line CRLF
//!                  *( field-line CRLF )
//!                  CRLF
//!                  [ message-body ]
//! ```
//!
//! Client-to-node and node-to-node communication share a socket: clients send HTTP/1.1,
//! and nodes JSON.
pub mod connection;
pub mod headers;
pub mod laws;
pub mod request;
pub mod response;

use vstd::prelude::*;

verus! {

/// What arrives on a socket.
#[derive(Debug, Clone, Copy, PartialEq, Eq, Structural)]
pub enum IncomingMessageType {
    HTTPRequest,
    JSON,
    Unidentified,
}

/// What bytes begin with.
pub open spec fn begins(data: Seq<u8>, with: Seq<u8>) -> bool {
    with.is_prefix_of(data)
}

/// What the first bytes of a message say it is.
pub open spec fn sniffed(data: Seq<u8>) -> IncomingMessageType {
    // GET, POST or PUT
    if begins(data, seq![0x47u8, 0x45, 0x54]) || begins(data, seq![0x50u8, 0x4f, 0x53, 0x54])
        || begins(data, seq![0x50u8, 0x55, 0x54]) {
        IncomingMessageType::HTTPRequest
    } else if begins(data, seq![0x7bu8]) {
        // an opening brace
        IncomingMessageType::JSON
    } else {
        IncomingMessageType::Unidentified
    }
}

fn starts_with(data: &[u8], with: &[u8]) -> (b: bool)
    ensures
        b == begins(data@, with@),
{
    if data.len() < with.len() {
        return false;
    }
    let mut i: usize = 0;
    while i < with.len()
        invariant
            i <= with@.len() <= data@.len(),
            forall|k: int| 0 <= k < i ==> data@[k] == with@[k],
        decreases with@.len() - i,
    {
        if data[i] != with[i] {
            assert(data@.subrange(0, with@.len() as int)[i as int] != with@[i as int]);
            return false;
        }
        i = i + 1;
    }
    assert(data@.subrange(0, with@.len() as int) =~= with@);
    true
}

/// Sniffs the message type from the first bytes of a message.
///
/// Used to differentiate between client-to-node (HTTPRequest), node-to-node (JSON) and
/// arbitrary (Unidentified) traffic.
pub fn sniff_message_type(data: &[u8]) -> (r: IncomingMessageType)
    ensures
        r == sniffed(data@),
{
    let get: [u8; 3] = [0x47, 0x45, 0x54];
    let post: [u8; 4] = [0x50, 0x4f, 0x53, 0x54];
    let put: [u8; 3] = [0x50, 0x55, 0x54];
    let brace: [u8; 1] = [0x7b];
    proof {
        assert(get@ =~= seq![0x47u8, 0x45, 0x54]);
        assert(post@ =~= seq![0x50u8, 0x4f, 0x53, 0x54]);
        assert(put@ =~= seq![0x50u8, 0x55, 0x54]);
        assert(brace@ =~= seq![0x7bu8]);
    }
    if starts_with(data, &get) || starts_with(data, &post) || starts_with(data, &put) {
        IncomingMessageType::HTTPRequest
    } else if starts_with(data, &brace) {
        IncomingMessageType::JSON
    } else {
        IncomingMessageType::Unidentified
    }
}

} // verus!
