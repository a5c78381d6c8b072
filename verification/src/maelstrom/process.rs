//! What a node answers.
use crate::assoc::{lookup, put};
use crate::datum::Datum;
use crate::kv::{swapped, CASError, Holds, Store};
use crate::maelstrom::rpc::{Asked, Message, Request, ReservedErrorCode, Response};
use crate::maelstrom::{id_after, CurrentMessageId, NodeId, NodeMessageIdGenerator};
use vstd::prelude::*;
use vstd::string::StringExecFns;

verus! {

/// What a [`Response`] is, mathematically, with `V` as what a value is.
#[verifier::ext_equal]
pub enum Answer<V> {
    InitOk { in_reply_to: u64 },
    Error { in_reply_to: u64, code: ReservedErrorCode, text: Seq<char> },
    KVReadOK { in_reply_to: u64, value: V, message_id: u64 },
    KVWriteOK { in_reply_to: u64, message_id: u64 },
    KVCASOK { in_reply_to: u64, message_id: u64 },
}

impl<'v, V: DeepView> DeepView for Response<'v, V, ReservedErrorCode> {
    type V = Answer<V::V>;

    open spec fn deep_view(&self) -> Answer<V::V> {
        match *self {
            Response::InitOk { in_reply_to } => Answer::InitOk { in_reply_to },
            Response::Error { in_reply_to, code, text } => Answer::Error {
                in_reply_to,
                code,
                text: text@,
            },
            Response::KVReadOK { in_reply_to, value, message_id } => Answer::KVReadOK {
                in_reply_to,
                value: value.deep_view(),
                message_id: message_id@,
            },
            Response::KVWriteOK { in_reply_to, message_id } => Answer::KVWriteOK {
                in_reply_to,
                message_id: message_id@,
            },
            Response::KVCASOK { in_reply_to, message_id } => Answer::KVCASOK {
                in_reply_to,
                message_id: message_id@,
            },
        }
    }
}

/// What a store holds behind a request.
pub open spec fn store_after<K, V>(s: Holds<K, V>, asked: Asked<K, V>) -> Holds<K, V> {
    match asked {
        Asked::KVWrite { key, value, .. } => put(s, key, value),
        Asked::KVCAS { key, from, to, .. } => swapped(s, key, from, to),
        _ => s,
    }
}

/// The answer to a request, with `id` as the ID of the answer, should it have one.
pub open spec fn answer<K: Datum, V: Datum>(
    s: Holds<K::V, V::V>,
    asked: Asked<K::V, V::V>,
    id: u64,
) -> Answer<V::V> {
    match asked {
        Asked::KVRead { key, message_id } => match lookup(s, key) {
            Some(value) => Answer::KVReadOK { in_reply_to: message_id, value, message_id: id },
            None => Answer::Error {
                in_reply_to: message_id,
                code: ReservedErrorCode::KeyDoesNotExist,
                text: "key: "@ + K::shown(key),
            },
        },
        Asked::KVWrite { message_id, .. } => Answer::KVWriteOK {
            in_reply_to: message_id,
            message_id: id,
        },
        Asked::KVCAS { key, from, message_id, .. } => match lookup(s, key) {
            Some(found) => if found == from {
                Answer::KVCASOK { in_reply_to: message_id, message_id: id }
            } else {
                Answer::Error {
                    in_reply_to: message_id,
                    code: ReservedErrorCode::PreconditionFailed,
                    text: "found existing value: "@ + V::shown(found) + " != "@ + V::shown(from),
                }
            },
            None => Answer::Error {
                in_reply_to: message_id,
                code: ReservedErrorCode::KeyDoesNotExist,
                text: "no such key: "@ + K::shown(key),
            },
        },
        Asked::Init { message_id, .. } => Answer::Error {
            in_reply_to: message_id,
            code: ReservedErrorCode::MalformedRequest,
            text: "unprocessable request"@,
        },
    }
}

/// Processes a request on a store, and gives the message to respond with. Only successes
/// use up a message ID.
pub fn process<'v, K: Datum, V: Datum>(
    message: Message<Request<K, V>>,
    this: NodeId,
    msg_id_gen: NodeMessageIdGenerator,
    ids: &mut CurrentMessageId,
    store: &'v mut Store<K, V>,
) -> (r: Message<Response<'v, V>>)
    ensures
        r.source@ == this@,
        // request source is destination for our reply
        r.destination@ == message.source@,
        r.body.deep_view() == answer::<K, V>(
            old(store).deep_view(),
            message.body.deep_view(),
            old(ids)@,
        ),
        final(store).deep_view() == store_after(
            old(store).deep_view(),
            message.body.deep_view(),
        ),
        final(ids)@ == (if r.body.deep_view() is Error {
            old(ids)@
        } else {
            id_after(old(ids)@)
        }),
{
    let mut msg_id_gen: NodeMessageIdGenerator = msg_id_gen;
    let destination: NodeId = message.source;
    let body: Response<'v, V> = match message.body {
        Request::KVRead { key, message_id } => {
            match store.read(&key) {
                Some(value) => {
                    let id = msg_id_gen.next(ids).unwrap();
                    Response::KVReadOK { in_reply_to: message_id, value, message_id: id }
                },
                None => {
                    let mut text: String = "key: ".to_owned();
                    text.append(key.show().as_str());
                    Response::Error {
                        in_reply_to: message_id,
                        code: ReservedErrorCode::KeyDoesNotExist,
                        text,
                    }
                },
            }
        },
        Request::KVWrite { key, value, message_id } => {
            store.write(key, value);
            let id = msg_id_gen.next(ids).unwrap();
            Response::KVWriteOK { in_reply_to: message_id, message_id: id }
        },
        Request::KVCAS { key, from, to, message_id } => {
            match store.compare_and_swap(&key, from, to) {
                Ok(_) => {
                    let id = msg_id_gen.next(ids).unwrap();
                    Response::KVCASOK { in_reply_to: message_id, message_id: id }
                },
                Err(CASError::NoSuchKey) => {
                    let mut text: String = "no such key: ".to_owned();
                    text.append(key.show().as_str());
                    Response::Error {
                        in_reply_to: message_id,
                        code: ReservedErrorCode::KeyDoesNotExist,
                        text,
                    }
                },
                Err(CASError::ValueMismatch { requested, found }) => {
                    let mut text: String = "found existing value: ".to_owned();
                    text.append(found.show().as_str());
                    text.append(" != ");
                    text.append(requested.show().as_str());
                    Response::Error {
                        in_reply_to: message_id,
                        code: ReservedErrorCode::PreconditionFailed,
                        text,
                    }
                },
            }
        },
        Request::Init { message_id, .. } => Response::Error {
            in_reply_to: message_id,
            code: ReservedErrorCode::MalformedRequest,
            text: "unprocessable request".to_owned(),
        },
    };
    Message { source: this, destination, body }
}

/// Takes the first message that a node gets, which has to tell it who it is. Gives that
/// ID, and the message to respond with.
pub fn handle_init<K, V>(message: Message<Request<K, V>>) -> (r: Option<
    (NodeId, Message<Response<'static, ()>>),
>)
    ensures
        match message.body {
            Request::Init { message_id, node_id, .. } => r matches Some((id, m)) && id@ == node_id@
                && m.source@ == node_id@ && m.destination@ == message.source@ && (m.body
                matches Response::InitOk { in_reply_to } && in_reply_to == message_id),
            _ => r is None,
        },
{
    match message.body {
        Request::Init { message_id, node_id, .. } => {
            let m = Message {
                source: node_id.clone(),
                destination: message.source,
                body: Response::InitOk { in_reply_to: message_id },
            };
            Some((node_id, m))
        },
        _ => None,
    }
}

/// A request is answered by what the store holds: a read with the value under the key, a write
/// always, a swap if it took place; and with an error if there is no such key, or another value
/// than expected. The answer names the request, and successes get the next message ID.
pub proof fn answers_tell_what_the_store_holds<K: Datum, V: Datum>(
    s: Holds<K::V, V::V>,
    asked: Asked<K::V, V::V>,
    id: u64,
)
    ensures
        match asked {
            Asked::KVRead { key, message_id: n } => match lookup(s, key) {
                Some(v) => answer::<K, V>(s, asked, id) matches Answer::KVReadOK {
                    in_reply_to,
                    value,
                    message_id,
                } && in_reply_to == n && value == v && message_id == id,
                None => answer::<K, V>(s, asked, id) matches Answer::Error { in_reply_to, code, .. }
                    && in_reply_to == n && code is KeyDoesNotExist,
            },
            Asked::KVWrite { message_id: n, .. } => answer::<K, V>(s, asked, id)
                matches Answer::KVWriteOK { in_reply_to, message_id } && in_reply_to == n
                && message_id == id,
            Asked::KVCAS { key, from, message_id: n, .. } => match lookup(s, key) {
                Some(v) => if v == from {
                    answer::<K, V>(s, asked, id) matches Answer::KVCASOK { in_reply_to, message_id }
                        && in_reply_to == n && message_id == id
                } else {
                    answer::<K, V>(s, asked, id) matches Answer::Error { in_reply_to, code, .. }
                        && in_reply_to == n && code is PreconditionFailed
                },
                None => answer::<K, V>(s, asked, id) matches Answer::Error { in_reply_to, code, .. }
                    && in_reply_to == n && code is KeyDoesNotExist,
            },
            Asked::Init { message_id: n, .. } => answer::<K, V>(s, asked, id)
                matches Answer::Error { in_reply_to, code, .. } && in_reply_to == n && code
                is MalformedRequest,
        },
{
}

/// What a request leaves behind: a write, the value under its key; a swap, the new value where it
/// found the expected one; anything else, what there was. Other keys are left alone.
pub proof fn requests_change_their_key_only<K, V>(s: Holds<K, V>, asked: Asked<K, V>, other: K)
    ensures
        match asked {
            Asked::KVWrite { key, value, .. } => lookup(store_after(s, asked), key) == Some(value)
                && (other != key ==> lookup(store_after(s, asked), other) == lookup(s, other)),
            Asked::KVCAS { key, from, to, .. } => if lookup(s, key) == Some(from) {
                lookup(store_after(s, asked), key) == Some(to) && (other != key ==> lookup(
                    store_after(s, asked),
                    other,
                ) == lookup(s, other))
            } else {
                store_after(s, asked) == s
            },
            _ => store_after(s, asked) == s,
        },
{
    match asked {
        Asked::KVWrite { key, value, .. } => {
            crate::assoc::lookup_after_put(s, key, value, key);
            crate::assoc::lookup_after_put(s, key, value, other);
        },
        Asked::KVCAS { key, to, .. } => {
            crate::assoc::lookup_after_put(s, key, to, key);
            crate::assoc::lookup_after_put(s, key, to, other);
        },
        _ => {},
    }
}

} // verus!
