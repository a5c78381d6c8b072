//! Lines in, lines out.
use crate::json::print::text;
use crate::json::serde::{Deserialize, Serialize, SerializeError};
use crate::json::wire::{read_as, read_document, write_document, ReadError, Unread};
use crate::maelstrom::rpc::{letter_json, Letter};
use crate::raft::maelstrom::rpc::{init_ok_json, InitRequest, InitResponse, MessageEnvelope};
use crate::raft::rpc::{ClientMessage, Message, RaftMessage};
use crate::raft::NodeID;
use vstd::prelude::*;
use vstd::string::StringExecFns;

verus! {

/// Reads a line: parses to JSON, then deserializes into the provided type.
pub fn read<M: Deserialize>(line: &[u8]) -> (r: Result<M, ReadError>)
    ensures
        match r {
            Ok(m) => read_as::<M>(line@) == Ok::<M::V, Unread>(m.deep_view()),
            Err(e) => read_as::<M>(line@) == Err::<M::V, Unread>(e@),
        },
{
    read_document(line)
}

/// The line to respond with.
pub fn send<B: Serialize>(msg: &MessageEnvelope<B>) -> (r: Result<String, SerializeError>)
    requires
        // routing bug: sending to self
        msg.source@ != msg.destination@,
    ensures
        r matches Ok(line) && line@ == text(msg.json()) + seq!['\n'],
{
    match write_document(msg) {
        Ok(s) => {
            let mut line: String = s;
            line.push('\n');
            assert(line@ =~= text(msg.json()) + seq!['\n']);
            Ok(line)
        },
        Err(e) => Err(e),
    }
}

/// Who a node is, who its cluster is, and the response to whoever said so.
pub struct Initialized {
    pub node_id: NodeID,
    pub node_ids: Vec<NodeID>,
    pub response: MessageEnvelope<InitResponse>,
}

/// Reads the line that tells a node who it is.
pub fn read_and_handle_init(line: &[u8]) -> (r: Result<Initialized, ReadError>)
    ensures
        match r {
            Ok(i) => {
                &&& read_as::<MessageEnvelope<InitRequest>>(line@) is Ok
                &&& ({
                    let got = read_as::<MessageEnvelope<InitRequest>>(line@)->Ok_0;
                    &&& i.node_id@ == got.body.node_id
                    &&& i.node_ids.deep_view() == got.body.node_ids
                    &&& i.response.json() == letter_json(
                        got.body.node_id,
                        got.source,
                        init_ok_json(got.body.message_id),
                    )
                    &&& i.response.source@ == got.body.node_id
                    &&& i.response.destination@ == got.source
                    &&& i.response.body.in_reply_to == got.body.message_id
                })
            },
            Err(e) => read_as::<MessageEnvelope<InitRequest>>(line@) == Err::<
                Letter<crate::raft::maelstrom::rpc::Init>,
                Unread,
            >(e@),
        },
{
    match read::<MessageEnvelope<InitRequest>>(line) {
        Ok(m) => {
            let response = MessageEnvelope {
                source: m.body.node_id.clone(),
                destination: m.source,
                body: InitResponse { in_reply_to: m.body.message_id },
            };
            Ok(Initialized { node_id: m.body.node_id, node_ids: m.body.node_ids, response })
        },
        Err(e) => Err(e),
    }
}

/// Where a message goes, with who sent it.
pub enum Routed<K, V, Cmd> {
    Client(NodeID, ClientMessage<K, V>),
    Raft(NodeID, RaftMessage<Cmd>),
}

/// Tells messages of clients and of peers apart.
pub fn route_incoming<K, V, Cmd>(msg: MessageEnvelope<Message<K, V, Cmd>>) -> (r: Routed<K, V, Cmd>)
    ensures
        r == match msg.body {
            Message::Client(m) => Routed::Client(msg.source, m),
            Message::Raft(m) => Routed::Raft(msg.source, m),
        },
{
    match msg.body {
        Message::Client(m) => Routed::Client(msg.source, m),
        Message::Raft(m) => Routed::Raft(msg.source, m),
    }
}

/// The peers of a node: the cluster without the node itself.
pub open spec fn others(ids: Seq<Seq<char>>, this: Seq<char>) -> Seq<Seq<char>>
    decreases ids.len(),
{
    if ids.len() == 0 {
        seq![]
    } else if ids.last() == this {
        others(ids.drop_last(), this)
    } else {
        others(ids.drop_last(), this).push(ids.last())
    }
}

/// The peers of a node: the cluster without the node itself.
pub fn peers_of(node_ids: &Vec<NodeID>, this: &NodeID) -> (r: Vec<NodeID>)
    ensures
        r.deep_view() == others(node_ids.deep_view(), this@),
        !r.deep_view().contains(this@),
{
    let ghost all = node_ids.deep_view();
    let mut r: Vec<NodeID> = Vec::new();
    let mut i: usize = 0;
    assert(r.deep_view() =~= others(all.take(0), this@));
    while i < node_ids.len()
        invariant
            i <= node_ids@.len(),
            all == node_ids.deep_view(),
            r.deep_view() == others(all.take(i as int), this@),
            !r.deep_view().contains(this@),
        decreases node_ids@.len() - i,
    {
        let ghost before = r.deep_view();
        proof {
            assert(all.take(i + 1).drop_last() =~= all.take(i as int));
            assert(all.take(i + 1).last() == node_ids@[i as int]@);
        }
        if !crate::text::str_eq(node_ids[i].as_str(), this.as_str()) {
            let id: NodeID = node_ids[i].clone();
            r.push(id);
            assert(r.deep_view() =~= before.push(id@));
        }
        i = i + 1;
    }
    assert(all.take(i as int) =~= all);
    r
}

/// The peers of a node are all of the cluster but the node itself, in the same order.
pub proof fn peers_are_all_others(ids: Seq<Seq<char>>, this: Seq<char>)
    ensures
        others(ids, this) == ids.filter(|id: Seq<char>| id != this),
    decreases ids.len(),
{
    reveal(Seq::filter);
    if ids.len() > 0 {
        peers_are_all_others(ids.drop_last(), this);
    }
    assert(others(ids, this) =~= ids.filter(|id: Seq<char>| id != this));
}

} // verus!
