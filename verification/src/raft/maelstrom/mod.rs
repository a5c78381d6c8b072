//! Raft nodes in the [Maelstrom](https://github.com/jepsen-io/maelstrom) workbench.

pub mod infra;
pub mod rpc;

use crate::maelstrom::id_after;
use crate::raft::rpc::MessageID;
use vstd::prelude::*;

verus! {

/// Message IDs local to this node. **Unique**. Monotonically increasing. Reset on node
/// reboot. Construct via [`NodeMessageIDGenerator`].
#[derive(Debug)]
pub struct NodeMessageID(MessageID);

impl View for NodeMessageID {
    type V = u64;

    closed spec fn view(&self) -> u64 {
        self.0
    }
}

impl NodeMessageID {
    /// Read-only.
    pub fn get(&self) -> (id: MessageID)
        ensures
            id == self@,
    {
        self.0
    }
}

/// The current message ID on a node: the one that comes next.
///
/// There is one for as long as a node runs, and whoever hands out IDs draws on it.
#[derive(Debug)]
pub struct CurrentMessageID {
    current: MessageID,
}

impl View for CurrentMessageID {
    type V = u64;

    /// The ID that comes next.
    closed spec fn view(&self) -> u64 {
        self.current
    }
}

impl CurrentMessageID {
    /// The first one, when a node boots.
    pub fn new() -> (c: CurrentMessageID)
        ensures
            c@ == 1,
    {
        CurrentMessageID { current: 1 }
    }
}

/// Hands out message IDs, one after the other. All generators of a node draw on the same
/// current message ID, so no two of them hand out the same. See [`crate::maelstrom::ids_increase`].
#[derive(Debug)]
pub struct NodeMessageIDGenerator;

impl NodeMessageIDGenerator {
    /// The next ID.
    pub fn next(&mut self, ids: &mut CurrentMessageID) -> (r: Option<NodeMessageID>)
        ensures
            r matches Some(id) && id@ == old(ids)@,
            final(ids)@ == id_after(old(ids)@),
    {
        let id: MessageID = ids.current;
        ids.current = if id == u64::MAX {
            0
        } else {
            id + 1
        };
        Some(NodeMessageID(id))
    }
}

} // verus!
