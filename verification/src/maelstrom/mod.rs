//! The protocol that the [Maelstrom](https://github.com/jepsen-io/maelstrom) workbench speaks.
pub mod process;
pub mod rpc;

use vstd::prelude::*;

verus! {

/// Node IDs are global and persistent across the lifetime of a node, cf.
/// <https://github.com/jepsen-io/maelstrom/blob/cb7f07239012d85d2c0595fd942ddb4613205905/doc/protocol.md#initialization>.
pub type NodeId = String;

/// Message IDs local to this node. Monotonically increasing. Reset on node reboot.
/// Construct via [`NodeMessageIdGenerator`].
#[derive(Debug)]
pub struct NodeMessageId(u64);

impl View for NodeMessageId {
    type V = u64;

    closed spec fn view(&self) -> u64 {
        self.0
    }
}

impl NodeMessageId {
    /// Read-only.
    pub fn get(&self) -> (id: u64)
        ensures
            id == self@,
    {
        self.0
    }
}

/// The current message Id on a node: the one that comes next.
///
/// There is one for as long as a node runs, and whoever hands out IDs draws on it.
#[derive(Debug)]
pub struct CurrentMessageId {
    current: u64,
}

impl View for CurrentMessageId {
    type V = u64;

    /// The ID that comes next.
    closed spec fn view(&self) -> u64 {
        self.current
    }
}

/// The ID behind `id`. The last one is followed by the first.
pub open spec fn id_after(id: u64) -> u64 {
    if id == u64::MAX {
        0
    } else {
        (id + 1) as u64
    }
}

impl CurrentMessageId {
    /// The first one, when a node boots.
    pub fn new() -> (c: CurrentMessageId)
        ensures
            c@ == 1,
    {
        CurrentMessageId { current: 1 }
    }
}

/// Hands out message IDs, one after the other. All generators of a node draw on the same
/// current message ID, so no two of them hand out the same.
#[derive(Debug)]
pub struct NodeMessageIdGenerator;

impl NodeMessageIdGenerator {
    /// The next ID.
    pub fn next(&mut self, ids: &mut CurrentMessageId) -> (r: Option<NodeMessageId>)
        ensures
            r matches Some(id) && id@ == old(ids)@,
            final(ids)@ == id_after(old(ids)@),
    {
        let id: u64 = ids.current;
        ids.current = if id == u64::MAX {
            0
        } else {
            id + 1
        };
        Some(NodeMessageId(id))
    }
}

/// The `n`-th ID from `first` on.
pub open spec fn nth_id(first: u64, n: nat) -> u64
    decreases n,
{
    if n == 0 {
        first
    } else {
        id_after(nth_id(first, (n - 1) as nat))
    }
}

proof fn lemma_nth_id(first: u64, n: nat)
    requires
        first + n <= u64::MAX,
    ensures
        nth_id(first, n) == first + n,
    decreases n,
{
    if n > 0 {
        lemma_nth_id(first, (n - 1) as nat);
    }
}

/// IDs increase, so no two are the same, until all there are have been handed out.
pub proof fn ids_increase(first: u64, a: nat, b: nat)
    requires
        a < b,
        first + b <= u64::MAX,
    ensures
        nth_id(first, a) < nth_id(first, b),
{
    lemma_nth_id(first, a);
    lemma_nth_id(first, b);
}

/// Two IDs are never followed by the same one, also where they start over.
pub proof fn ids_are_followed_by_their_own(a: u64, b: u64)
    requires
        a != b,
    ensures
        id_after(a) != id_after(b),
        id_after(a) != a,
{
}

} // verus!
