//! Requests that a node forwarded to the leader, for clients that wait for the response.
use crate::raft::rpc::MessageID;
use crate::raft::{NodeID, MAX_INFLIGHT_PROXIES};
use vstd::prelude::*;

verus! {

/// Outstanding proxy requests, each under the ID that it was forwarded with, with the ID
/// that the client gave it, and the client.
#[derive(Debug)]
pub struct Proxies {
    /// In ascending order of IDs.
    entries: Vec<(MessageID, (MessageID, NodeID))>,
}

/// What [`Proxies`] are, mathematically.
pub type Pending = Map<u64, (u64, Seq<char>)>;

impl View for Proxies {
    type V = Pending;

    closed spec fn view(&self) -> Pending {
        Map::new(
            |id: u64| exists|i: int| self.is_at(i, id),
            |id: u64| self.at(choose|i: int| self.is_at(i, id)),
        )
    }
}

/// The lowest ID.
pub open spec fn is_lowest(p: Pending, id: u64) -> bool {
    p.contains_key(id) && forall|k: u64| #[trigger] p.contains_key(k) ==> id <= k
}

/// What is pending once there is room for one more: if there are too many, the oldest one is
/// given up.
pub open spec fn with_room(p: Pending) -> Pending {
    if p.len() >= MAX_INFLIGHT_PROXIES {
        p.remove(choose|id: u64| is_lowest(p, id))
    } else {
        p
    }
}

impl Proxies {
    spec fn is_at(&self, i: int, id: u64) -> bool {
        0 <= i < self.entries@.len() && self.entries@[i].0 == id
    }

    spec fn at(&self, i: int) -> (u64, Seq<char>) {
        (self.entries@[i].1.0, self.entries@[i].1.1@)
    }

    spec fn ids(&self) -> Seq<u64> {
        Seq::new(self.entries@.len(), |i: int| self.entries@[i].0)
    }

    #[verifier::type_invariant]
    spec fn ascending(&self) -> bool {
        forall|i: int, j: int|
            0 <= i < j < self.entries@.len() ==> self.entries@[i].0 < self.entries@[j].0
    }

    proof fn lemma_at(&self, i: int)
        requires
            self.ascending(),
            0 <= i < self.entries@.len(),
        ensures
            self@.contains_key(self.entries@[i].0),
            self@[self.entries@[i].0] == self.at(i),
    {
        let id = self.entries@[i].0;
        assert(self.is_at(i, id));
        let k = choose|k: int| self.is_at(k, id);
        assert(self.is_at(k, id));
        if k < i {
            assert(self.entries@[k].0 < self.entries@[i].0);
        } else if i < k {
            assert(self.entries@[i].0 < self.entries@[k].0);
        }
    }

    proof fn lemma_len(&self)
        requires
            self.ascending(),
        ensures
            self@.dom().finite(),
            self@.len() == self.entries@.len(),
    {
        let ids = self.ids();
        assert(ids.no_duplicates()) by {
            assert forall|i: int, j: int|
                0 <= i < ids.len() && 0 <= j < ids.len() && i != j implies ids[i] != ids[j] by {
                if i < j {
                    assert(self.entries@[i].0 < self.entries@[j].0);
                } else {
                    assert(self.entries@[j].0 < self.entries@[i].0);
                }
            }
        }
        ids.unique_seq_to_set();
        assert forall|id: u64| ids.to_set().contains(id) <==> self@.dom().contains(id) by {
            if ids.contains(id) {
                let i = choose|i: int| 0 <= i < ids.len() && ids[i] == id;
                assert(self.is_at(i, id));
            }
            if self@.dom().contains(id) {
                let i = choose|i: int| self.is_at(i, id);
                assert(ids[i] == id);
            }
        }
        assert(ids.to_set() =~= self@.dom());
    }

    /// Nothing pending.
    pub fn new() -> (p: Proxies)
        ensures
            p@ == Pending::empty(),
    {
        let p = Proxies { entries: Vec::new() };
        assert(p@ =~= Pending::empty());
        p
    }

    /// How many requests are pending.
    pub fn len(&self) -> (n: usize)
        ensures
            n == self@.len(),
            self@.dom().finite(),
    {
        proof {
            use_type_invariant(self);
            self.lemma_len();
        }
        self.entries.len()
    }

    /// Where an ID is, or belongs.
    fn find(&self, id: MessageID) -> (r: (usize, bool))
        ensures
            r.0 <= self.entries@.len(),
            r.1 <==> self.is_at(r.0 as int, id),
            r.1 <==> self@.contains_key(id),
            forall|k: int| 0 <= k < r.0 ==> self.entries@[k].0 < id,
            forall|k: int| r.0 <= k < self.entries@.len() ==> self.entries@[k].0 >= id,
    {
        proof {
            use_type_invariant(self);
        }
        let mut i: usize = 0;
        while i < self.entries.len() && self.entries[i].0 < id
            invariant
                i <= self.entries@.len(),
                forall|k: int| 0 <= k < i ==> self.entries@[k].0 < id,
            decreases self.entries@.len() - i,
        {
            i = i + 1;
        }
        let found: bool = i < self.entries.len() && self.entries[i].0 == id;
        proof {
            assert forall|k: int| i <= k < self.entries@.len() implies self.entries@[k].0 >= id by {
                if k > i {
                    assert(self.entries@[i as int].0 < self.entries@[k].0);
                }
            }
            if found {
                assert(self.is_at(i as int, id));
            } else if self@.contains_key(id) {
                let k = choose|k: int| self.is_at(k, id);
                assert(self.is_at(k, id));
                assert(k > i);
                assert(self.entries@[i as int].0 < self.entries@[k].0);
            }
        }
        (i, found)
    }

    /// Whether a request with an ID is pending.
    pub fn contains(&self, forward_id: MessageID) -> (b: bool)
        ensures
            b == self@.contains_key(forward_id),
    {
        self.find(forward_id).1
    }

    /// Adds a request under an ID that is not in use.
    pub fn insert(&mut self, forward_id: MessageID, original_id: MessageID, client: NodeID)
        requires
            !old(self)@.contains_key(forward_id),
        ensures
            final(self)@ == old(self)@.insert(forward_id, (original_id, client@)),
    {
        proof {
            use_type_invariant(&*self);
        }
        let ghost before = *self;
        let (i, _): (usize, bool) = self.find(forward_id);
        let mut entries: Vec<(MessageID, (MessageID, NodeID))> = Vec::new();
        std::mem::swap(&mut entries, &mut self.entries);
        entries.insert(i, (forward_id, (original_id, client)));
        proof {
            let p = Proxies { entries };
            assert(p.ascending());
            assert(p.is_at(i as int, forward_id));
            assert forall|id: u64| p@.contains_key(id) <==> before@.insert(
                forward_id,
                (original_id, client@),
            ).contains_key(id) by {
                if p@.contains_key(id) {
                    let k = choose|k: int| p.is_at(k, id);
                    assert(p.is_at(k, id));
                    if k < i {
                        assert(before.is_at(k, id));
                    } else if k > i {
                        assert(before.is_at(k - 1, id));
                    }
                }
                if before@.contains_key(id) {
                    let k = choose|k: int| before.is_at(k, id);
                    assert(before.is_at(k, id));
                    if k < i {
                        assert(p.is_at(k, id));
                    } else {
                        assert(p.is_at(k + 1, id));
                    }
                }
            }
            assert forall|id: u64| p@.contains_key(id) implies p@[id] == before@.insert(
                forward_id,
                (original_id, client@),
            )[id] by {
                let k = choose|k: int| p.is_at(k, id);
                assert(p.is_at(k, id));
                p.lemma_at(k);
                if k < i {
                    before.lemma_at(k);
                } else if k > i {
                    before.lemma_at(k - 1);
                }
            }
            assert(p@ =~= before@.insert(forward_id, (original_id, client@)));
        }
        self.entries = entries;
    }

    fn take(&mut self, i: usize) -> (r: (MessageID, (MessageID, NodeID)))
        requires
            i < old(self).entries@.len(),
        ensures
            r == old(self).entries@[i as int],
            old(self)@.contains_key(r.0),
            old(self)@[r.0] == (r.1.0, r.1.1@),
            final(self)@ == old(self)@.remove(r.0),
    {
        proof {
            use_type_invariant(&*self);
        }
        let ghost before = *self;
        let mut entries: Vec<(MessageID, (MessageID, NodeID))> = Vec::new();
        std::mem::swap(&mut entries, &mut self.entries);
        let r: (MessageID, (MessageID, NodeID)) = entries.remove(i);
        proof {
            let p = Proxies { entries };
            assert(p.ascending());
            before.lemma_at(i as int);
            assert forall|id: u64| p@.contains_key(id) <==> before@.remove(r.0).contains_key(id) by {
                if p@.contains_key(id) {
                    let k = choose|k: int| p.is_at(k, id);
                    assert(p.is_at(k, id));
                    let b = if k < i {
                        k
                    } else {
                        k + 1
                    };
                    assert(before.is_at(b, id));
                    if b < i {
                        assert(before.entries@[b].0 < before.entries@[i as int].0);
                    } else {
                        assert(before.entries@[i as int].0 < before.entries@[b].0);
                    }
                }
                if before@.contains_key(id) && id != r.0 {
                    let k = choose|k: int| before.is_at(k, id);
                    assert(before.is_at(k, id));
                    if k < i {
                        assert(p.is_at(k, id));
                    } else {
                        assert(p.is_at(k - 1, id));
                    }
                }
            }
            assert forall|id: u64| p@.contains_key(id) implies p@[id] == before@.remove(r.0)[id] by {
                let k = choose|k: int| p.is_at(k, id);
                assert(p.is_at(k, id));
                p.lemma_at(k);
                if k < i {
                    before.lemma_at(k);
                } else {
                    before.lemma_at(k + 1);
                }
            }
            assert(p@ =~= before@.remove(r.0));
        }
        self.entries = entries;
        r
    }

    /// Removes the request with an ID.
    pub fn remove(&mut self, forward_id: MessageID) -> (r: Option<(MessageID, NodeID)>)
        ensures
            final(self)@ == old(self)@.remove(forward_id),
            match r {
                Some(v) => old(self)@.contains_key(forward_id) && old(self)@[forward_id] == (
                    v.0,
                    v.1@,
                ),
                None => !old(self)@.contains_key(forward_id),
            },
    {
        let (i, found): (usize, bool) = self.find(forward_id);
        if found {
            let (_, v) = self.take(i);
            Some(v)
        } else {
            assert(self@.remove(forward_id) =~= self@);
            None
        }
    }

    /// Removes the request with the lowest ID.
    pub fn pop_first(&mut self) -> (r: Option<(MessageID, (MessageID, NodeID))>)
        ensures
            match r {
                Some((id, v)) => is_lowest(old(self)@, id) && old(self)@[id] == (v.0, v.1@)
                    && final(self)@ == old(self)@.remove(id),
                None => old(self)@ == Pending::empty() && final(self)@ == old(self)@,
            },
    {
        proof {
            use_type_invariant(&*self);
        }
        if self.entries.len() == 0 {
            assert(self@ =~= Pending::empty());
            return None;
        }
        let ghost before = *self;
        let r: (MessageID, (MessageID, NodeID)) = self.take(0);
        proof {
            assert forall|k: u64| #[trigger] before@.contains_key(k) implies r.0 <= k by {
                let i = choose|i: int| before.is_at(i, k);
                assert(before.is_at(i, k));
                if i > 0 {
                    assert(before.entries@[0].0 < before.entries@[i].0);
                }
            }
        }
        Some(r)
    }

    /// Makes room for one more request. IDs increase, so this drops the oldest dangling
    /// request; ~least likely to still have an interested client waiting.
    pub fn make_room(&mut self)
        ensures
            final(self)@ == with_room(old(self)@),
    {
        let ghost before = self@;
        if self.len() >= MAX_INFLIGHT_PROXIES {
            let dropped: Option<(MessageID, (MessageID, NodeID))> = self.pop_first();
            proof {
                assert(dropped is Some) by {
                    if dropped is None {
                        assert(before.dom() =~= Set::empty());
                    }
                }
                let id = dropped->Some_0.0;
                let lowest = choose|id: u64| is_lowest(before, id);
                assert(is_lowest(before, id));
                assert(is_lowest(before, lowest));
            }
        }
    }
}

} // verus!
