//! The rules of Raft, mathematically: what a node is, and what becomes of it on each event.
use crate::raft::log::{entries_before, entries_from, highest, last_term, term_at, Entry};
use crate::raft::machine::StateMachine;
use crate::raft::rpc::RaftMsg;
use crate::raft::{HEARTBEAT_INTERVAL, MIN_REPLICATION_INTERVAL};
use vstd::prelude::*;

verus! {

/// What the clock and the dice say at the time of an event.
#[derive(Debug, Clone, Copy)]
pub struct Tick {
    /// The time, in nanoseconds since some start.
    pub now: u64,
    /// For how long to wait, from now on, before stepping up as a candidate, in
    /// nanoseconds. Random, to break candidacy live-locks.
    pub extension: u64,
}

impl Tick {
    /// The time that the wait leads to can be told.
    pub open spec fn in_range(self) -> bool {
        self.now + self.extension <= u64::MAX
    }
}

/// The role of a node.
#[verifier::ext_equal]
pub enum Part {
    Follower { leader: Option<Seq<char>> },
    Candidate { votes: Set<Seq<char>> },
    Leader {
        next: Map<Seq<char>, u64>,
        matched: Map<Seq<char>, Option<u64>>,
        last_replication: Option<u64>,
    },
}

/// A node.
#[verifier::ext_equal]
pub struct Node<C> {
    pub term: u64,
    pub voted_for: Option<Seq<char>>,
    pub log: Seq<Entry<C>>,
    pub commit: Option<u64>,
    pub applied: Option<u64>,
    pub id: Seq<char>,
    pub peers: Seq<Seq<char>>,
    pub deadline: u64,
    pub part: Part,
}

/// Messages, each with the node that it is for.
pub type Mail<C> = Seq<(Seq<char>, RaftMsg<C>)>;

/// `a` comes before `b`, where nothing comes before anything.
pub open spec fn before(a: Option<u64>, b: Option<u64>) -> bool {
    match (a, b) {
        (None, Some(_)) => true,
        (Some(x), Some(y)) => x < y,
        _ => false,
    }
}

/// The lesser of two.
pub open spec fn least(a: Option<u64>, b: Option<u64>) -> Option<u64> {
    if before(b, a) {
        b
    } else {
        a
    }
}

/// The greater of two.
pub open spec fn greatest(a: Option<u64>, b: Option<u64>) -> Option<u64> {
    if before(a, b) {
        b
    } else {
        a
    }
}

/// How many entries lie up to an index.
pub open spec fn reach(index: Option<u64>) -> nat {
    match index {
        None => 0,
        Some(i) => i as nat,
    }
}

/// The number of nodes of a cluster that are more than half of it, where `peers` are all
/// but one.
pub open spec fn majority(peers: nat) -> nat {
    (peers + 1) / 2 + 1
}

impl<C> Node<C> {
    pub open spec fn is_leader(self) -> bool {
        self.part is Leader
    }

    /// What holds of a node at all times: it has peers and is none of them; what is
    /// committed is applied; it takes no one else's word for being the leader itself;
    /// whoever runs for a term, or leads it, voted for itself in it; a leader tracks its
    /// peers, all of them and no one else; and no index is zero.
    pub open spec fn valid(self) -> bool {
        &&& self.peers.len() > 0
        &&& !self.peers.contains(self.id)
        &&& self.applied == self.commit
        &&& self.commit != Some(0u64)
        &&& match self.part {
            Part::Follower { leader } => leader != Some(self.id),
            Part::Candidate { votes } => votes.finite() && votes.contains(self.id)
                && self.voted_for == Some(self.id),
            Part::Leader { next, matched, .. } => {
                &&& self.voted_for == Some(self.id)
                &&& next.dom() == self.peers.to_set()
                &&& matched.dom() == self.peers.to_set()
                &&& forall|p: Seq<char>| #[trigger] next.contains_key(p) ==> next[p] >= 1
                &&& forall|p: Seq<char>| #[trigger]
                    matched.contains_key(p) ==> matched[p] != Some(0u64)
            },
        }
    }

    /// The node as it boots, with what it kept across the reboot.
    pub open spec fn booted(
        id: Seq<char>,
        peers: Seq<Seq<char>>,
        term: u64,
        voted_for: Option<Seq<char>>,
        log: Seq<Entry<C>>,
        now: u64,
    ) -> Node<C> {
        Node {
            term,
            voted_for,
            log,
            commit: None,
            applied: None,
            id,
            peers,
            deadline: now,
            part: Part::Follower { leader: None },
        }
    }

    /// The node waits from now on, before it steps up as a candidate.
    pub open spec fn waiting(self, t: Tick) -> Node<C> {
        Node { deadline: (t.now + t.extension) as u64, ..self }
    }

    /// If the remote term is ahead, the node steps down.
    pub open spec fn seen_term(self, remote: u64, t: Tick) -> Node<C> {
        if remote > self.term {
            Node {
                term: remote,
                voted_for: None,
                part: Part::Follower { leader: None },
                ..self.waiting(t)
            }
        } else {
            self
        }
    }

    /// What the node sends to peers, to ask for their votes.
    pub open spec fn vote_requests(self) -> Mail<C> {
        Seq::new(
            self.peers.len(),
            |i: int|
                (
                    self.peers[i],
                    RaftMsg::RequestVote {
                        candidate_term: self.term,
                        last_log_index: highest(self.log),
                        last_log_term: last_term(self.log),
                    },
                ),
        )
    }

    /// The node as a candidate for the next term. It votes for itself.
    pub open spec fn candidate(self, t: Tick) -> Node<C> {
        Node {
            term: (self.term + 1) as u64,
            voted_for: Some(self.id),
            part: Part::Candidate { votes: Set::empty().insert(self.id) },
            ..self.waiting(t)
        }
    }

    /// Once the deadline has passed, a node begins an election, unless it leads.
    pub open spec fn deadline_seen(self, t: Tick) -> (Node<C>, Mail<C>) {
        if t.now <= self.deadline {
            (self, seq![])
        } else if self.is_leader() {
            (self.waiting(t), seq![])
        } else {
            (self.candidate(t), self.candidate(t).vote_requests())
        }
    }

    /// The candidate's log is at least as up-to-date as this node's.
    pub open spec fn up_to_date(self, index: Option<u64>, term: Option<u64>) -> bool {
        before(last_term(self.log), term) || (term == last_term(self.log) && !before(
            index,
            highest(self.log),
        ))
    }

    /// Whether the node votes for a candidate: only as a follower, for no candidate of the
    /// past, for one candidate per term, and for none whose log lacks entries.
    pub open spec fn grants(
        self,
        candidate: Seq<char>,
        term: u64,
        index: Option<u64>,
        log_term: Option<u64>,
    ) -> bool {
        &&& self.part is Follower
        &&& term >= self.term
        &&& self.voted_for matches Some(v) ==> v == candidate
        &&& self.up_to_date(index, log_term)
    }

    /// A candidate asks for this node's vote.
    pub open spec fn vote_asked(
        self,
        candidate: Seq<char>,
        term: u64,
        index: Option<u64>,
        log_term: Option<u64>,
        t: Tick,
    ) -> (Node<C>, RaftMsg<C>) {
        let granted = self.grants(candidate, term, index, log_term);
        let node = if granted {
            Node { voted_for: Some(candidate), ..self.waiting(t) }
        } else {
            self
        };
        (node, RaftMsg::RequestVoteResponse { term: self.term, vote_granted: granted })
    }

    /// The index just behind the last one in the log.
    pub open spec fn next_index(self) -> u64 {
        (self.log.len() + 1) as u64
    }

    /// The node as the leader of its term. Nothing is known yet of what its peers have.
    pub open spec fn leader(self) -> Node<C> {
        Node {
            part: Part::Leader {
                next: Map::new(|p: Seq<char>| self.peers.contains(p), |p: Seq<char>| self.next_index()),
                matched: Map::new(|p: Seq<char>| self.peers.contains(p), |p: Seq<char>| None),
                last_replication: None,
            },
            ..self
        }
    }

    /// A peer answers a request for its vote.
    pub open spec fn vote_answered(self, peer: Seq<char>, term: u64, granted: bool, t: Tick) -> (
        Node<C>,
        Mail<C>,
    ) {
        match self.part {
            Part::Candidate { votes } => if granted && term == self.term {
                let votes = votes.insert(peer);
                let node = Node { part: Part::Candidate { votes }, ..self };
                if votes.len() >= majority(self.peers.len()) {
                    node.leader().replicated(t.now)
                } else {
                    (node, seq![])
                }
            } else {
                (self, seq![])
            },
            _ => (self, seq![]),
        }
    }

    /// What a leader sends to a peer whose next entry is the one at `next`.
    pub open spec fn replication(self, next: u64) -> RaftMsg<C> {
        let prev = if next <= 1 {
            None
        } else {
            Some((next - 1) as u64)
        };
        RaftMsg::AppendEntries {
            term: self.term,
            commit_index: self.commit,
            prev_log_index: prev,
            prev_log_term: term_at(self.log, prev),
            entries: entries_from(self.log, next),
        }
    }

    /// What a leader sends to its peers from the `i`-th on: the entries that they lack,
    /// or a heartbeat where one is needed.
    pub open spec fn replications(self, next: Map<Seq<char>, u64>, heartbeat: bool, i: int) -> Mail<C>
        decreases self.peers.len() - i,
    {
        if i < 0 || i >= self.peers.len() {
            seq![]
        } else {
            let rest = self.replications(next, heartbeat, i + 1);
            let to = self.peers[i];
            if entries_from(self.log, next[to]).len() == 0 && !heartbeat {
                rest
            } else {
                seq![(to, self.replication(next[to]))] + rest
            }
        }
    }

    /// A leader replicates its log, but not too often.
    pub open spec fn replicated(self, now: u64) -> (Node<C>, Mail<C>) {
        match self.part {
            Part::Leader { next, matched, last_replication } => {
                let elapsed = match last_replication {
                    Some(last) => if now >= last {
                        Some(now - last)
                    } else {
                        Some(0int)
                    },
                    None => None,
                };
                if elapsed matches Some(e) && e < MIN_REPLICATION_INTERVAL {
                    (self, seq![])
                } else {
                    let heartbeat = match elapsed {
                        Some(e) => e > HEARTBEAT_INTERVAL,
                        None => true,
                    };
                    let mail = self.replications(next, heartbeat, 0);
                    let node = if mail.len() > 0 {
                        Node {
                            part: Part::Leader { next, matched, last_replication: Some(now) },
                            ..self
                        }
                    } else {
                        self
                    };
                    (node, mail)
                }
            },
            _ => (self, seq![]),
        }
    }

    /// A refusal to append entries.
    pub open spec fn refusal(self) -> RaftMsg<C> {
        RaftMsg::AppendEntriesResponse {
            current_term: self.term,
            index: highest(self.log),
            success: false,
        }
    }

    /// The node as a follower of a leader that it heard of just now.
    pub open spec fn following(self, leader: Seq<char>, t: Tick) -> Node<C> {
        Node { part: Part::Follower { leader: Some(leader) }, ..self.waiting(t) }
    }

    /// The log with entries behind the one at `prev`, in place of what was there.
    pub open spec fn spliced(self, prev: Option<u64>, entries: Seq<Entry<C>>) -> Seq<Entry<C>> {
        let from = match prev {
            None => 1u64,
            Some(i) => (i + 1) as u64,
        };
        entries_before(self.log, from) + entries
    }

    /// Whether the node takes entries from a leader: not from one of the past, and only as
    /// the very first ones, or behind an entry that both have.
    pub open spec fn takes(self, term: u64, prev: Option<u64>, prev_term: Option<u64>) -> bool {
        &&& term >= self.term
        &&& match prev {
            None => prev_term is None,
            Some(_) => term_at(self.log, prev) is Some && term_at(self.log, prev) == prev_term,
        }
    }

    /// A leader sends entries to append. The log is as the leader's behind the entry that
    /// both have; what the leader committed is committed, as far as this log goes, and
    /// applied.
    pub open spec fn entries_sent(
        self,
        peer: Seq<char>,
        term: u64,
        commit: Option<u64>,
        prev: Option<u64>,
        prev_term: Option<u64>,
        entries: Seq<Entry<C>>,
        t: Tick,
    ) -> (Node<C>, RaftMsg<C>) {
        if term < self.term {
            (self, self.refusal())
        } else if !self.takes(term, prev, prev_term) {
            (self.following(peer, t), self.refusal())
        } else {
            let log = self.spliced(prev, entries);
            let known = if before(self.commit, commit) {
                least(commit, highest(log))
            } else {
                self.commit
            };
            (
                Node {
                    log,
                    commit: known,
                    applied: if before(self.commit, commit) {
                        known
                    } else {
                        self.applied
                    },
                    ..self.following(peer, t)
                },
                RaftMsg::AppendEntriesResponse {
                    current_term: self.term,
                    index: highest(log),
                    success: true,
                },
            )
        }
    }

    /// What a leader sends fits this node: the node does not lead the same term itself, and
    /// the leader does not take back what it told to be committed. Of a cluster that keeps
    /// to the rules, every leader keeps to that.
    pub open spec fn can_take(
        self,
        term: u64,
        commit: Option<u64>,
        prev: Option<u64>,
        prev_term: Option<u64>,
        entries: Seq<Entry<C>>,
    ) -> bool {
        &&& term <= self.term
        &&& term == self.term ==> !self.is_leader()
        &&& commit != Some(0u64)
        &&& self.takes(term, prev, prev_term) ==> {
            &&& prev != Some(u64::MAX)
            &&& self.spliced(prev, entries).len() <= u64::MAX
            &&& before(self.commit, commit) ==> !before(
                least(commit, highest(self.spliced(prev, entries))),
                self.applied,
            )
        }
    }

    /// A peer answers a request to append entries.
    pub open spec fn entries_answered(
        self,
        peer: Seq<char>,
        success: bool,
        index: Option<u64>,
        t: Tick,
    ) -> (Node<C>, Mail<C>) {
        match self.part {
            Part::Leader { next, matched, last_replication } => if !next.contains_key(peer) {
                (self, seq![])
            } else if !success {
                let lower = if next[peer] <= 1 {
                    1u64
                } else {
                    (next[peer] - 1) as u64
                };
                Node {
                    part: Part::Leader { next: next.insert(peer, lower), matched, last_replication },
                    ..self
                }.replicated(t.now)
            } else {
                match index {
                    // Valid when bootstrapping from empty and sending an empty heartbeat.
                    None => (self, seq![]),
                    Some(i) => (
                        Node {
                            part: Part::Leader {
                                next: next.insert(peer, (i + 1) as u64),
                                matched: matched.insert(peer, Some(i)),
                                last_replication,
                            },
                            ..self
                        }.committed(),
                        seq![],
                    ),
                }
            },
            _ => (self, seq![]),
        }
    }

    /// A leader commits what it knows to be replicated widely enough: up to the lower
    /// median of what its peers have, if that is an entry of its own term. A peer of which
    /// nothing is known yet has nothing.
    pub open spec fn committed(self) -> Node<C> {
        match self.part {
            Part::Leader { matched, .. } => {
                let n = median_match(matched);
                if n >= 1 && term_at(self.log, Some(n)) == Some(self.term) {
                    let commit = greatest(self.commit, Some(n));
                    Node { commit, applied: commit, ..self }
                } else {
                    self
                }
            },
            _ => self,
        }
    }

    /// A message from a peer arrives. Whoever is behind catches up first.
    pub open spec fn received(self, peer: Seq<char>, msg: RaftMsg<C>, t: Tick) -> (Node<C>, Mail<C>) {
        let node = self.seen_term(msg.term(), t);
        match msg {
            RaftMsg::RequestVote { candidate_term, last_log_index, last_log_term } => {
                let (after, answer) = node.vote_asked(
                    peer,
                    candidate_term,
                    last_log_index,
                    last_log_term,
                    t,
                );
                (after, seq![(peer, answer)])
            },
            RaftMsg::RequestVoteResponse { term, vote_granted } => node.vote_answered(
                peer,
                term,
                vote_granted,
                t,
            ),
            RaftMsg::AppendEntries { term, commit_index, prev_log_index, prev_log_term, entries } => {
                let (after, answer) = node.entries_sent(
                    peer,
                    term,
                    commit_index,
                    prev_log_index,
                    prev_log_term,
                    entries,
                    t,
                );
                (after, seq![(peer, answer)])
            },
            RaftMsg::AppendEntriesResponse { index, success, .. } => node.entries_answered(
                peer,
                success,
                index,
                t,
            ),
        }
    }

    /// Whether a message makes sense: it is no request of this node to itself, and its
    /// numbers are within the bounds that logs have.
    pub open spec fn acceptable(self, peer: Seq<char>, msg: RaftMsg<C>) -> bool {
        match msg {
            RaftMsg::RequestVote { .. } => peer != self.id,
            RaftMsg::RequestVoteResponse { .. } => self.log.len() < u64::MAX,
            RaftMsg::AppendEntries { term, commit_index, prev_log_index, prev_log_term, entries } => {
                &&& peer != self.id
                &&& self.seen_term(term, arbitrary()).can_take(
                    term,
                    commit_index,
                    prev_log_index,
                    prev_log_term,
                    entries,
                )
            },
            RaftMsg::AppendEntriesResponse { index, success, .. } => success ==> index != Some(
                u64::MAX,
            ) && index != Some(0u64),
        }
    }

    /// A command enters the log.
    pub open spec fn appended(self, cmd: C) -> Node<C> {
        Node { log: self.log.push(Entry { cmd, term: self.term }), ..self }
    }
}

/// The peers that have less than the entry at `n`.
pub open spec fn lacking(matched: Map<Seq<char>, Option<u64>>, n: u64) -> Set<Seq<char>> {
    matched.dom().filter(|p: Seq<char>| reach(matched[p]) < n)
}

/// The peers that have no more than the entry at `n`.
pub open spec fn not_beyond(matched: Map<Seq<char>, Option<u64>>, n: u64) -> Set<Seq<char>> {
    matched.dom().filter(|p: Seq<char>| reach(matched[p]) <= n)
}

/// `n` is the median of what peers have, the lower one of two: it is what one of them has,
/// and in the order of what they have, that one stands in the middle.
pub open spec fn is_median_match(matched: Map<Seq<char>, Option<u64>>, n: u64) -> bool {
    let middle = (matched.len() - 1) / 2;
    &&& exists|p: Seq<char>| #[trigger] matched.contains_key(p) && reach(matched[p]) == n
    &&& lacking(matched, n).len() <= middle < not_beyond(matched, n).len()
}

/// The median of what peers have.
pub open spec fn median_match(matched: Map<Seq<char>, Option<u64>>) -> u64 {
    choose|n: u64| is_median_match(matched, n)
}

/// What becomes of a machine, and what it gives, as the entries of a log are applied to it
/// from the `from`-th on to the `to`-th.
pub open spec fn applied_all<S: StateMachine>(
    m: S::V,
    log: Seq<Entry<<S::Command as DeepView>::V>>,
    from: nat,
    to: nat,
) -> (S::V, Seq<<S::Output as DeepView>::V>)
    decreases to - from,
{
    if from >= to {
        (m, seq![])
    } else {
        let (m1, out) = S::applied(m, log[from as int].cmd);
        let (m2, rest) = applied_all::<S>(m1, log, from + 1, to);
        (
            m2,
            match out {
                Some(o) => seq![o] + rest,
                None => rest,
            },
        )
    }
}

/// Applying one entry more.
pub proof fn lemma_applied_one_more<S: StateMachine>(
    m: S::V,
    log: Seq<Entry<<S::Command as DeepView>::V>>,
    from: nat,
    to: nat,
)
    requires
        from <= to,
    ensures
        ({
            let (m1, out) = applied_all::<S>(m, log, from, to);
            let (m2, last) = S::applied(m1, log[to as int].cmd);
            applied_all::<S>(m, log, from, to + 1) == (
                m2,
                match last {
                    Some(o) => out.push(o),
                    None => out,
                },
            )
        }),
    decreases to - from,
{
    let (m1, out) = applied_all::<S>(m, log, from, to);
    let (m2, last) = S::applied(m1, log[to as int].cmd);
    if from == to {
        reveal_with_fuel(applied_all, 2);
        if let Some(o) = last {
            assert(seq![o] + Seq::<<S::Output as DeepView>::V>::empty() =~= out.push(o));
        }
    } else {
        let (n1, first) = S::applied(m, log[from as int].cmd);
        lemma_applied_one_more::<S>(n1, log, from + 1, to);
        let (n2, rest) = applied_all::<S>(n1, log, from + 1, to);
        if let Some(f) = first {
            if let Some(o) = last {
                assert(seq![f] + rest.push(o) =~= (seq![f] + rest).push(o));
            }
        }
    }
}

} // verus!
