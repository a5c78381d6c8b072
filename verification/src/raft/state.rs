//! The state of a node, and what it does on each event.
//!
//! Note this module has no concept of client requests and state machine implementation
//! details, such as key-value store requests.
use crate::datum::Duplicate;
use crate::nodes::{NodeMap, NodeSet};
use crate::raft::log::{min_log_index, Log, LogEntry, LogIndex, Term};
use crate::raft::machine::StateMachine;
use crate::raft::median::lower_median;
use crate::raft::model::{Node, Part, Tick};
use crate::raft::persistence::{Kept, Persistent};
use crate::raft::rpc::RaftMessage;
use crate::raft::{NodeID, HEARTBEAT_INTERVAL, MIN_REPLICATION_INTERVAL};
use crate::text::str_eq;
use vstd::prelude::*;

verus! {

/// Messages, each with the node that it is for.
pub type Outgoing<Cmd> = Vec<(NodeID, RaftMessage<Cmd>)>;

/// Volatile, i.e. non-persistent node state. This state will be built up from
/// scratch on reboot.
#[derive(Debug)]
struct Volatile {
    /// Commit index in the log.
    commit_index: Option<LogIndex>,
    /// Log index of the last applied command.
    last_applied: Option<LogIndex>,
    /// This node's own ID.
    id: NodeID,
    /// IDs of all other nodes in the cluster.
    node_ids: Vec<NodeID>,
    /// Deadline at which we will step up as a candidate for a new term. Continuously
    /// looming, but pushed forward on events indicating we should wait before stepping
    /// up: for example, when we receive messages from a recognized leader.
    election_deadline: u64,
}

impl Volatile {
    fn new(id: NodeID, node_ids: Vec<NodeID>, now: u64) -> (v: Self)
        requires
            node_ids@.len() > 0,
        ensures
            v == (Volatile {
                commit_index: None,
                last_applied: None,
                id,
                node_ids,
                election_deadline: now,
            }),
    {
        Volatile { commit_index: None, last_applied: None, id, node_ids, election_deadline: now }
    }

    /// Extends election deadline.
    fn extend_election_deadline(&mut self, t: Tick)
        requires
            t.in_range(),
        ensures
            *final(self) == (Volatile {
                election_deadline: (t.now + t.extension) as u64,
                ..*old(self)
            }),
    {
        self.election_deadline = t.now + t.extension;
    }
}

/// The role of a node.
#[derive(Debug)]
enum Role {
    Follower {
        /// Who we _believe_ the current leader is -- this can never be conclusive and
        /// can only ever be used in e.g. performance improvements (i.e. nothing
        /// critical to correctness).
        leader: Option<NodeID>,
    },
    Candidate {
        /// The votes for us, for this term's candidacy.
        votes: NodeSet,
    },
    Leader {
        /// Node IDs mapped to the next log index to replicate to them.
        ///
        /// Does not include the leader node itself (we do not send logs to ourselves).
        next_indexes: NodeMap<LogIndex>,
        /// Node IDs mapped to the highest log entry known to be replicated to that
        /// node.
        ///
        /// Does not include the leader node itself.
        match_indexes: NodeMap<Option<LogIndex>>,
        /// Time of last replication to *any* peer.
        last_replication: Option<u64>,
    },
}

impl Role {
    spec fn part(&self) -> Part {
        match *self {
            Role::Follower { leader } => Part::Follower { leader: leader.deep_view() },
            Role::Candidate { votes } => Part::Candidate { votes: votes@ },
            Role::Leader { next_indexes, match_indexes, last_replication } => Part::Leader {
                next: next_indexes@.map_values(|i: LogIndex| i@),
                matched: match_indexes@.map_values(|i: Option<LogIndex>| i.deep_view()),
                last_replication,
            },
        }
    }
}

/// The entire state of this Raft node.
///
/// Its responsibilities are state transitions and log handling in response to Raft
/// messages.
///
/// It is only aware of some generic state machine, whose commands it applies, without
/// knowing which those are specifically. Commands are handed back out to the injected
/// state machine, which is responsible for actual application. This allows this core
/// Raft state to focus on pure Raft domain logic.
pub struct State<S: StateMachine> {
    /// Persistent state, survives reboots.
    ///
    /// Common to all roles.
    p: Persistent<S::Command>,
    /// Volatile state, recreated on reboot.
    ///
    /// Common to all roles.
    v: Volatile,
    /// Current role, containing all role-specific state.
    r: Role,
}

impl<S: StateMachine> View for State<S> {
    type V = Node<<S::Command as DeepView>::V>;

    closed spec fn view(&self) -> Node<<S::Command as DeepView>::V> {
        Node {
            term: self.p.current_term.0,
            voted_for: self.p.voted_for.deep_view(),
            log: self.p.log.deep_view(),
            commit: self.v.commit_index.deep_view(),
            applied: self.v.last_applied.deep_view(),
            id: self.v.id@,
            peers: self.v.node_ids.deep_view(),
            deadline: self.v.election_deadline,
            part: self.r.part(),
        }
    }
}

/// Indexes are never zero.
fn is_index(i: Option<LogIndex>) -> (b: bool)
    ensures
        b,
        i.deep_view() != Some(0u64),
{
    match i {
        Some(i) => i.get() >= 1,
        None => true,
    }
}

/// Whether one index comes before another, where none comes before any.
fn index_before(a: Option<LogIndex>, b: Option<LogIndex>) -> (r: bool)
    ensures
        r == crate::raft::model::before(a.deep_view(), b.deep_view()),
{
    match (a, b) {
        (None, Some(_)) => true,
        (Some(x), Some(y)) => x.get() < y.get(),
        _ => false,
    }
}

/// Whether one term comes before another, where none comes before any.
fn term_before(a: Option<Term>, b: Option<Term>) -> (r: bool)
    ensures
        r == crate::raft::model::before(a.deep_view(), b.deep_view()),
{
    match (a, b) {
        (None, Some(_)) => true,
        (Some(x), Some(y)) => x.0 < y.0,
        _ => false,
    }
}

/// Basic implementations.
impl<S: StateMachine> State<S> {
    pub fn new(id: NodeID, node_ids: Vec<NodeID>, p: Persistent<S::Command>, now: u64) -> (s: Self)
        requires
            node_ids@.len() > 0,
            !node_ids.deep_view().contains(id@),
        ensures
            s@ == Node::booted(
                id@,
                node_ids.deep_view(),
                p.deep_view().current_term,
                p.deep_view().voted_for,
                p.deep_view().log,
                now,
            ),
            s@.valid(),
    {
        State { p, v: Volatile::new(id, node_ids, now), r: Role::Follower { leader: None } }
    }

    /// Whether this node believes to lead.
    pub fn is_leader(&self) -> (b: bool)
        ensures
            b == self@.is_leader(),
    {
        match &self.r {
            Role::Leader { .. } => true,
            _ => false,
        }
    }

    /// Who this node believes to lead, if it is someone else.
    pub fn current_leader(&self) -> (r: Option<NodeID>)
        ensures
            r.deep_view() == match self@.part {
                Part::Follower { leader } => leader,
                _ => None,
            },
    {
        match &self.r {
            Role::Follower { leader } => leader.duplicate(),
            _ => None,
        }
    }

    /// The current term.
    pub fn term(&self) -> (t: Term)
        ensures
            t.0 == self@.term,
    {
        self.p.current_term
    }
}

/// Implementations for transitions, see Figure 4 of <https://raft.github.io/raft.pdf>.
impl<S: StateMachine> State<S> {
    /// If the remote term is ahead, step down as we're behind.
    ///
    /// Use to fulfill:
    ///
    /// > If RPC request or response contains term T > currentTerm: set currentTerm = T,
    /// > convert to follower (§5.1)
    ///
    /// Note this applies to _any_ RPC request.
    pub fn maybe_step_down(&mut self, remote: Term, t: Tick)
        requires
            old(self)@.valid(),
            t.in_range(),
        ensures
            final(self)@ == old(self)@.seen_term(remote.0, t),
            final(self)@.valid(),
    {
        if remote.0 > self.p.current_term.0 {
            self.p.current_term.set(remote);
            self.p.voted_for = None;  // In this new term, not voted for anyone yet
            self.become_follower(t);
        }
    }

    /// Begin a new election if the election deadline has passed.
    ///
    /// > If a follower receives no communication over a period of time called the
    /// > election timeout, then it assumes there is no viable leader and begins an
    /// > election to choose a new leader.
    pub fn maybe_begin_election(&mut self, t: Tick) -> (out: Outgoing<S::Command>)
        requires
            old(self)@.valid(),
            t.in_range(),
            t.now > old(self)@.deadline && !old(self)@.is_leader() ==> old(self)@.term < u64::MAX,
        ensures
            (final(self)@, out.deep_view()) == old(self)@.deadline_seen(t),
            final(self)@.valid(),
    {
        if !self.election_timeout_passed(t.now) {
            let out: Outgoing<S::Command> = Vec::new();
            assert(out.deep_view() =~= seq![]);
            return out;
        }
        if self.is_leader() {
            self.v.extend_election_deadline(t);
            let out: Outgoing<S::Command> = Vec::new();
            assert(out.deep_view() =~= seq![]);
            out
        } else {
            self.become_candidate(t)
        }
    }

    fn election_timeout_passed(&self, now: u64) -> (b: bool)
        ensures
            b == (now > self@.deadline),
    {
        now > self.v.election_deadline
    }

    /// Become a candidate and start an election.
    fn become_candidate(&mut self, t: Tick) -> (out: Outgoing<S::Command>)
        requires
            old(self)@.valid(),
            !old(self)@.is_leader(),
            t.in_range(),
            t.now > old(self)@.deadline,
            old(self)@.term < u64::MAX,
        ensures
            final(self)@ == old(self)@.candidate(t),
            out.deep_view() == old(self)@.candidate(t).vote_requests(),
            final(self)@.valid(),
    {
        let ghost before = self@;
        // Vote for ourselves. We're selfish like that.
        let this: NodeID = self.v.id.duplicate();
        let votes: NodeSet = NodeSet::of(this.duplicate());
        self.p.voted_for = Some(this);

        // Every new election is a new term.
        self.p.current_term.step();

        // Give time for election to proceed. Otherwise, will become candidate again
        // right away (ending this term prematurely).
        self.v.extend_election_deadline(t);

        self.r = Role::Candidate { votes };
        assert(self@ == before.candidate(t));
        self.request_votes()
    }

    /// Become a follower of no one yet.
    fn become_follower(&mut self, t: Tick)
        requires
            t.in_range(),
        ensures
            final(self)@ == (Node {
                part: Part::Follower { leader: None },
                ..old(self)@.waiting(t)
            }),
    {
        // Allow a new candidate or leader to emerge before trying again for candidacy
        // ourselves right away.
        self.v.extend_election_deadline(t);
        self.r = Role::Follower { leader: None };
    }

    /// Request votes from *all* other nodes.
    fn request_votes(&self) -> (out: Outgoing<S::Command>)
        ensures
            out.deep_view() == self@.vote_requests(),
    {
        let mut out: Outgoing<S::Command> = Vec::new();
        let mut i: usize = 0;
        while i < self.v.node_ids.len()
            invariant
                i <= self.v.node_ids@.len(),
                out.deep_view() == self@.vote_requests().take(i as int),
            decreases self.v.node_ids@.len() - i,
        {
            let ghost before = out.deep_view();
            let to: NodeID = self.v.node_ids[i].duplicate();
            let m = RaftMessage::RequestVote {
                candidate_term: self.p.current_term,
                last_log_index: self.p.log.highest_index(),
                last_log_term: self.p.log.last_term(),
            };
            let pair = (to, m);
            let ghost shown = pair.deep_view();
            out.push(pair);
            assert(out.deep_view() =~= before.push(shown));
            assert(self.v.node_ids.deep_view()[i as int] == self.v.node_ids@[i as int].deep_view());
            assert(shown == self@.vote_requests()[i as int]);
            assert(out.deep_view() =~= self@.vote_requests().take(i + 1));
            i = i + 1;
        }
        assert(self@.vote_requests().take(i as int) =~= self@.vote_requests());
        out
    }
}

/// Leadership.
impl<S: StateMachine> State<S> {
    /// Become a leader, initiating necessary state.
    ///
    /// > When a leader first comes to power, it initializes all nextIndex values to the
    /// > index just after the last one in its log
    fn become_leader(&mut self, now: u64) -> (out: Outgoing<S::Command>)
        requires
            old(self)@.valid(),
            old(self)@.part is Candidate,
            old(self)@.log.len() < u64::MAX,
        ensures
            (final(self)@, out.deep_view()) == old(self)@.leader().replicated(now),
            final(self)@.valid(),
    {
        let ghost before = self@;
        let next: LogIndex = match self.p.log.highest_index() {
            None => min_log_index(),
            Some(hi) => hi.next(),
        };
        assert(next@ == self@.next_index());
        let mut next_indexes: NodeMap<LogIndex> = NodeMap::new();
        let mut match_indexes: NodeMap<Option<LogIndex>> = NodeMap::new();
        let ghost peers = self@.peers;
        let mut i: usize = 0;
        while i < self.v.node_ids.len()
            invariant
                i <= self.v.node_ids@.len(),
                peers == self.v.node_ids.deep_view(),
                forall|p: Seq<char>|
                    next_indexes@.contains_key(p) <==> peers.take(i as int).contains(p),
                forall|p: Seq<char>| #[trigger]
                    next_indexes@.contains_key(p) ==> next_indexes@[p] == next,
                forall|p: Seq<char>|
                    match_indexes@.contains_key(p) <==> peers.take(i as int).contains(p),
                forall|p: Seq<char>| #[trigger]
                    match_indexes@.contains_key(p) ==> match_indexes@[p] is None,
            decreases self.v.node_ids@.len() - i,
        {
            let id = &self.v.node_ids[i];
            let ghost (n0, m0) = (next_indexes@, match_indexes@);
            next_indexes.insert(id.duplicate(), next);
            match_indexes.insert(id.duplicate(), None);
            proof {
                assert(peers[i as int] == id@);
                let front = peers.take(i as int);
                assert(peers.take(i + 1) =~= front.push(id@));
                assert forall|p: Seq<char>|
                    {
                        &&& next_indexes@.contains_key(p) <==> front.push(id@).contains(p)
                        &&& match_indexes@.contains_key(p) <==> front.push(id@).contains(p)
                    } by {
                    assert(n0.contains_key(p) <==> front.contains(p));
                    assert(m0.contains_key(p) <==> front.contains(p));
                    if front.push(id@).contains(p) {
                        let k = choose|k: int| 0 <= k <= front.len() && front.push(id@)[k] == p;
                        if k < front.len() {
                            assert(front[k] == p);
                        }
                    }
                    if front.contains(p) {
                        let k = choose|k: int| 0 <= k < front.len() && front[k] == p;
                        assert(front.push(id@)[k] == p);
                    }
                    if p == id@ {
                        assert(front.push(id@)[front.len() as int] == p);
                    }
                }
            }
            i = i + 1;
        }
        self.r = Role::Leader { next_indexes, match_indexes, last_replication: None };
        proof {
            assert(peers.take(i as int) =~= peers);
            let want = before.leader();
            let n = self@.part->next;
            let m = self@.part->matched;
            assert(n =~= want.part->next);
            assert(m =~= want.part->matched);
            assert(self@ == want);
            assert(n.dom() =~= peers.to_set());
            assert(m.dom() =~= peers.to_set());
        }
        // > Upon election: send initial empty AppendEntries RPCs (heartbeat) to each
        // > server; repeat during idle periods to prevent election timeouts (§5.2)
        //
        // This helps voters get feedback ASAP.
        self.replicate_log(now)
    }

    /// What to send to a peer whose next entry is the one at an index.
    fn replication(&self, next: LogIndex) -> (r: (RaftMessage<S::Command>, bool))
        ensures
            r.0.deep_view() == self@.replication(next@),
            r.1 == (crate::raft::log::entries_from(self@.log, next@).len() == 0),
    {
        let entries: Vec<LogEntry<S::Command>> = self.p.log.get_from(next);
        // Might still be empty! In which case there is nothing to replicate to this
        // node, but a heartbeat might be necessary.
        let none: bool = entries.len() == 0;

        // See if we can produce a previous log entry, from _before_ the entries.
        let prev_log_index: Option<LogIndex> = LogIndex::new(next.get() - 1);
        let prev_log_term: Option<Term> = self.p.log.term_at(prev_log_index);
        let msg = RaftMessage::AppendEntries {
            term: self.p.current_term,
            prev_log_index,
            prev_log_term,
            entries: Log { inner: entries },
            commit_index: self.v.commit_index,
        };
        (msg, none)
    }

    /// What to send to all peers.
    fn replications(&self, heartbeat_needed: bool) -> (out: Outgoing<S::Command>)
        requires
            self@.valid(),
            self@.is_leader(),
        ensures
            out.deep_view() == self@.replications(self@.part->next, heartbeat_needed, 0),
    {
        let mut out: Outgoing<S::Command> = Vec::new();
        let ghost node = self@;
        let ghost next = node.part->next;
        assert(out.deep_view() =~= seq![]);
        if let Role::Leader { next_indexes, .. } = &self.r {
            let mut i: usize = 0;
            while i < self.v.node_ids.len()
                invariant
                    i <= self.v.node_ids@.len(),
                    node == self@,
                    node.valid(),
                    node.is_leader(),
                    next == node.part->next,
                    next == next_indexes@.map_values(|i: LogIndex| i@),
                    out.deep_view() + node.replications(next, heartbeat_needed, i as int)
                        == node.replications(next, heartbeat_needed, 0),
                decreases self.v.node_ids@.len() - i,
            {
                let node_id = &self.v.node_ids[i];
                proof {
                    assert(node.peers[i as int] == node_id@);
                    assert(node.peers.to_set().contains(node_id@));
                    assert(next.contains_key(node_id@));
                }
                let ghost before = out.deep_view();
                let ghost rest = node.replications(next, heartbeat_needed, i + 1);
                match next_indexes.get(node_id.as_str()) {
                    Some(next_index) => {
                        let (msg, none): (RaftMessage<S::Command>, bool) = self.replication(
                            *next_index,
                        );
                        if !none || heartbeat_needed {
                            let pair = (node_id.duplicate(), msg);
                            let ghost shown = pair.deep_view();
                            out.push(pair);
                            assert(out.deep_view() =~= before.push(shown));
                            assert(out.deep_view() + rest =~= before + (seq![shown] + rest));
                        }
                    },
                    None => {},
                }
                i = i + 1;
            }
            assert(node.replications(next, heartbeat_needed, i as int) =~= seq![]);
            assert(out.deep_view() =~= out.deep_view() + seq![]);
        }
        out
    }

    /// During leadership, replicate local log to all relevant peers, potentially
    /// sending an empty replication request for heartbeat.
    pub fn replicate_log(&mut self, now: u64) -> (out: Outgoing<S::Command>)
        requires
            old(self)@.valid(),
        ensures
            (final(self)@, out.deep_view()) == old(self)@.replicated(now),
            final(self)@.valid(),
    {
        let heartbeat_needed: bool = match &self.r {
            Role::Leader { last_replication, .. } => match last_replication {
                Some(lr) => {
                    let elapsed: u64 = if now >= *lr {
                        now - *lr
                    } else {
                        0
                    };
                    if elapsed < MIN_REPLICATION_INTERVAL {
                        let out: Outgoing<S::Command> = Vec::new();
                        assert(out.deep_view() =~= seq![]);
                        return out;
                    }
                    elapsed > HEARTBEAT_INTERVAL
                },
                None => true,
            },
            _ => {
                let out: Outgoing<S::Command> = Vec::new();
                assert(out.deep_view() =~= seq![]);
                return out;
            },
        };
        let out: Outgoing<S::Command> = self.replications(heartbeat_needed);
        if out.len() > 0 {
            if let Role::Leader { last_replication, .. } = &mut self.r {
                *last_replication = Some(now);
            }
        }
        out
    }

    pub fn append(&mut self, cmd: S::Command)
        requires
            old(self)@.valid(),
        ensures
            final(self)@ == old(self)@.appended(cmd.deep_view()),
            final(self)@.valid(),
    {
        let ghost before = self@.log;
        let term: Term = self.p.current_term;
        let mut entries: Vec<LogEntry<S::Command>> = Vec::new();
        entries.push(LogEntry { cmd, term });
        let ghost added = entries.deep_view();
        self.p.log.append(entries);
        assert(added =~= seq![crate::raft::log::Entry { cmd: cmd.deep_view(), term: term.0 }]);
        assert(self@.log =~= before.push(
            crate::raft::log::Entry { cmd: cmd.deep_view(), term: term.0 },
        ));
    }
}

/// Implementations for handling requests. Note how client requests were turned into
/// plain log commands in a higher application layer, so at this stage all we see is
/// pure log commands.
impl<S: StateMachine> State<S> {
    /// Whether the log of a candidate is at least as up-to-date as ours.
    fn up_to_date(&self, last_log_index: Option<LogIndex>, last_log_term: Option<Term>) -> (b: bool)
        ensures
            b == self@.up_to_date(last_log_index.deep_view(), last_log_term.deep_view()),
    {
        // Note, last terms might be none if the node has no log entries at all.
        let t: Option<Term> = self.p.log.last_term();
        if term_before(t, last_log_term) {
            true  // they are ahead
        } else if term_before(last_log_term, t) {
            false
        } else {
            !index_before(last_log_index, self.p.log.highest_index())
        }
    }

    /// Handle a request for a leadership vote from some remote candidate.
    pub fn handle_vote_request(
        &mut self,
        candidate_id: NodeID,
        candidate_term: Term,
        candidate_last_log_index: Option<LogIndex>,
        candidate_last_log_term: Option<Term>,
        t: Tick,
    ) -> (r: RaftMessage<S::Command>)
        requires
            old(self)@.valid(),
            t.in_range(),
            // should never be requested to vote for self
            candidate_id@ != old(self)@.id,
        ensures
            (final(self)@, r.deep_view()) == old(self)@.vote_asked(
                candidate_id@,
                candidate_term.0,
                candidate_last_log_index.deep_view(),
                candidate_last_log_term.deep_view(),
                t,
            ),
            final(self)@.valid(),
    {
        let follower: bool = match &self.r {
            Role::Follower { .. } => true,
            _ => false,
        };
        let vote_granted: bool = if !follower {
            false
        } else if candidate_term.0 < self.p.current_term.0 {
            // Candidate is in the logical past.
            false
        } else {
            let free: bool = match &self.p.voted_for {
                // We already voted for a different candidate in this term.
                Some(voted_for) => str_eq(candidate_id.as_str(), voted_for.as_str()),
                None => true,
            };
            // If we have not voted yet in this term, or voted for this candidate already,
            // we will gladly cast our vote again (to support that candidate retrying),
            // under certain conditions.
            free && self.up_to_date(candidate_last_log_index, candidate_last_log_term)
        };
        if vote_granted {
            // Register new state *before* replying
            self.p.voted_for = Some(candidate_id);
            // Allow time for voting session to conclude; without us running for
            // candidacy prematurely (starting a new term, invalidating our own
            // vote in this term).
            self.v.extend_election_deadline(t);
        }
        RaftMessage::RequestVoteResponse { term: self.p.current_term, vote_granted }
    }

    /// Handle a response to a previous vote request we sent.
    ///
    /// Note these responses can be arbitrarily delayed and correspondingly malformed.
    pub fn handle_vote_response(
        &mut self,
        peer: NodeID,
        remote_term: Term,
        vote_granted: bool,
        t: Tick,
    ) -> (out: Outgoing<S::Command>)
        requires
            old(self)@.valid(),
            old(self)@.log.len() < u64::MAX,
        ensures
            (final(self)@, out.deep_view()) == old(self)@.vote_answered(
                peer@,
                remote_term.0,
                vote_granted,
                t,
            ),
            final(self)@.valid(),
    {
        let mut out: Outgoing<S::Command> = Vec::new();
        assert(out.deep_view() =~= seq![]);
        if !vote_granted {
            return out;  // Too bad
        }
        let votes_received: usize = match &mut self.r {
            Role::Candidate { votes } => {
                if remote_term.0 != self.p.current_term.0 {
                    return out;
                }
                votes.insert(peer);
                votes.len()
            },
            // For example, because we _just became_ a leader by majority vote, and
            // further peers' favorable votes arrived after we already stepped up.
            _ => {
                return out;
            },
        };
        if self.won_election(votes_received) {
            out = self.become_leader(t.now);
        }
        out
    }

    /// Whether so many votes are a majority.
    fn won_election(&self, votes_received: usize) -> (b: bool)
        requires
            self@.peers.len() > 0,
        ensures
            b == (votes_received >= crate::raft::model::majority(self@.peers.len())),
    {
        // Cluster + ourselves, halved.
        let n: usize = self.v.node_ids.len();
        let half: usize = n / 2 + n % 2;
        votes_received > half
    }
}

/// Committing and applying.
impl<S: StateMachine> State<S> {
    /// Applies all outstanding log entries below the commit index to the state machine.
    fn advance_state_machine(&mut self, machine: &mut S) -> (out: Vec<S::Output>)
        requires
            // can never overtake
            !crate::raft::model::before(old(self)@.commit, old(self)@.applied),
            // Raft invariant: entries below commit index must exist (replicated)
            crate::raft::model::before(old(self)@.applied, old(self)@.commit)
                ==> crate::raft::model::reach(old(self)@.commit) <= old(self)@.log.len(),
        ensures
            final(self)@ == (Node { applied: old(self)@.commit, ..old(self)@ }),
            (final(machine).deep_view(), out.deep_view()) == crate::raft::model::applied_all::<S>(
                old(machine).deep_view(),
                old(self)@.log,
                crate::raft::model::reach(old(self)@.applied),
                crate::raft::model::reach(old(self)@.commit),
            ),
    {
        let ghost node = self@;
        let ghost m = machine.deep_view();
        let ghost from = crate::raft::model::reach(node.applied);
        let to: u64 = match self.v.commit_index {
            Some(i) => i.get(),
            None => 0,
        };
        let mut n: u64 = match self.v.last_applied {
            Some(i) => i.get(),
            None => 0,
        };
        let mut out: Vec<S::Output> = Vec::new();
        assert(out.deep_view() =~= seq![]);
        while n < to
            invariant
                from <= n <= to,
                n < to ==> to <= node.log.len(),
                node.log == self.p.log.deep_view(),
                self@ == (Node { applied: self@.applied, ..node }),
                crate::raft::model::reach(self@.applied) == n,
                n == 0 ==> self@.applied is None,
                (machine.deep_view(), out.deep_view()) == crate::raft::model::applied_all::<S>(
                    m,
                    node.log,
                    from,
                    n as nat,
                ),
            decreases to - n,
        {
            proof {
                crate::raft::model::lemma_applied_one_more::<S>(m, node.log, from, n as nat);
            }
            let ghost done = out.deep_view();
            n = n + 1;
            let last_applied: Option<LogIndex> = LogIndex::new(n);
            self.v.last_applied = last_applied;
            if let Some(i) = last_applied {
                if let Some(log_entry) = self.p.log.get(i) {
                    match machine.apply(log_entry.cmd.duplicate()) {
                        Some(o) => {
                            let ghost shown = o.deep_view();
                            out.push(o);
                            assert(out.deep_view() =~= done.push(shown));
                        },
                        None => {},
                    }
                }
            }
        }
        out
    }

    /// During leadership, advance the commit index if to the highest possible watermark
    /// among all peers.
    ///
    /// > If there exists an N such that N > commitIndex, a majority of matchIndex[i] ≥
    /// > N, and log[N].term == currentTerm: set commitIndex = N (§5.3, §5.4)
    fn advance_commit_index(&mut self, machine: &mut S) -> (out: Vec<S::Output>)
        requires
            old(self)@.valid(),
            old(self)@.is_leader(),
        ensures
            final(self)@ == old(self)@.committed(),
            final(self)@.valid(),
            (final(machine).deep_view(), out.deep_view()) == crate::raft::model::applied_all::<S>(
                old(machine).deep_view(),
                old(self)@.log,
                crate::raft::model::reach(old(self)@.applied),
                crate::raft::model::reach(final(self)@.applied),
            ),
    {
        let nothing: Vec<S::Output> = Vec::new();
        assert(nothing.deep_view() =~= seq![]);
        // A peer that we have no match index for yet counts as having nothing.
        let n: LogIndex = match LogIndex::new(self.median_match()) {
            Some(n) => n,
            None => {
                return nothing;
            },
        };
        let current: bool = match self.p.log.get(n) {
            Some(entry) => entry.term.0 == self.p.current_term.0,
            None => false,
        };
        if !current {
            return nothing;
        }
        if index_before(self.v.commit_index, Some(n)) {
            self.v.commit_index = Some(n);
        }
        self.advance_state_machine(machine)
    }

    /// The lower median of what peers have.
    fn median_match(&self) -> (n: u64)
        requires
            self@.valid(),
            self@.is_leader(),
        ensures
            n == crate::raft::model::median_match(self@.part->matched),
    {
        let ghost matched = self@.part->matched;
        let mut values: Vec<u64> = Vec::new();
        if let Role::Leader { match_indexes, .. } = &self.r {
            let len: usize = match_indexes.len();
            let ghost keys = match_indexes.keys();
            assert(matched.dom() =~= match_indexes@.dom());
            let mut i: usize = 0;
            while i < len
                invariant
                    i <= len,
                    len == keys.len(),
                    keys == match_indexes.keys(),
                    keys.to_set() == match_indexes@.dom(),
                    matched == match_indexes@.map_values(|i: Option<LogIndex>| i.deep_view()),
                    values@.len() == i,
                    forall|k: int|
                        0 <= k < i ==> crate::raft::model::reach(matched[#[trigger] keys[k]])
                            == values@[k],
                decreases len - i,
            {
                assert(keys.to_set().contains(keys[i as int]));
                assert(matched[keys[i as int]] == match_indexes@[keys[i as int]].deep_view());
                let n: u64 = match *match_indexes.value_at(i) {
                    Some(index) => index.get(),
                    None => 0,
                };
                values.push(n);
                i = i + 1;
            }
            let ghost all = values@;
            proof {
                assert(self@.peers.contains(self@.peers[0]));
                assert(self@.peers.to_set().contains(self@.peers[0]));
                assert(keys.to_set().contains(self@.peers[0]));
            }
            let n: Option<u64> = match lower_median(&mut values) {
                Some(n) => Some(*n),
                None => None,
            };
            if let Some(n) = n {
                proof {
                    crate::raft::median::lemma_median_of_values(matched, keys, all, values@, n);
                    let c = crate::raft::model::median_match(matched);
                    crate::raft::median::median_is_unique(matched, n, c);
                }
                return n;
            }
        }
        0
    }
}

/// Handling of replication.
impl<S: StateMachine> State<S> {
    /// Whether our log can go on behind the entry that the leader names.
    fn continues(
        &self,
        leader_prev_log_index: Option<LogIndex>,
        leader_prev_log_term: Option<Term>,
    ) -> (b: bool)
        ensures
            b == self@.takes(
                self@.term,
                leader_prev_log_index.deep_view(),
                leader_prev_log_term.deep_view(),
            ),
    {
        // The leader might send no index at all, to indicate their log is empty.
        if leader_prev_log_index.is_none() {
            return leader_prev_log_term.is_none();
        }
        // See if we have, at the index requested by the leader, an entry at all. If we
        // do, see if its term is identical to leader's.
        match (self.p.log.term_at(leader_prev_log_index), leader_prev_log_term) {
            (Some(ours), Some(theirs)) => ours.0 == theirs.0,
            _ => false,
        }
    }

    /// Whether entries from a leader of our term, or a newer one, fit this node.
    fn can_take(
        &self,
        leader_commit_index: Option<LogIndex>,
        leader_prev_log_index: Option<LogIndex>,
        leader_prev_log_term: Option<Term>,
        entries: &Log<S::Command>,
    ) -> (b: bool)
        ensures
            b == (self@.takes(
                self@.term,
                leader_prev_log_index.deep_view(),
                leader_prev_log_term.deep_view(),
            ) ==> {
                &&& leader_prev_log_index.deep_view() != Some(u64::MAX)
                &&& self@.spliced(
                    leader_prev_log_index.deep_view(),
                    entries.deep_view(),
                ).len() <= u64::MAX
                &&& crate::raft::model::before(
                    self@.commit,
                    leader_commit_index.deep_view(),
                ) ==> !crate::raft::model::before(
                    crate::raft::model::least(
                        leader_commit_index.deep_view(),
                        crate::raft::log::highest(
                            self@.spliced(
                                leader_prev_log_index.deep_view(),
                                entries.deep_view(),
                            ),
                        ),
                    ),
                    self@.applied,
                )
            }),
    {
        if !self.continues(leader_prev_log_index, leader_prev_log_term) {
            return true;
        }
        let kept: u64 = match leader_prev_log_index {
            None => 0,
            Some(i) => i.get(),
        };
        if kept == u64::MAX {
            return false;
        }
        let len: u64 = self.p.log.inner.len() as u64;
        let kept: u64 = if kept < len {
            kept
        } else {
            len
        };
        let ghost log = self@.spliced(leader_prev_log_index.deep_view(), entries.deep_view());
        assert(log.len() == kept + entries.inner@.len());
        match kept.checked_add(entries.inner.len() as u64) {
            None => false,
            Some(n) => {
                let highest: Option<LogIndex> = LogIndex::new(n);
                if !index_before(self.v.commit_index, leader_commit_index) {
                    true
                } else if index_before(highest, leader_commit_index) {
                    !index_before(highest, self.v.last_applied)
                } else {
                    !index_before(leader_commit_index, self.v.last_applied)
                }
            },
        }
    }

    /// Whether a message from a peer makes sense.
    pub fn accepts(&self, peer: &NodeID, msg: &RaftMessage<S::Command>) -> (b: bool)
        ensures
            b == self@.acceptable(peer@, msg.deep_view()),
    {
        match msg {
            RaftMessage::RequestVote { .. } => !str_eq(peer.as_str(), self.v.id.as_str()),
            RaftMessage::RequestVoteResponse { .. } => (self.p.log.inner.len() as u64) < u64::MAX,
            RaftMessage::AppendEntries {
                term,
                commit_index,
                prev_log_index,
                prev_log_term,
                entries,
            } => {
                if str_eq(peer.as_str(), self.v.id.as_str()) {
                    return false;
                }
                if term.0 < self.p.current_term.0 {
                    return is_index(*commit_index);
                }
                if term.0 == self.p.current_term.0 && self.is_leader() {
                    return false;
                }
                is_index(*commit_index) && self.can_take(
                    *commit_index,
                    *prev_log_index,
                    *prev_log_term,
                    entries,
                )
            },
            RaftMessage::AppendEntriesResponse { index, success, .. } => match index {
                Some(i) => !*success || (i.get() < u64::MAX && is_index(*index)),
                None => true,
            },
        }
    }

    /// Handle a request to append entries to our log, sent by leaders.
    ///
    /// If all checks pass, the request is accepted and this node's state machine
    /// progressed to the next indicated commit index.
    pub fn handle_append_entries(
        &mut self,
        peer: NodeID,
        leader_term: Term,
        leader_commit_index: Option<LogIndex>,
        leader_prev_log_index: Option<LogIndex>,
        leader_prev_log_term: Option<Term>,
        entries: Log<S::Command>,
        machine: &mut S,
        t: Tick,
    ) -> (r: (RaftMessage<S::Command>, Vec<S::Output>))
        requires
            old(self)@.valid(),
            t.in_range(),
            // current leader can never be self
            peer@ != old(self)@.id,
            old(self)@.can_take(
                leader_term.0,
                leader_commit_index.deep_view(),
                leader_prev_log_index.deep_view(),
                leader_prev_log_term.deep_view(),
                entries.deep_view(),
            ),
        ensures
            (final(self)@, r.0.deep_view()) == old(self)@.entries_sent(
                peer@,
                leader_term.0,
                leader_commit_index.deep_view(),
                leader_prev_log_index.deep_view(),
                leader_prev_log_term.deep_view(),
                entries.deep_view(),
                t,
            ),
            final(self)@.valid(),
            (final(machine).deep_view(), r.1.deep_view()) == crate::raft::model::applied_all::<S>(
                old(machine).deep_view(),
                final(self)@.log,
                crate::raft::model::reach(old(self)@.applied),
                crate::raft::model::reach(final(self)@.applied),
            ),
    {
        let ghost before = self@;
        let mut outputs: Vec<S::Output> = Vec::new();
        assert(outputs.deep_view() =~= seq![]);
        let current_term: Term = self.p.current_term;
        let failure_msg = RaftMessage::AppendEntriesResponse {
            current_term,
            index: self.p.log.highest_index(),
            success: false,
        };

        if leader_term.0 < current_term.0 {
            // Leader is in the logical past, let it know.
            return (failure_msg, outputs);
        }
        // This is a valid leader. Don't compete with it: if we were a candidate, another
        // peer established themselves as leader _in a term we are currently candidating
        // for_. Cancel our candidacy and get in line.
        self.become_follower(t);
        self.r = Role::Follower { leader: Some(peer) };  // Recognize this leader
        assert(self@ == before.following(peer@, t));

        if !self.continues(leader_prev_log_index, leader_prev_log_term) {
            return (failure_msg, outputs);
        }
        // Consistency check with induction step OK.

        let from: LogIndex = match leader_prev_log_index {
            None => min_log_index(),  // wipe it all
            Some(idx) => idx.next(),
        };
        self.p.log.replace_from(from, entries.inner);
        assert(self@.log == before.spliced(leader_prev_log_index.deep_view(), entries.deep_view()));

        // Note, either of these can be none if a node has no commits yet.
        if index_before(self.v.commit_index, leader_commit_index) {
            // Advance, but clamp as leader might send a commit index _beyond_ the
            // additional log entries it sent.
            //
            // Consider: high commit index sent, but our local log is empty and no
            // leader log entries were sent either, leaving log log empty still. In this
            // case our local commit index should remain empty as well. `Option` handles
            // this all natively.
            let highest: Option<LogIndex> = self.p.log.highest_index();
            self.v.commit_index = if index_before(highest, leader_commit_index) {
                highest
            } else {
                leader_commit_index
            };
            outputs = self.advance_state_machine(machine);
        }
        let response = RaftMessage::AppendEntriesResponse {
            current_term,
            index: self.p.log.highest_index(),
            success: true,
        };
        (response, outputs)
    }

    /// Handle a response to a previous AppendEntries request.
    ///
    /// If not successful, log replication is immediately retried. If successful, we advance
    /// the state machine.
    pub fn handle_append_entries_response(
        &mut self,
        peer: NodeID,
        success: bool,
        index: Option<LogIndex>,
        machine: &mut S,
        t: Tick,
    ) -> (r: (Outgoing<S::Command>, Vec<S::Output>))
        requires
            old(self)@.valid(),
            // should never exceed log size
            success ==> index.deep_view() != Some(u64::MAX),
        ensures
            (final(self)@, r.0.deep_view()) == old(self)@.entries_answered(
                peer@,
                success,
                index.deep_view(),
                t,
            ),
            final(self)@.valid(),
            (final(machine).deep_view(), r.1.deep_view()) == crate::raft::model::applied_all::<S>(
                old(machine).deep_view(),
                final(self)@.log,
                crate::raft::model::reach(old(self)@.applied),
                crate::raft::model::reach(final(self)@.applied),
            ),
    {
        let ghost before = self@;
        let no_mail: Outgoing<S::Command> = Vec::new();
        let nothing: Vec<S::Output> = Vec::new();
        assert(no_mail.deep_view() =~= seq![]);
        assert(nothing.deep_view() =~= seq![]);
        match &mut self.r {
            Role::Leader { next_indexes, match_indexes, .. } => {
                let ghost (n0, m0) = (next_indexes@, match_indexes@);
                let next_index: LogIndex = match next_indexes.get(peer.as_str()) {
                    Some(i) => *i,
                    None => {
                        return (no_mail, nothing);
                    },
                };
                if !success {
                    // Decrement, floor it to minimum permissible index (sending "next
                    // index" below that makes no sense).
                    let lower: LogIndex = match LogIndex::new(next_index.get() - 1) {
                        Some(i) => i,
                        None => min_log_index(),
                    };
                    next_indexes.insert(peer, lower);
                    assert(next_indexes@.map_values(|i: LogIndex| i@) =~= n0.map_values(
                        |i: LogIndex| i@,
                    ).insert(peer@, lower@));
                } else {
                    match index {
                        // Note we ignore peers sending None for their new index, which is
                        // valid when bootstrapping from empty and sending an empty
                        // heartbeat. Peers will respond with success but there's no logs
                        // still.
                        None => {
                            return (no_mail, nothing);
                        },
                        // Peers send their new _current_ index. Note, this means indexes
                        // can go _backwards_ if an outdated response arrives late. We will
                        // re-replicate from an earlier state for that node (wasteful but
                        // safe).
                        Some(i) => {
                            next_indexes.insert(peer.duplicate(), i.next());
                            match_indexes.insert(peer, Some(i));
                            proof {
                                assert(next_indexes@.map_values(|i: LogIndex| i@)
                                    =~= n0.map_values(|i: LogIndex| i@).insert(
                                    peer@,
                                    (i@ + 1) as u64,
                                ));
                                assert(match_indexes@.map_values(
                                    |i: Option<LogIndex>| i.deep_view(),
                                ) =~= m0.map_values(
                                    |i: Option<LogIndex>| i.deep_view(),
                                ).insert(peer@, Some(i@)));
                            }
                        },
                    }
                }
            },
            _ => {
                return (no_mail, nothing);
            },
        }
        proof {
            assert(before.peers.to_set().contains(peer@));
            assert(self@.part->next.dom() =~= before.part->next.dom());
            assert(self@.part->matched.dom() =~= before.part->matched.dom());
        }
        if !success {
            // Retry right away with new decremented value. This can be called anytime,
            // it internally ensures we don't replicate too often.
            let out: Outgoing<S::Command> = self.replicate_log(t.now);
            (out, nothing)
        } else {
            let outputs: Vec<S::Output> = self.advance_commit_index(machine);
            (no_mail, outputs)
        }
    }
}

/// Convert the current node state to a version suitable for persisting.
///
/// Note, full ownership of state data is attained through copying. While expensive in
/// terms of memory, this allows persistence to proceed without taking a lock on the
/// state across I/O operations (which can take ~unbounded time -- we don't control).
/// That frees the node to keep processing in other threads.
impl<'a, S: StateMachine> From<&'a State<S>> for Persistent<S::Command> {
    fn from(state: &'a State<S>) -> (p: Self)
        ensures
            p.deep_view() == (Kept {
                current_term: state@.term,
                voted_for: state@.voted_for,
                log: state@.log,
            }),
    {
        state.p.duplicate()
    }
}

impl<'a, S: StateMachine> vstd::std_specs::convert::FromSpecImpl<&'a State<S>> for Persistent<S::Command> {
    open spec fn obeys_from_spec() -> bool {
        false
    }

    open spec fn from_spec(state: &'a State<S>) -> Self {
        arbitrary()
    }
}

} // verus!
