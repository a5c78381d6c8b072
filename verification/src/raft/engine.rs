//! The engine that drives a node: messages from peers and clients in, messages to them out.
use crate::datum::{Datum, Duplicate};
use crate::kv::Store;
use crate::maelstrom::rpc::{reserved_number, ErrorCode, ReservedErrorCode};
use crate::raft::command::{command_for, Cmd, Command};
use crate::raft::machine::StateMachine;
use crate::raft::model::{applied_all, reach, Mail, Node, Part, Tick};
use crate::raft::persistence::{Kept, Persistent};
use crate::raft::proxy::{is_lowest, with_room, Pending, Proxies};
use crate::raft::rpc::{ClientMessage, ClientMsg, MessageID, RaftMessage};
use crate::raft::state::{Outgoing, State};
use crate::raft::{NodeID, MAX_INFLIGHT_PROXIES};
use vstd::prelude::*;

verus! {

/// The engine driving core Raft state, and holding application state in the Raft state
/// machine.
///
/// Responsibilities are:
///
/// - receive client and Raft peer requests and route to Raft core
/// - translate between client domain (key-value store) and Raft core (generic),
///   including for state machine driving
/// - route Raft responses back to peers and clients
/// - hand out what to persist to durable storage, and hold responses until it is persisted
pub struct Engine<S: StateMachine> {
    /// Underlying raft state.
    state: State<S>,
    /// State machine holding current application state.
    state_machine: S,
    /// Outstanding proxy requests this Raft node sends on behalf of clients to current
    /// leaders.
    proxies: Proxies,
    /// What to send to peers once state is persisted.
    responses: Outgoing<S::Command>,
    /// What the state machine gave out, to be given out once state is persisted.
    outputs: Vec<S::Output>,
}

impl<S: StateMachine> Engine<S> {
    /// The node that this engine drives.
    pub closed spec fn node(&self) -> Node<<S::Command as DeepView>::V> {
        self.state@
    }

    /// The state of the application.
    pub closed spec fn machine(&self) -> S::V {
        self.state_machine.deep_view()
    }

    /// The requests that clients wait for.
    pub closed spec fn pending(&self) -> Pending {
        self.proxies@
    }

    /// What is held until state is persisted: what to send to peers, and what the state
    /// machine gave out.
    pub closed spec fn held(&self) -> (
        Mail<<S::Command as DeepView>::V>,
        Seq<<S::Output as DeepView>::V>,
    ) {
        (self.responses.deep_view(), self.outputs.deep_view())
    }

    /// What holds of an engine at all times.
    pub open spec fn valid(&self) -> bool {
        self.node().valid()
    }

    /// Create a new Raft engine.
    ///
    /// Does not do anything by itself.
    pub fn new(id: NodeID, node_ids: Vec<NodeID>, state: Persistent<S::Command>, now: u64) -> (e:
        Self)
        requires
            // cannot operate without peer nodes
            node_ids@.len() > 0,
            // cluster IDs should not contain self
            !node_ids.deep_view().contains(id@),
        ensures
            e.valid(),
            e.node() == Node::booted(
                id@,
                node_ids.deep_view(),
                state.deep_view().current_term,
                state.deep_view().voted_for,
                state.deep_view().log,
                now,
            ),
            e.machine() == S::start(),
            e.pending() == Pending::empty(),
            e.held().0.len() == 0,
            e.held().1.len() == 0,
    {
        Engine {
            state: State::new(id, node_ids, state, now),
            // State is built up from log on each boot; start with a fresh machine.
            state_machine: S::fresh(),
            proxies: Proxies::new(),
            responses: Vec::new(),
            outputs: Vec::new(),
        }
    }

    /// Begins a new election if it is time for one.
    ///
    /// To be called frequently. Note, the election deadline this monitors can be bumped
    /// forward *at any time*, so one cannot just sleep once and wake up.
    pub fn maybe_begin_election(&mut self, t: Tick) -> (out: Outgoing<S::Command>)
        requires
            old(self).valid(),
            t.in_range(),
            // terms should not run out
            t.now > old(self).node().deadline && !old(self).node().is_leader()
                ==> old(self).node().term < u64::MAX,
        ensures
            final(self).valid(),
            (final(self).node(), out.deep_view()) == old(self).node().deadline_seen(t),
            final(self).machine() == old(self).machine(),
            final(self).pending() == old(self).pending(),
            final(self).held() == old(self).held(),
    {
        self.state.maybe_begin_election(t)
    }

    /// Replicates the log.
    ///
    /// While logs are replicating opportunistically whenever possible in response to
    /// client requests, this is still necessary for idle periods of no clients request.
    /// In those, (empty) heartbeats need to be sent to Raft peers to retain leadership.
    ///
    /// Raft also specifies we retry RPCs like AppendEntries; this covers this as well.
    ///
    /// > If followers crash or run slowly, or if network packets are lost, the leader
    /// > retries AppendEntries RPCs indefinitely (even after it has responded to the
    /// > client) until all followers eventually store all log entries.
    pub fn replicate_log(&mut self, now: u64) -> (out: Outgoing<S::Command>)
        requires
            old(self).valid(),
        ensures
            final(self).valid(),
            (final(self).node(), out.deep_view()) == old(self).node().replicated(now),
            final(self).machine() == old(self).machine(),
            final(self).pending() == old(self).pending(),
            final(self).held() == old(self).held(),
    {
        self.state.replicate_log(now)
    }

    /// The current term. No election can begin in the last term that there is.
    pub fn term(&self) -> (t: u64)
        ensures
            t == self.node().term,
    {
        self.state.term().0
    }

    /// Whether a message from a peer makes sense.
    pub fn accepts(&self, peer: &NodeID, msg: &RaftMessage<S::Command>) -> (b: bool)
        ensures
            b == self.node().acceptable(peer@, msg.deep_view()),
    {
        self.state.accepts(peer, msg)
    }

    /// Handles a message from a peer. What to respond to peers, and what the state machine
    /// gave out, is held until what is returned is persisted, see [`Self::persisted`].
    pub fn handle_raft_message(
        &mut self,
        peer: NodeID,
        msg: RaftMessage<S::Command>,
        t: Tick,
    ) -> (p: Persistent<S::Command>)
        requires
            old(self).valid(),
            t.in_range(),
            old(self).node().acceptable(peer@, msg.deep_view()),
        ensures
            final(self).valid(),
            final(self).node() == old(self).node().received(peer@, msg.deep_view(), t).0,
            final(self).held().0 == old(self).held().0 + old(self).node().received(
                peer@,
                msg.deep_view(),
                t,
            ).1,
            ({
                let (machine, outputs) = applied_all::<S>(
                    old(self).machine(),
                    final(self).node().log,
                    reach(old(self).node().applied),
                    reach(final(self).node().applied),
                );
                &&& final(self).machine() == machine
                &&& final(self).held().1 == old(self).held().1 + outputs
            }),
            final(self).pending() == old(self).pending(),
            p.deep_view() == kept(final(self).node()),
    {
        let (mut responses, mut outputs): (Outgoing<S::Command>, Vec<S::Output>) =
            self.hear_peer(peer, msg, t);
        let ghost (r0, o0) = (self.held().0, self.held().1);
        let ghost (r1, o1) = (responses.deep_view(), outputs.deep_view());
        self.responses.append(&mut responses);
        self.outputs.append(&mut outputs);
        assert(self.responses.deep_view() =~= r0 + r1);
        assert(self.outputs.deep_view() =~= o0 + o1);
        self.to_persist()
    }

    /// Tells whether what was to be persisted was. If so, gives out what was held until
    /// then: what to send to peers, and what the state machine gave out. Otherwise, what was
    /// held is dropped: without state on durable storage, there is no response.
    pub fn persisted(&mut self, ok: bool) -> (r: (Outgoing<S::Command>, Vec<S::Output>))
        ensures
            final(self).node() == old(self).node(),
            final(self).machine() == old(self).machine(),
            final(self).pending() == old(self).pending(),
            final(self).held().0.len() == 0,
            final(self).held().1.len() == 0,
            if ok {
                (r.0.deep_view(), r.1.deep_view()) == old(self).held()
            } else {
                r.0@.len() == 0 && r.1@.len() == 0
            },
    {
        let mut responses: Outgoing<S::Command> = Vec::new();
        let mut outputs: Vec<S::Output> = Vec::new();
        std::mem::swap(&mut responses, &mut self.responses);
        std::mem::swap(&mut outputs, &mut self.outputs);
        if ok {
            (responses, outputs)
        } else {
            (Vec::new(), Vec::new())
        }
    }

    /// Handles a message from a peer: what to respond to peers, and what the state machine
    /// gave out.
    fn hear_peer(
        &mut self,
        peer: NodeID,
        msg: RaftMessage<S::Command>,
        t: Tick,
    ) -> (r: (Outgoing<S::Command>, Vec<S::Output>))
        requires
            old(self).valid(),
            t.in_range(),
            old(self).node().acceptable(peer@, msg.deep_view()),
        ensures
            final(self).valid(),
            (final(self).node(), r.0.deep_view()) == old(self).node().received(
                peer@,
                msg.deep_view(),
                t,
            ),
            (final(self).machine(), r.1.deep_view()) == applied_all::<S>(
                old(self).machine(),
                final(self).node().log,
                reach(old(self).node().applied),
                reach(final(self).node().applied),
            ),
            final(self).pending() == old(self).pending(),
            final(self).held() == old(self).held(),
    {
        // Check if another node has a more advanced logical clock.
        self.state.maybe_step_down(msg.term(), t);

        // Even if we stepped down to follower, implying we were in the logical
        // past, replying is still useful (e.g. to vote for an eligible candidate
        // peer).

        let nothing: Vec<S::Output> = Vec::new();
        assert(nothing.deep_view() =~= seq![]);
        match msg {
            RaftMessage::RequestVote { candidate_term, last_log_index, last_log_term } => {
                let to: NodeID = peer.duplicate();  // single receiver: the candidate
                let response = self.state.handle_vote_request(
                    peer,
                    candidate_term,
                    last_log_index,
                    last_log_term,
                    t,
                );
                (single(to, response), nothing)
            },
            RaftMessage::RequestVoteResponse { term, vote_granted } => {
                let out: Outgoing<S::Command> = self.state.handle_vote_response(
                    peer,
                    term,
                    vote_granted,
                    t,
                );
                (out, nothing)
            },
            RaftMessage::AppendEntries {
                term,
                commit_index,
                prev_log_index,
                prev_log_term,
                entries,
            } => {
                let to: NodeID = peer.duplicate();  // single receiver: the leader
                let (response, outputs) = self.state.handle_append_entries(
                    peer,
                    term,
                    commit_index,
                    prev_log_index,
                    prev_log_term,
                    entries,
                    &mut self.state_machine,
                    t,
                );
                (single(to, response), outputs)
            },
            RaftMessage::AppendEntriesResponse { index, success, .. } => {
                self.state.handle_append_entries_response(
                    peer,
                    success,
                    index,
                    &mut self.state_machine,
                    t,
                )
            },
        }
    }

    /// What to persist to durable storage.
    pub fn to_persist(&self) -> (p: Persistent<S::Command>)
        ensures
            p.deep_view() == kept(self.node()),
    {
        Persistent::from(&self.state)
    }

    /// Whether a client waits for the response to the request that was forwarded with an ID.
    pub fn awaits(&self, id: MessageID) -> (b: bool)
        ensures
            b == self.pending().contains_key(id),
    {
        self.proxies.contains(id)
    }

    /// How many requests clients wait for.
    pub fn inflight_proxies(&self) -> (n: usize)
        ensures
            n == self.pending().len(),
    {
        self.proxies.len()
    }
}

/// What a node keeps on durable storage: its term, its vote and its log.
pub open spec fn kept<C>(n: Node<C>) -> Kept<C> {
    Kept { current_term: n.term, voted_for: n.voted_for, log: n.log }
}

/// One message for one node.
fn single<Cmd: DeepView>(to: NodeID, msg: RaftMessage<Cmd>) -> (out: Outgoing<Cmd>)
    ensures
        out.deep_view() == seq![(to@, msg.deep_view())],
{
    let mut out: Outgoing<Cmd> = Vec::new();
    out.push((to, msg));
    assert(out.deep_view() =~= seq![(to@, msg.deep_view())]);
    out
}

/// What becomes of a message from a client.
#[verifier::ext_equal]
pub struct Outcome<K, V> {
    pub node: Node<Cmd<K, V>>,
    pub pending: Pending,
    /// What to send to peers.
    pub mail: Mail<Cmd<K, V>>,
    /// What to send to a client, or to the leader on behalf of one.
    pub reply: Option<(Seq<char>, ClientMsg<K, V>)>,
}

/// Only leaders add client requests to their log. Others proxy them to the leader, if they
/// know one; the response is then sent back to the client, as if it came from the node that
/// the client asked.
pub open spec fn client_heard<K, V>(
    node: Node<Cmd<K, V>>,
    pending: Pending,
    client: Seq<char>,
    msg: ClientMsg<K, V>,
    response_id: u64,
    now: u64,
) -> Outcome<K, V> {
    let idle = Outcome { node, pending, mail: seq![], reply: None };
    match msg.answered() {
        None => match node.part {
            Part::Leader { .. } => {
                let (after, mail) = node.appended(
                    command_for(client, response_id, msg),
                ).replicated(now);
                Outcome { node: after, mail, ..idle }
            },
            Part::Follower { leader: Some(leader) } => Outcome {
                pending: with_room(pending).insert(response_id, (msg.id(), client)),
                reply: Some((leader, msg.with_id(response_id))),
                ..idle
            },
            _ => Outcome {
                reply: Some(
                    (
                        client,
                        ClientMsg::ErrorResponse {
                            in_reply_to: msg.id(),
                            id: response_id,
                            code: reserved_number(ReservedErrorCode::TemporarilyUnavailable),
                            text: "not a leader and current leader unknown"@,
                        },
                    ),
                ),
                ..idle
            },
        },
        Some(forward_id) => if pending.contains_key(forward_id) {
            let (original_id, original_client) = pending[forward_id];
            Outcome {
                pending: pending.remove(forward_id),
                reply: Some((original_client, msg.with_id(original_id).answering(original_id))),
                ..idle
            }
        } else {
            idle
        },
    }
}

impl<K: Datum, V: Datum> Engine<Store<K, V>> {
    /// Handles a message from a client, or a response that a leader sent on a client's
    /// behalf: what to send to peers, and what to send to a client (or to the leader on
    /// behalf of one).
    ///
    /// Client responses to requests that entered the log are sent **once replication
    /// occurred**, see [`Self::persisted`].
    ///
    /// Client requests arriving while this node is not a leader are **proxied** to the
    /// leader, if possible. The leader response is then sent back to the client.
    pub fn handle_client_message(
        &mut self,
        client: NodeID,
        msg: ClientMessage<K, V>,
        response_id: MessageID,
        now: u64,
    ) -> (r: (Outgoing<Command<K, V>>, Option<(NodeID, ClientMessage<K, V>)>))
        requires
            old(self).valid(),
            // node IDs are unique per process
            !old(self).pending().contains_key(response_id),
        ensures
            final(self).valid(),
            (Outcome {
                node: final(self).node(),
                pending: final(self).pending(),
                mail: r.0.deep_view(),
                reply: r.1.deep_view(),
            }) == client_heard(
                old(self).node(),
                old(self).pending(),
                client@,
                msg.deep_view(),
                response_id,
                now,
            ),
            final(self).machine() == old(self).machine(),
            final(self).held() == old(self).held(),
    {
        let no_mail: Outgoing<Command<K, V>> = Vec::new();
        assert(no_mail.deep_view() =~= seq![]);
        match msg.answered() {
            Some(in_reply_to) => {
                // Since proxying initially, we might have changed to any other role
                // before a response arrived. We can always reply to the client
                // still, as if the response made it to here, it came from a
                // legitimate then-leader, so is authoritative (= committed), even
                // if outdated.
                //
                // Check if there's a client awaiting this response.
                match self.proxies.remove(in_reply_to) {
                    Some((original_id, original_client)) => {
                        // Swap back for our own "in reply to"
                        let mut resp: ClientMessage<K, V> = msg;
                        resp.set_id(original_id);
                        resp.set_answered(original_id);
                        (no_mail, Some((original_client, resp)))
                    },
                    None => {
                        assert(self.proxies@ =~= old(self).proxies@);
                        (no_mail, None)
                    },
                }
            },
            None => {
                if self.state.is_leader() {
                    // Client request goes into leader log (in a more efficient format
                    // than raw RPC requests), carrying whom to respond to once the state
                    // machine applies the command, implying replication is reached and
                    // responding is safe.
                    if let Ok(cmd) = Command::from_request(client, response_id, msg) {
                        self.state.append(cmd);
                    }
                    // Opportunistically replicate right away for minimum latency. This
                    // is internally rate-limited so safe to call frequently.
                    let out: Outgoing<Command<K, V>> = self.state.replicate_log(now);
                    return (out, None);
                }
                match self.state.current_leader() {
                    // Proxy to a leader if known.
                    Some(leader) => {
                        self.proxies.make_room();
                        // Swap out message ID. This node's generated message IDs are
                        // unique, so we use it to tell async responses apart later.
                        let mut req: ClientMessage<K, V> = msg;
                        let original_id: MessageID = req.id();
                        req.set_id(response_id);
                        self.proxies.insert(response_id, original_id, client);
                        (no_mail, Some((leader, req)))
                    },
                    // No (known) leader to proxy to, short-circuit to client directly.
                    None => {
                        let resp = ClientMessage::ErrorResponse {
                            in_reply_to: msg.id(),
                            id: response_id,
                            code: ReservedErrorCode::TemporarilyUnavailable.code(),
                            text: "not a leader and current leader unknown".to_owned(),
                        };
                        (no_mail, Some((client, resp)))
                    },
                }
            },
        }
    }
}

/// No more than so many proxied requests are in flight.
pub open spec fn bounded(pending: Pending) -> bool {
    pending.dom().finite() && pending.len() <= MAX_INFLIGHT_PROXIES
}

/// The number of proxied requests in flight stays limited.
pub proof fn proxies_stay_bounded<K, V>(
    node: Node<Cmd<K, V>>,
    pending: Pending,
    client: Seq<char>,
    msg: ClientMsg<K, V>,
    response_id: u64,
    now: u64,
)
    requires
        bounded(pending),
        !pending.contains_key(response_id),
    ensures
        bounded(client_heard(node, pending, client, msg, response_id, now).pending),
{
    if pending.len() >= MAX_INFLIGHT_PROXIES {
        lemma_lowest(pending, 0);
    }
}

/// Some pending request has the lowest ID.
pub proof fn lemma_lowest(pending: Pending, from: u64)
    requires
        pending.dom().finite(),
        pending.len() > 0,
        forall|k: u64| #[trigger] pending.contains_key(k) ==> k >= from,
    ensures
        exists|id: u64| is_lowest(pending, id),
    decreases u64::MAX - from,
{
    if pending.contains_key(from) {
        assert(is_lowest(pending, from));
    } else if from < u64::MAX {
        lemma_lowest(pending, (from + 1) as u64);
    } else {
        assert(pending.dom() =~= Set::empty());
    }
}

/// Proxying is transparent to clients: where a follower forwarded a client's request, the
/// leader's answer to what was forwarded goes to that client, as an answer to what it asked.
/// Meanwhile, the request stays pending, unless too many newer ones came.
pub proof fn proxying_is_transparent<K, V>(
    node: Node<Cmd<K, V>>,
    pending: Pending,
    client: Seq<char>,
    request: ClientMsg<K, V>,
    forward_id: u64,
    later: Node<Cmd<K, V>>,
    still_pending: Pending,
    leader: Seq<char>,
    answer: ClientMsg<K, V>,
    answer_id: u64,
    now: u64,
    later_on: u64,
)
    requires
        request.is_request(),
        node.part == (Part::Follower { leader: Some(leader) }),
        client_heard(node, pending, client, request, forward_id, now).pending.contains_key(
            forward_id,
        ) ==> still_pending.contains_key(forward_id) && still_pending[forward_id]
            == client_heard(node, pending, client, request, forward_id, now).pending[forward_id],
        answer.answered() == Some(forward_id),
    ensures
        client_heard(node, pending, client, request, forward_id, now).reply == Some(
            (leader, request.with_id(forward_id)),
        ),
        ({
            let outcome = client_heard(
                later,
                still_pending,
                leader,
                answer,
                answer_id,
                later_on,
            );
            &&& outcome.reply is Some
            &&& outcome.reply->Some_0.0 == client
            &&& outcome.reply->Some_0.1.answered() == Some(request.id())
            &&& !outcome.pending.contains_key(forward_id)
        }),
{
}

} // verus!
