//! What clients get: whom a request goes to, what is done about it, and what is answered.
use crate::assoc::{lookup, lookup_after_put};
use crate::datum::Datum;
use crate::kv::{Holds, Store};
use crate::raft::command::{command_for, Cmd, Op};
use crate::raft::engine::{client_heard, kept};
use crate::raft::machine::StateMachine;
use crate::raft::model::{Node, Part};
use crate::raft::progress::{carries, has_mail, peers_get_what_they_lack};
use crate::raft::proxy::{is_lowest, Pending};
use crate::raft::rpc::ClientMsg;
use crate::raft::{ELECTION_TIMEOUT, HEARTBEAT_INTERVAL, MAX_INFLIGHT_PROXIES, MIN_REPLICATION_INTERVAL};
use vstd::prelude::*;

verus! {

/// Two answers say the same: they are of the same kind, with the same value, or the same error.
pub open spec fn says_the_same<K, V>(a: ClientMsg<K, V>, b: ClientMsg<K, V>) -> bool {
    match (a, b) {
        (ClientMsg::ReadResponse { value: x, .. }, ClientMsg::ReadResponse { value: y, .. }) => x
            == y,
        (ClientMsg::WriteResponse { .. }, ClientMsg::WriteResponse { .. }) => true,
        (ClientMsg::CASResponse { .. }, ClientMsg::CASResponse { .. }) => true,
        (
            ClientMsg::ErrorResponse { code: c, text: s, .. },
            ClientMsg::ErrorResponse { code: d, text: t, .. },
        ) => c == d && s == t,
        _ => false,
    }
}

/// The IDs of an answer: what it answers, and its own.
pub open spec fn answer_ids<K, V>(m: ClientMsg<K, V>) -> Option<(u64, u64)> {
    match m {
        ClientMsg::ReadResponse { in_reply_to, id, .. } => Some((in_reply_to, id)),
        ClientMsg::WriteResponse { in_reply_to, id } => Some((in_reply_to, id)),
        ClientMsg::CASResponse { in_reply_to, id } => Some((in_reply_to, id)),
        ClientMsg::ErrorResponse { in_reply_to, id, .. } => Some((in_reply_to, id)),
        _ => None,
    }
}

/// Two requests ask the same: they are of the same kind, with the same key and values.
pub open spec fn asks_the_same<K, V>(a: ClientMsg<K, V>, b: ClientMsg<K, V>) -> bool {
    match (a, b) {
        (ClientMsg::ReadRequest { key: k, .. }, ClientMsg::ReadRequest { key: l, .. }) => k == l,
        (
            ClientMsg::WriteRequest { key: k, value: x, .. },
            ClientMsg::WriteRequest { key: l, value: y, .. },
        ) => k == l && x == y,
        (
            ClientMsg::CASRequest { key: k, from: f, to: x, .. },
            ClientMsg::CASRequest { key: l, from: g, to: y, .. },
        ) => k == l && f == g && x == y,
        _ => false,
    }
}

/// The ID of a request.
pub open spec fn request_id<K, V>(m: ClientMsg<K, V>) -> Option<u64> {
    match m {
        ClientMsg::ReadRequest { id, .. } => Some(id),
        ClientMsg::WriteRequest { id, .. } => Some(id),
        ClientMsg::CASRequest { id, .. } => Some(id),
        _ => None,
    }
}

/// Proxying keeps the answer: a client that waits gets what the leader said, as the answer to
/// what the client asked, whoever the node is by now. Nobody else stops waiting. An answer that
/// nobody waits for changes nothing, and goes nowhere.
pub proof fn clients_get_what_the_leader_said<K, V>(
    node: Node<Cmd<K, V>>,
    pending: Pending,
    from: Seq<char>,
    answer: ClientMsg<K, V>,
    response_id: u64,
    now: u64,
)
    requires
        answer_ids(answer) is Some,
    ensures
        ({
            let after = client_heard(node, pending, from, answer, response_id, now);
            let forwarded = answer_ids(answer)->Some_0.0;
            &&& after.node == node
            &&& after.mail.len() == 0
            &&& if pending.contains_key(forwarded) {
                let (asked, client) = pending[forwarded];
                &&& after.reply matches Some((to, said))
                &&& to == client
                &&& says_the_same(said, answer)
                &&& answer_ids(said) == Some((asked, asked))
                &&& after.pending == pending.remove(forwarded)
            } else {
                after.reply is None && after.pending == pending
            }
        }),
{
}

/// A follower passes a request on to the leader that it knows: the very same request, but for
/// the ID. It remembers who asked, and under which ID. Those who wait keep waiting, but for the
/// one that waits the longest, if there are too many.
pub proof fn followers_pass_requests_on<K, V>(
    node: Node<Cmd<K, V>>,
    pending: Pending,
    client: Seq<char>,
    request: ClientMsg<K, V>,
    response_id: u64,
    now: u64,
    leader: Seq<char>,
    other: u64,
)
    requires
        request_id(request) is Some,
        node.part == (Part::Follower { leader: Some(leader) }),
        pending.dom().finite(),
        !pending.contains_key(response_id),
        pending.contains_key(other),
    ensures
        ({
            let after = client_heard(node, pending, client, request, response_id, now);
            &&& after.node == node
            &&& after.mail.len() == 0
            &&& after.reply matches Some((to, asked))
            &&& to == leader
            &&& asks_the_same(asked, request)
            &&& request_id(asked) == Some(response_id)
            &&& after.pending.contains_key(response_id)
            &&& after.pending[response_id] == (request_id(request)->Some_0, client)
            &&& pending.len() < MAX_INFLIGHT_PROXIES || (exists|k: u64|
                k < other && pending.contains_key(k)) ==> after.pending.contains_key(other)
                && after.pending[other] == pending[other]
        }),
{
    if pending.len() >= MAX_INFLIGHT_PROXIES {
        if exists|k: u64| k < other && pending.contains_key(k) {
            let k = choose|k: u64| k < other && pending.contains_key(k);
            crate::raft::engine::lemma_lowest(pending, 0);
            let id = choose|id: u64| is_lowest(pending, id);
            assert(is_lowest(pending, id));
            assert(id <= k);
        }
    }
}

/// A leader puts a request behind its log, as an entry of its term that says what to do, and
/// whom to answer. There is no answer yet, and nobody waits elsewhere.
pub proof fn leaders_log_requests<K, V>(
    node: Node<Cmd<K, V>>,
    pending: Pending,
    client: Seq<char>,
    request: ClientMsg<K, V>,
    response_id: u64,
    now: u64,
)
    requires
        node.valid(),
        node.is_leader(),
        request_id(request) is Some,
    ensures
        ({
            let after = client_heard(node, pending, client, request, response_id, now);
            let last = after.node.log.len() - 1;
            let cmd = after.node.log[last].cmd;
            &&& after.reply is None
            &&& after.pending == pending
            &&& after.node.is_leader() && after.node.term == node.term && after.node.commit
                == node.commit
            &&& last == node.log.len()
            &&& after.node.log.take(last) == node.log
            &&& after.node.log[last].term == node.term
            &&& cmd.client == Some(client)
            &&& cmd.response_id == Some(response_id)
            &&& cmd.in_reply_to == request_id(request)
            &&& match request {
                ClientMsg::ReadRequest { key, .. } => cmd.inner == (Op::<K, V>::Read { key }),
                ClientMsg::WriteRequest { key, value, .. } => cmd.inner == (Op::Write {
                    key,
                    value,
                }),
                ClientMsg::CASRequest { key, from, to, .. } => cmd.inner == (Op::CAS {
                    key,
                    from,
                    to,
                }),
                _ => false,
            }
        }),
{
    let n = node.appended(command_for(client, response_id, request));
    assert(n.valid());
    crate::raft::laws::lemma_replicated(n, now);
    assert(n.log.take(node.log.len() as int) =~= node.log);
}

/// A node that neither leads nor knows who does says so at once, with an error that invites to
/// ask again, and does nothing else.
pub proof fn requests_without_a_leader_are_refused<K, V>(
    node: Node<Cmd<K, V>>,
    pending: Pending,
    client: Seq<char>,
    request: ClientMsg<K, V>,
    response_id: u64,
    now: u64,
)
    requires
        request_id(request) is Some,
        node.part is Candidate || node.part == (Part::Follower { leader: None }),
    ensures
        ({
            let after = client_heard(node, pending, client, request, response_id, now);
            &&& after.node == node
            &&& after.pending == pending
            &&& after.mail.len() == 0
            &&& after.reply matches Some((to, said))
            &&& to == client
            &&& answer_ids(said) == Some((request_id(request)->Some_0, response_id))
            &&& said matches ClientMsg::ErrorResponse { code, text, .. } && code == 11 && text
                == "not a leader and current leader unknown"@
        }),
{
}

/// A request that is applied is answered to the client that asked, under its ID: a read with
/// the value under the key, a write always, a swap if it took place; and with an error if there
/// is no such key, or a value that was not expected.
pub proof fn applied_requests_are_answered<K: Datum, V: Datum>(
    s: Holds<K::V, V::V>,
    client: Seq<char>,
    request: ClientMsg<K::V, V::V>,
    response_id: u64,
)
    requires
        request_id(request) is Some,
    ensures
        ({
            let cmd = command_for(client, response_id, request);
            let out = <Store<K, V> as StateMachine>::applied(s, cmd).1;
            &&& out matches Some((to, said))
            &&& to == client
            &&& answer_ids(said) == Some((request_id(request)->Some_0, response_id))
            &&& match request {
                ClientMsg::ReadRequest { key, .. } => match lookup(s, key) {
                    Some(v) => said matches ClientMsg::ReadResponse { value, .. } && value == v,
                    None => said matches ClientMsg::ErrorResponse { code, text, .. } && code == 20
                        && text == "no such key"@,
                },
                ClientMsg::WriteRequest { .. } => said is WriteResponse,
                ClientMsg::CASRequest { key, from, .. } => match lookup(s, key) {
                    Some(v) => if v == from {
                        said is CASResponse
                    } else {
                        said matches ClientMsg::ErrorResponse { code, text, .. } && code == 22
                            && text == "values for key differ (found "@ + V::shown(v) + ")"@
                    },
                    None => said matches ClientMsg::ErrorResponse { code, text, .. } && code == 20
                        && text == "no such key"@,
                },
                _ => false,
            }
        }),
{
}

/// What a command leaves behind: a read, nothing else than there was; a write, the value under
/// its key; a swap, the new value where it found the expected one, and nothing else than there
/// was where it did not. Other keys are left alone.
pub proof fn commands_do_what_they_say<K: Datum, V: Datum>(
    s: Holds<K::V, V::V>,
    cmd: Cmd<K::V, V::V>,
    other: K::V,
)
    ensures
        ({
            let after = <Store<K, V> as StateMachine>::applied(s, cmd).0;
            match cmd.inner {
                Op::Read { .. } => after == s,
                Op::Write { key, value } => lookup(after, key) == Some(value) && (other != key
                    ==> lookup(after, other) == lookup(s, other)),
                Op::CAS { key, from, to } => if lookup(s, key) == Some(from) {
                    lookup(after, key) == Some(to) && (other != key ==> lookup(after, other)
                        == lookup(s, other))
                } else {
                    after == s
                },
            }
        }),
        cmd.client is None ==> <Store<K, V> as StateMachine>::applied(s, cmd).1 is None,
{
    match cmd.inner {
        Op::Write { key, value } => {
            lookup_after_put(s, key, value, key);
            lookup_after_put(s, key, value, other);
        },
        Op::CAS { key, to, .. } => {
            lookup_after_put(s, key, to, key);
            lookup_after_put(s, key, to, other);
        },
        _ => {},
    }
}

/// A fresh store has nothing under any key.
pub proof fn fresh_stores_are_empty<K: Datum, V: Datum>(key: K::V)
    ensures
        lookup(<Store<K, V> as StateMachine>::start(), key) is None,
{
}

/// A leader that did not replicate a moment ago sends a request on to its peers at once: each peer
/// whose next entry is in the log by then gets all from there on, the request last.
pub proof fn requests_are_replicated_at_once<K, V>(
    node: Node<Cmd<K, V>>,
    pending: Pending,
    client: Seq<char>,
    request: ClientMsg<K, V>,
    response_id: u64,
    now: u64,
    peer: Seq<char>,
)
    requires
        node.valid(),
        request_id(request) is Some,
        node.part matches Part::Leader { next, last_replication, .. } && (last_replication matches Some(
            last,
        ) ==> now - last >= MIN_REPLICATION_INTERVAL) && next[peer] <= node.log.len() + 1,
        node.peers.contains(peer),
    ensures
        ({
            let after = client_heard(node, pending, client, request, response_id, now);
            &&& has_mail(after.mail, peer)
            &&& forall|k: int|
                0 <= k < after.mail.len() && (#[trigger] after.mail[k]).0 == peer ==> carries(
                    after.node,
                    node.part->next[peer],
                    after.mail[k].1,
                )
        }),
{
    let n = node.appended(command_for(client, response_id, request));
    assert(n.valid());
    peers_get_what_they_lack(n, now);
    let (m, mail) = n.replicated(now);
    assert forall|k: int| 0 <= k < mail.len() && (#[trigger] mail[k]).0 == peer implies carries(
        m,
        node.part->next[peer],
        mail[k].1,
    ) by {
        assert(carries(n, n.part->next[mail[k].0], mail[k].1));
    }
}

/// What a node keeps is what it boots with: the term, the vote and the whole log.
pub proof fn nodes_boot_with_what_they_kept<C>(n: Node<C>, now: u64)
    ensures
        ({
            let k = kept(n);
            let m = Node::booted(n.id, n.peers, k.current_term, k.voted_for, k.log, now);
            m.term == n.term && m.voted_for == n.voted_for && m.log == n.log
        }),
{
}

/// A leader is heard before its followers give it up: it sends something more often than they
/// wait, and no faster than they are sent things anyway.
pub proof fn heartbeats_come_in_time()
    ensures
        2 * HEARTBEAT_INTERVAL <= ELECTION_TIMEOUT,
        10 * MIN_REPLICATION_INTERVAL <= HEARTBEAT_INTERVAL,
        MIN_REPLICATION_INTERVAL > 0,
{
}

/// Where too many wait already, the one that waits the longest is given up for the new one, and no
/// other: there are never more than there may be.
pub proof fn the_longest_wait_is_given_up<K, V>(
    node: Node<Cmd<K, V>>,
    pending: Pending,
    client: Seq<char>,
    request: ClientMsg<K, V>,
    response_id: u64,
    now: u64,
    leader: Seq<char>,
    first: u64,
)
    requires
        request_id(request) is Some,
        node.part == (Part::Follower { leader: Some(leader) }),
        pending.dom().finite(),
        pending.len() == MAX_INFLIGHT_PROXIES,
        !pending.contains_key(response_id),
        pending.contains_key(first),
        forall|k: u64| #[trigger] pending.contains_key(k) ==> first <= k,
    ensures
        ({
            let after = client_heard(node, pending, client, request, response_id, now);
            &&& !after.pending.contains_key(first)
            &&& after.pending.len() == MAX_INFLIGHT_PROXIES
            &&& forall|k: u64|
                k != first && pending.contains_key(k) ==> #[trigger] after.pending.contains_key(k)
        }),
{
    assert(is_lowest(pending, first));
    let id = choose|id: u64| is_lowest(pending, id);
    assert(is_lowest(pending, id));
    assert(id == first);
    assert(pending.remove(first).dom() =~= pending.dom().remove(first));
    let last = pending.remove(first).insert(response_id, (request_id(request)->Some_0, client));
    assert(last.dom() =~= pending.dom().remove(first).insert(response_id));
}

} // verus!
