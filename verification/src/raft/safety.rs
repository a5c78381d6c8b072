//! What holds of all that the nodes of a cluster apply.
use crate::raft::cluster::{
    excerpt, lemma_log_after, lemma_past_stays, lemma_splice, no_rival_leader, stays_sound, steps, Cluster, Letter,
};
use crate::raft::completeness::{
    all_had, had, had_at, in_order, is_orderly, leader_completeness, lemma_chronicle_source,
    lemma_had_chronicled, lemma_move, lemma_origin, lemma_prefix_of_prefix, lemma_prefixes, lemma_start_of_chronicle,
    lemma_timely, lemma_vouches_later, sealed, vouches,
};
use crate::raft::laws::{
    applied_entries_matter, can_happen, committed_is_on_majority, happened, having, leader_appends_only,
    lemma_entries_answered, lemma_leader, lemma_replicated, lemma_what_happens, stays_valid, Event,
};
use crate::raft::log::{highest, term_at, Entry};
use crate::raft::machine::StateMachine;
use crate::raft::model::{applied_all, least, majority, reach, Node, Part, Tick};
use crate::raft::rpc::RaftMsg;
use vstd::prelude::*;

verus! {

/// A peer told a leader what it has.
pub open spec fn told<C>(n: Node<C>, peer: Seq<char>, i: u64) -> Node<C> {
    Node {
        part: Part::Leader {
            next: n.part->next.insert(peer, (i + 1) as u64),
            matched: n.part->matched.insert(peer, Some(i)),
            last_replication: n.part->last_replication,
        },
        ..n
    }
}

/// The index in front of one, if there is one.
spec fn one_lower(i: u64) -> u64 {
    if i <= 1 {
        1
    } else {
        (i - 1) as u64
    }
}

/// How a node comes to lead, or goes on to.
proof fn lemma_leading<C>(n: Node<C>, e: Event<C>, t: Tick)
    requires
        n.valid(),
        can_happen(n, e, t),
        happened(n, e, t).0.is_leader(),
    ensures
        ({
            let m = happened(n, e, t).0;
            ||| {
                &&& n.part is Candidate
                &&& m.log == n.log
                &&& m.commit == n.commit
                &&& n.log.len() < u64::MAX
                &&& forall|p: Seq<char>| #[trigger]
                    m.part->next.contains_key(p) ==> m.part->next[p] == n.log.len() + 1
                &&& forall|p: Seq<char>| #[trigger]
                    m.part->matched.contains_key(p) ==> m.part->matched[p] is None
            }
            ||| {
                &&& n.is_leader()
                &&& m.part->next == n.part->next
                &&& m.part->matched == n.part->matched
                &&& m.commit == n.commit
            }
            ||| {
                &&& n.is_leader()
                &&& e matches Event::Arrival { from, .. }
                &&& n.part->next.contains_key(from)
                &&& m.part->next == n.part->next.insert(from, one_lower(n.part->next[from]))
                &&& m.part->matched == n.part->matched
                &&& m.commit == n.commit
            }
            ||| {
                &&& n.is_leader()
                &&& e matches Event::Arrival {
                    from,
                    msg: RaftMsg::AppendEntriesResponse {
                        current_term,
                        success: true,
                        index: Some(i),
                    },
                }
                &&& current_term <= n.term
                &&& i < u64::MAX
                &&& n.part->next.contains_key(from)
                &&& m == told(n, from, i).committed()
            }
        }),
{
    match e {
        Event::Replication => lemma_replicated(n, t.now),
        Event::Request { cmd } => {
            assert(n.appended(cmd).valid());
            lemma_replicated(n.appended(cmd), t.now);
        },
        Event::Arrival { from, msg } => {
            let seen = n.seen_term(msg.term(), t);
            assert(seen.valid());
            match msg {
                RaftMsg::RequestVoteResponse { term, vote_granted } => {
                    if let Part::Candidate { votes } = seen.part {
                        let votes = votes.insert(from);
                        let won = Node { part: Part::Candidate { votes }, ..seen };
                        assert(won.valid());
                        lemma_leader(won);
                        lemma_replicated(won.leader(), t.now);
                    }
                },
                RaftMsg::AppendEntriesResponse { index, success, .. } => {
                    assert(seen == n);
                    if let Part::Leader { next, matched, last_replication } = n.part {
                        if next.contains_key(from) && !success {
                            let after = Node {
                                part: Part::Leader {
                                    next: next.insert(from, one_lower(next[from])),
                                    matched,
                                    last_replication,
                                },
                                ..n
                            };
                            assert(after.part->next.dom() =~= next.dom());
                            lemma_replicated(after, t.now);
                        }
                    }
                },
                _ => {},
            }
        },
        _ => {},
    }
}

/// A node takes what a leader sends.
spec fn taken<C>(n: Node<C>, e: Event<C>, m: Node<C>) -> bool {
    match e {
        Event::Arrival {
            msg: RaftMsg::AppendEntries { term, prev_log_index, prev_log_term, entries, .. },
            ..
        } => {
            &&& m.term == term
            &&& m.log == n.spliced(prev_log_index, entries)
            &&& term_at(n.log, prev_log_index) == prev_log_term
            &&& prev_log_index != Some(u64::MAX)
        },
        _ => false,
    }
}

/// A node that does not lead commits only what it is told by the leader whose entries it
/// takes.
proof fn lemma_commits<C>(n: Node<C>, e: Event<C>, t: Tick)
    requires
        n.valid(),
        can_happen(n, e, t),
    ensures
        ({
            let m = happened(n, e, t).0;
            ||| m.is_leader()
            ||| m.commit == n.commit
            ||| m.commit is None
            ||| {
                &&& taken(n, e, m)
                &&& m.commit == least(e->msg->AppendEntries_commit_index, highest(m.log))
                &&& happened(n, e, t).1 == seq![
                    (
                        e->from,
                        RaftMsg::<C>::AppendEntriesResponse {
                            current_term: m.term,
                            index: highest(m.log),
                            success: true,
                        },
                    ),
                ]
            }
        }),
{
    match e {
        Event::Replication => lemma_replicated(n, t.now),
        Event::Request { cmd } => {
            assert(n.appended(cmd).valid());
            lemma_replicated(n.appended(cmd), t.now);
        },
        Event::Arrival { from, msg } => {
            let seen = n.seen_term(msg.term(), t);
            assert(seen.valid());
            match msg {
                RaftMsg::RequestVoteResponse { term, vote_granted } => {
                    if let Part::Candidate { votes } = seen.part {
                        let votes = votes.insert(from);
                        let won = Node { part: Part::Candidate { votes }, ..seen };
                        assert(won.valid());
                        lemma_leader(won);
                        lemma_replicated(won.leader(), t.now);
                    }
                },
                RaftMsg::AppendEntriesResponse { index, success, .. } => {
                    lemma_entries_answered(seen, from, success, index, t);
                },
                _ => {},
            }
        },
        _ => {},
    }
}

/// A node tells of success only if it took what a leader sent, and tells what it has.
proof fn lemma_success<C>(n: Node<C>, e: Event<C>, t: Tick, k: int)
    requires
        n.valid(),
        can_happen(n, e, t),
        0 <= k < happened(n, e, t).1.len(),
        happened(n, e, t).1[k].1 matches RaftMsg::AppendEntriesResponse { success: true, .. },
    ensures
        ({
            let (m, mail) = happened(n, e, t);
            &&& taken(n, e, m)
            &&& mail[k].1 == RaftMsg::<C>::AppendEntriesResponse {
                current_term: m.term,
                index: highest(m.log),
                success: true,
            }
        }),
{
    let mail = happened(n, e, t).1;
    match e {
        Event::Replication => lemma_replicated(n, t.now),
        Event::Request { cmd } => {
            assert(n.appended(cmd).valid());
            lemma_replicated(n.appended(cmd), t.now);
        },
        Event::Arrival { from, msg } => {
            let seen = n.seen_term(msg.term(), t);
            assert(seen.valid());
            match msg {
                RaftMsg::RequestVoteResponse { term, vote_granted } => {
                    if let Part::Candidate { votes } = seen.part {
                        let votes = votes.insert(from);
                        let won = Node { part: Part::Candidate { votes }, ..seen };
                        assert(won.valid());
                        lemma_leader(won);
                        lemma_replicated(won.leader(), t.now);
                    }
                },
                RaftMsg::AppendEntriesResponse { index, success, .. } => {
                    lemma_entries_answered(seen, from, success, index, t);
                },
                _ => {},
            }
        },
        _ => {},
    }
    assert(mail[k].1 is AppendEntriesResponse);
}

/// What a leader assumes of what its peers lack is within its log.
pub open spec fn nexts_in_log<C>(c: Cluster<C>) -> bool {
    forall|id: Seq<char>, p: Seq<char>| #[trigger]
        c.nodes.contains_key(id) && c.nodes[id].is_leader() && #[trigger] c.nodes[id].part->next.contains_key(
            p,
        ) ==> 1 <= c.nodes[id].part->next[p] <= c.nodes[id].log.len() + 1
}

/// What leaders send, heartbeats too, is out of their logs.
pub open spec fn sent_from_logs<C>(c: Cluster<C>) -> bool {
    forall|l: Letter<C>| #[trigger]
        c.sent.contains(l) ==> (l.msg matches RaftMsg::AppendEntries {
            term,
            prev_log_index,
            prev_log_term,
            entries,
            ..
        } ==> c.chronicle.contains_key(term) && excerpt(
            c.chronicle[term],
            prev_log_index,
            prev_log_term,
            entries,
        ))
}

/// Whoever tells of success had what it tells of.
pub open spec fn success_earned<C>(h: Seq<Cluster<C>>, i: int) -> bool {
    forall|l: Letter<C>| #[trigger]
        h[i].sent.contains(l) ==> (l.msg matches RaftMsg::AppendEntriesResponse {
            current_term,
            index,
            success: true,
        } ==> {
            &&& h[i].chronicle.contains_key(current_term)
            &&& reach(index) <= h[i].chronicle[current_term].len()
            &&& had(
                h,
                i,
                l.from,
                current_term,
                h[i].chronicle[current_term].take(reach(index) as int),
            )
        })
}

/// What leaders know that their peers have, these had.
pub open spec fn matches_true<C>(h: Seq<Cluster<C>>, i: int) -> bool {
    forall|id: Seq<char>, p: Seq<char>| #[trigger]
        h[i].nodes.contains_key(id) && h[i].nodes[id].is_leader()
            && #[trigger] h[i].nodes[id].part->matched.contains_key(p)
            && h[i].nodes[id].part->matched[p] is Some ==> {
            let n = h[i].nodes[id];
            let k = n.part->matched[p]->Some_0 as int;
            &&& k <= n.log.len()
            &&& had(h, i, p, n.term, n.log.take(k))
        }
}

/// The entries of a log up to an index are among entries that are sealed in a term.
pub open spec fn settled_by<C>(
    h: Seq<Cluster<C>>,
    i: int,
    log: Seq<Entry<C>>,
    index: Option<u64>,
    term: u64,
    seal: Seq<Entry<C>>,
) -> bool {
    let k = reach(index) as int;
    &&& sealed(h, i, term, seal)
    &&& k <= seal.len()
    &&& k <= log.len()
    &&& seal.take(k) == log.take(k)
}

/// The entries of a log up to an index are among entries that are sealed, in a term that is
/// not beyond a given one.
pub open spec fn settled<C>(
    h: Seq<Cluster<C>>,
    i: int,
    log: Seq<Entry<C>>,
    index: Option<u64>,
    top: u64,
) -> bool {
    index is None || (index != Some(0u64) && exists|term: u64, seal: Seq<Entry<C>>|
        term <= top && #[trigger] settled_by(h, i, log, index, term, seal))
}

/// All that a node commits is settled, and the node vouches for it.
pub open spec fn commit_settled<C>(h: Seq<Cluster<C>>, i: int, n: Node<C>) -> bool {
    &&& settled(h, i, n.log, n.commit, n.term)
    &&& n.commit is Some ==> vouches(h[i], n.id, reach(n.commit) as int)
}

/// All that nodes commit is settled, and all that leaders tell to be.
pub open spec fn commits_settled<C>(h: Seq<Cluster<C>>, i: int) -> bool {
    &&& forall|id: Seq<char>| #[trigger]
        h[i].nodes.contains_key(id) ==> commit_settled(h, i, h[i].nodes[id])
    &&& forall|l: Letter<C>| #[trigger]
        h[i].sent.contains(l) ==> (l.msg matches RaftMsg::AppendEntries { term, commit_index, .. }
            ==> settled(h, i, h[i].chronicle[term], commit_index, term))
}

/// What holds of an orderly history at all times.
pub open spec fn orderly_at<C>(h: Seq<Cluster<C>>, i: int) -> bool {
    &&& nexts_in_log(h[i])
    &&& sent_from_logs(h[i])
    &&& success_earned(h, i)
    &&& matches_true(h, i)
    &&& commits_settled(h, i)
}

/// What a node had, it had at any later time.
proof fn lemma_had_later<C>(
    h: Seq<Cluster<C>>,
    i: int,
    j: int,
    id: Seq<char>,
    term: u64,
    log: Seq<Entry<C>>,
    less: Seq<Entry<C>>,
)
    requires
        is_orderly(h),
        0 <= i <= j < h.len(),
        had(h, i, id, term, log),
        less.is_prefix_of(log),
    ensures
        had(h, j, id, term, less),
{
    let k = choose|k: int| 0 <= k <= i && #[trigger] had_at(h, k, id, term, log);
    assert(had_at(h, k, id, term, log));
    lemma_vouches_later(h, k, k, id, log.len() as int, less.len() as int);
    lemma_prefix_of_prefix(less, log, h[k].nodes[id].log);
    assert(had_at(h, k, id, term, less));
}

/// What is sealed stays so.
proof fn lemma_sealed_later<C>(h: Seq<Cluster<C>>, i: int, j: int, term: u64, log: Seq<Entry<C>>)
    requires
        is_orderly(h),
        0 <= i <= j < h.len(),
        sealed(h, i, term, log),
    ensures
        sealed(h, j, term, log),
{
    let ids = choose|ids: Set<Seq<char>>|
        {
            &&& #[trigger] all_had(h, i, ids, term, log)
            &&& ids.len() >= majority((h[0].nodes.dom().len() - 1) as nat)
            &&& ids.subset_of(h[0].nodes.dom())
        };
    assert(all_had(h, i, ids, term, log));
    assert(log =~= log.subrange(0, log.len() as int));
    assert forall|id: Seq<char>| #[trigger] ids.contains(id) implies had(h, j, id, term, log) by {
        lemma_had_later(h, i, j, id, term, log, log);
    }
    assert(all_had(h, j, ids, term, log));
}

/// What is settled stays so, also in a log that goes on, and for a lower index.
proof fn lemma_settled_later<C>(
    h: Seq<Cluster<C>>,
    i: int,
    j: int,
    log: Seq<Entry<C>>,
    index: Option<u64>,
    top: u64,
    log2: Seq<Entry<C>>,
    index2: Option<u64>,
    top2: u64,
)
    requires
        is_orderly(h),
        0 <= i <= j < h.len(),
        settled(h, i, log, index, top),
        reach(index2) <= reach(index),
        index2 != Some(0u64),
        reach(index2) <= log.len() ==> log.take(reach(index2) as int).is_prefix_of(log2),
        top <= top2,
    ensures
        settled(h, j, log2, index2, top2),
{
    if reach(index2) > 0 {
        let (term, seal) = choose|term: u64, seal: Seq<Entry<C>>|
            term <= top && #[trigger] settled_by(h, i, log, index, term, seal);
        assert(settled_by(h, i, log, index, term, seal));
        lemma_sealed_later(h, i, j, term, seal);
        let (k, k2) = (reach(index) as int, reach(index2) as int);
        assert(log2.take(k2) =~= log.take(k2));
        assert(seal.take(k2) =~= seal.take(k).take(k2));
        assert(log.take(k2) =~= log.take(k).take(k2));
        assert(settled_by(h, j, log2, index2, term, seal));
    }
}

/// What is told to a leader in its term is true of its log.
proof fn lemma_told<C>(
    h: Seq<Cluster<C>>,
    k: int,
    who: Seq<char>,
    e: Event<C>,
    t: Tick,
)
    requires
        is_orderly(h),
        0 <= k < h.len() - 1,
        orderly_at(h, k),
        steps(h[k], h[k + 1], who, e, t),
        in_order(h[k], who, e, t),
        happened(h[k].nodes[who], e, t).0.is_leader(),
        h[k].nodes[who].is_leader(),
    ensures
        e matches Event::Arrival {
            from,
            msg: RaftMsg::AppendEntriesResponse { current_term, success: true, index: Some(i) },
        } ==> current_term <= h[k].nodes[who].term ==> {
            let n = h[k].nodes[who];
            &&& i <= n.log.len()
            &&& had(h, k, from, n.term, n.log.take(i as int))
        },
{
    stays_sound(h, k);
    if let Event::Arrival { from, msg } = e {
        assert(h[k].sent.contains(Letter { from, to: who, msg }));
    }
}

proof fn lemma_nexts_step<C>(
    h: Seq<Cluster<C>>,
    k: int,
    who: Seq<char>,
    e: Event<C>,
    t: Tick,
)
    requires
        is_orderly(h),
        0 <= k < h.len() - 1,
        orderly_at(h, k),
        steps(h[k], h[k + 1], who, e, t),
        in_order(h[k], who, e, t),
    ensures
        nexts_in_log(h[k + 1]),
{
    let (c, d) = (h[k], h[k + 1]);
    let n = c.nodes[who];
    stays_sound(h, k);
    stays_sound(h, k + 1);
    lemma_what_happens(n, e, t);
    lemma_past_stays(h, k, k + 1);
    assert forall|id: Seq<char>, p: Seq<char>| #[trigger]
        d.nodes.contains_key(id) && d.nodes[id].is_leader()
            && #[trigger] d.nodes[id].part->next.contains_key(p) implies 1
        <= d.nodes[id].part->next[p] <= d.nodes[id].log.len() + 1 by {
        if id != who {
            assert(c.nodes.contains_key(id));
            assert(c.nodes[id].part->next.contains_key(p));
        } else {
            lemma_leading(n, e, t);
            if n.is_leader() {
                leader_appends_only(n, e, t);
                lemma_told(h, k, who, e, t);
                assert(c.nodes.contains_key(id));
                assert(n.part->next.contains_key(p) ==> 1 <= n.part->next[p] <= n.log.len() + 1);
                if let Event::Arrival { from, .. } = e {
                    assert(n.part->next.contains_key(from) ==> 1 <= n.part->next[from]
                        <= n.log.len() + 1);
                }
            }
        }
    }
}

proof fn lemma_sent_step<C>(
    h: Seq<Cluster<C>>,
    k: int,
    who: Seq<char>,
    e: Event<C>,
    t: Tick,
)
    requires
        is_orderly(h),
        0 <= k < h.len() - 1,
        orderly_at(h, k),
        steps(h[k], h[k + 1], who, e, t),
        in_order(h[k], who, e, t),
        nexts_in_log(h[k + 1]),
    ensures
        sent_from_logs(h[k + 1]),
{
    let (c, d) = (h[k], h[k + 1]);
    let n = c.nodes[who];
    let (m, mail) = happened(n, e, t);
    stays_sound(h, k);
    stays_sound(h, k + 1);
    lemma_what_happens(n, e, t);
    lemma_past_stays(h, k, k + 1);
    assert forall|l: Letter<C>| #[trigger] d.sent.contains(l) implies (
    l.msg matches RaftMsg::AppendEntries { term, prev_log_index, prev_log_term, entries, .. }
        ==> d.chronicle.contains_key(term) && excerpt(
        d.chronicle[term],
        prev_log_index,
        prev_log_term,
        entries,
    )) by {
        if let RaftMsg::AppendEntries { term, prev_log_index, prev_log_term, entries, .. } = l.msg {
            let p = reach(prev_log_index) as int;
            if c.sent.contains(l) {
                let (a, b) = (c.chronicle[term], d.chronicle[term]);
                assert(c.chronicle.contains_key(term));
                assert(a =~= b.subrange(0, a.len() as int));
                assert(a.subrange(p, p + entries.len()) =~= b.subrange(p, p + entries.len()));
            } else {
                let i = choose|i: int| 0 <= i < mail.len() && #[trigger] mail[i] == (l.to, l.msg);
                assert(mail[i] == (l.to, l.msg));
                let next = m.part->next[l.to];
                assert(m.peers.to_set().contains(l.to));
                assert(d.nodes.contains_key(who));
                assert(m.valid());
                assert(d.nodes[who].part->next.contains_key(l.to));
                assert(1 <= next <= m.log.len() + 1);
                assert(l.msg == m.replication(next));
                assert(d.chronicle[term] == m.log);
                assert(entries =~= m.log.subrange(p, p + entries.len()));
            }
        }
    }
}

/// What a node takes makes its log a part of the leader's.
proof fn lemma_taken<C>(
    h: Seq<Cluster<C>>,
    k: int,
    who: Seq<char>,
    e: Event<C>,
    t: Tick,
)
    requires
        is_orderly(h),
        0 <= k < h.len() - 1,
        orderly_at(h, k),
        steps(h[k], h[k + 1], who, e, t),
        in_order(h[k], who, e, t),
        taken(h[k].nodes[who], e, happened(h[k].nodes[who], e, t).0),
    ensures
        ({
            let (n, m) = (h[k].nodes[who], happened(h[k].nodes[who], e, t).0);
            &&& m.log.is_prefix_of(h[k].chronicle[m.term])
            &&& h[k].chronicle.contains_key(m.term)
            &&& m.log.len() <= u64::MAX
        }),
{
    let (c, d) = (h[k], h[k + 1]);
    let n = c.nodes[who];
    let m = happened(n, e, t).0;
    stays_sound(h, k);
    stays_sound(h, k + 1);
    lemma_what_happens(n, e, t);
    lemma_past_stays(h, k, k + 1);
    lemma_timely(h, k + 1);
    assert(d.nodes.contains_key(who));
    if let Event::Arrival { from, msg } = e {
        if let RaftMsg::AppendEntries { term, prev_log_index, prev_log_term, entries, .. } = msg {
            assert(c.sent.contains(Letter { from, to: who, msg }));
            lemma_splice(c, n, c.chronicle[term], prev_log_index, prev_log_term, entries);
        }
    }
}

proof fn lemma_success_step<C>(
    h: Seq<Cluster<C>>,
    k: int,
    who: Seq<char>,
    e: Event<C>,
    t: Tick,
)
    requires
        is_orderly(h),
        0 <= k < h.len() - 1,
        orderly_at(h, k),
        steps(h[k], h[k + 1], who, e, t),
        in_order(h[k], who, e, t),
    ensures
        success_earned(h, k + 1),
{
    let (c, d) = (h[k], h[k + 1]);
    let n = c.nodes[who];
    let (m, mail) = happened(n, e, t);
    stays_sound(h, k);
    stays_sound(h, k + 1);
    lemma_what_happens(n, e, t);
    lemma_past_stays(h, k, k + 1);
    assert forall|l: Letter<C>| #[trigger] d.sent.contains(l) implies (
    l.msg matches RaftMsg::AppendEntriesResponse { current_term, index, success: true } ==> {
        &&& d.chronicle.contains_key(current_term)
        &&& reach(index) <= d.chronicle[current_term].len()
        &&& had(
            h,
            k + 1,
            l.from,
            current_term,
            d.chronicle[current_term].take(reach(index) as int),
        )
    }) by {
        if let RaftMsg::AppendEntriesResponse { current_term, index, success: true } = l.msg {
            let i = reach(index) as int;
            if c.sent.contains(l) {
                let (a, b) = (c.chronicle[current_term], d.chronicle[current_term]);
                assert(c.chronicle.contains_key(current_term));
                assert(a =~= b.subrange(0, a.len() as int));
                assert(a.take(i) =~= b.take(i));
                assert(a.take(i) =~= a.take(i).subrange(0, i));
                lemma_had_later(h, k, k + 1, l.from, current_term, a.take(i), a.take(i));
            } else {
                let j = choose|j: int| 0 <= j < mail.len() && #[trigger] mail[j] == (l.to, l.msg);
                assert(mail[j] == (l.to, l.msg));
                lemma_success(n, e, t, j);
                lemma_taken(h, k, who, e, t);
                assert(c.chronicle.contains_key(m.term));
                lemma_prefix_of_prefix(m.log, c.chronicle[m.term], d.chronicle[m.term]);
                assert(m.log =~= d.chronicle[m.term].take(i));
                assert(m.log =~= m.log.subrange(0, m.log.len() as int));
                assert(vouches(d, who, m.log.len() as int));
                assert(had_at(h, k + 1, who, m.term, m.log));
            }
        }
    }
}

proof fn lemma_matches_step<C>(
    h: Seq<Cluster<C>>,
    k: int,
    who: Seq<char>,
    e: Event<C>,
    t: Tick,
)
    requires
        is_orderly(h),
        0 <= k < h.len() - 1,
        orderly_at(h, k),
        steps(h[k], h[k + 1], who, e, t),
        in_order(h[k], who, e, t),
    ensures
        matches_true(h, k + 1),
{
    let (c, d) = (h[k], h[k + 1]);
    let n = c.nodes[who];
    stays_sound(h, k);
    stays_sound(h, k + 1);
    lemma_what_happens(n, e, t);
    lemma_past_stays(h, k, k + 1);
    assert forall|id: Seq<char>, p: Seq<char>| #[trigger]
        d.nodes.contains_key(id) && d.nodes[id].is_leader()
            && #[trigger] d.nodes[id].part->matched.contains_key(p)
            && d.nodes[id].part->matched[p] is Some implies {
        let n = d.nodes[id];
        let i = n.part->matched[p]->Some_0 as int;
        &&& i <= n.log.len()
        &&& had(h, k + 1, p, n.term, n.log.take(i))
    } by {
        let i = d.nodes[id].part->matched[p]->Some_0 as int;
        let log = d.nodes[id].log;
        if id != who {
            assert(c.nodes.contains_key(id));
            assert(c.nodes[id].part->matched.contains_key(p));
            assert(log.take(i) =~= log.take(i).subrange(0, i));
            lemma_had_later(h, k, k + 1, p, d.nodes[id].term, log.take(i), log.take(i));
        } else {
            lemma_leading(n, e, t);
            if n.is_leader() {
                leader_appends_only(n, e, t);
                lemma_told(h, k, who, e, t);
                assert(c.nodes.contains_key(id));
                assert(n.part->matched.contains_key(p) && n.part->matched[p] is Some ==> {
                    let j = n.part->matched[p]->Some_0 as int;
                    &&& j <= n.log.len()
                    &&& had(h, k, p, n.term, n.log.take(j))
                });
                assert(i <= n.log.len() && had(h, k, p, n.term, n.log.take(i)));
                assert(n.log =~= log.subrange(0, n.log.len() as int));
                assert(log.take(i) =~= n.log.take(i));
                assert(log.take(i) =~= log.take(i).subrange(0, i));
                lemma_had_later(h, k, k + 1, p, n.term, log.take(i), log.take(i));
            }
        }
    }
}

/// What is sealed is in the chronicles of its term and of all later ones.
proof fn lemma_sealed_chronicled<C>(
    h: Seq<Cluster<C>>,
    i: int,
    term: u64,
    seal: Seq<Entry<C>>,
    j: int,
    u: u64,
)
    requires
        is_orderly(h),
        0 <= i <= j < h.len(),
        sealed(h, i, term, seal),
        term <= u,
        u > term ==> h[j].chronicle.contains_key(u),
    ensures
        h[j].chronicle.contains_key(u),
        seal.is_prefix_of(h[j].chronicle[u]),
{
    if u == term {
        let ids = choose|ids: Set<Seq<char>>|
            {
                &&& #[trigger] all_had(h, i, ids, term, seal)
                &&& ids.len() >= majority((h[0].nodes.dom().len() - 1) as nat)
                &&& ids.subset_of(h[0].nodes.dom())
            };
        assert(all_had(h, i, ids, term, seal));
        assert(ids.len() > 0);
        let id = ids.choose();
        assert(ids.contains(id)) by {
            vstd::set_lib::lemma_len_subset(ids, h[0].nodes.dom());
        }
        assert(seal =~= seal.subrange(0, seal.len() as int));
        lemma_had_later(h, i, j, id, term, seal, seal);
        lemma_had_chronicled(h, j, id, term, seal);
    } else {
        let (y, l) = lemma_chronicle_source(h, j, u);
        leader_completeness(h, i, term, seal, y, l, u);
    }
}

/// A node keeps what it committed.
proof fn lemma_commit_kept<C>(
    h: Seq<Cluster<C>>,
    k: int,
    who: Seq<char>,
    e: Event<C>,
    t: Tick,
)
    requires
        is_orderly(h),
        0 <= k < h.len() - 1,
        orderly_at(h, k),
        steps(h[k], h[k + 1], who, e, t),
        in_order(h[k], who, e, t),
        happened(h[k].nodes[who], e, t).0.commit == h[k].nodes[who].commit,
        !happened(h[k].nodes[who], e, t).0.is_leader(),
    ensures
        ({
            let m = happened(h[k].nodes[who], e, t).0;
            commit_settled(h, k + 1, m)
        }),
{
    let c = h[k];
    let n = c.nodes[who];
    let m = happened(n, e, t).0;
    stays_sound(h, k);
    stays_sound(h, k + 1);
    lemma_what_happens(n, e, t);
    lemma_past_stays(h, k, k + 1);
    lemma_log_after(n, e, t);
    stays_valid(n, e, t);
    assert(commit_settled(h, k, n));
    let r = reach(n.commit) as int;
    if r > 0 {
        lemma_vouches_later(h, k, k + 1, who, r, r);
        let (term, seal) = choose|term: u64, seal: Seq<Entry<C>>|
            term <= n.term && #[trigger] settled_by(h, k, n.log, n.commit, term, seal);
        assert(settled_by(h, k, n.log, n.commit, term, seal));
        if m.log == n.log {
            assert(n.log.take(r) =~= m.log.subrange(0, r));
        } else if let Event::Arrival { from, msg } = e {
            assert(c.sent.contains(Letter { from, to: who, msg }));
            assert(c.reigns.contains((m.term, from)));
            lemma_sealed_chronicled(h, k, term, seal, k, m.term);
            let all = c.chronicle[m.term];
            assert(seal =~= all.subrange(0, seal.len() as int));
            assert(all.take(r) =~= seal.take(r));
            assert(n.log.take(r) == all.take(r));
        }
        assert(n.log.take(r).is_prefix_of(m.log));
        lemma_settled_later(
            h,
            k,
            k + 1,
            n.log,
            n.commit,
            n.term,
            m.log,
            m.commit,
            m.term,
        );
    }
}

/// What a leader commits, a majority had.
proof fn lemma_leader_commits<C>(
    h: Seq<Cluster<C>>,
    k: int,
    who: Seq<char>,
    e: Event<C>,
    t: Tick,
)
    requires
        is_orderly(h),
        0 <= k < h.len() - 1,
        orderly_at(h, k),
        steps(h[k], h[k + 1], who, e, t),
        in_order(h[k], who, e, t),
        matches_true(h, k + 1),
        happened(h[k].nodes[who], e, t).0.is_leader(),
    ensures
        ({
            let m = happened(h[k].nodes[who], e, t).0;
            commit_settled(h, k + 1, m)
        }),
{
    let (c, d) = (h[k], h[k + 1]);
    let n = c.nodes[who];
    let m = happened(n, e, t).0;
    stays_sound(h, k);
    stays_sound(h, k + 1);
    lemma_what_happens(n, e, t);
    lemma_past_stays(h, k, k + 1);
    lemma_leading(n, e, t);
    stays_valid(n, e, t);
    assert(commit_settled(h, k, n));
    assert(d.reigns.contains((m.term, who)));
    if m.commit == n.commit {
        if n.is_leader() {
            leader_appends_only(n, e, t);
        } else {
            assert(n.log =~= m.log.subrange(0, n.log.len() as int));
        }
        let r = reach(n.commit) as int;
        if r <= n.log.len() {
            assert(n.log.take(r) =~= n.log.subrange(0, r));
            lemma_prefix_of_prefix(n.log.take(r), n.log, m.log);
        }
        lemma_settled_later(
            h,
            k,
            k + 1,
            n.log,
            n.commit,
            n.term,
            m.log,
            m.commit,
            m.term,
        );
    } else if let Event::Arrival {
        from,
        msg: RaftMsg::AppendEntriesResponse { index: Some(i), .. },
    } = e {
        let x = told(n, from, i);
        assert(x.part->next.dom() =~= n.part->next.dom());
        assert(x.part->matched.dom() =~= n.part->matched.dom());
        assert(x.valid());
        committed_is_on_majority(x);
        let index = m.commit->Some_0;
        let seal = m.log.take(index as int);
        let peers = having(m.part->matched, index);
        let ids = peers.insert(who);
        assert(m.part == x.part && m.log == n.log);
        assert(d.nodes.contains_key(who));
        n.peers.unique_seq_to_set();
        lemma_past_stays(h, 0, k);
        assert(c.nodes.contains_key(who));
        assert(!n.peers.to_set().contains(who));
        assert(seal =~= seal.subrange(0, seal.len() as int));
        assert forall|id: Seq<char>| #[trigger] ids.contains(id) implies had(
            h,
            k + 1,
            id,
            m.term,
            seal,
        ) by {
            if id == who {
                assert(seal =~= m.log.subrange(0, seal.len() as int));
                assert(vouches(d, who, seal.len() as int));
                assert(had_at(h, k + 1, who, m.term, seal));
            } else {
                assert(d.nodes[who].part->matched.contains_key(id));
                let j = m.part->matched[id]->Some_0 as int;
                assert(had(h, k + 1, id, m.term, m.log.take(j)));
                assert(seal =~= m.log.take(j).subrange(0, seal.len() as int));
                lemma_had_later(h, k + 1, k + 1, id, m.term, m.log.take(j), seal);
            }
        }
        assert(all_had(h, k + 1, ids, m.term, seal));
        assert(ids.subset_of(h[0].nodes.dom())) by {
            assert forall|id: Seq<char>| ids.contains(id) implies h[0].nodes.dom().contains(id) by {
                if id != who {
                    assert(n.peers.to_set().contains(id));
                }
            }
        }
        assert(n.peers.len() == h[0].nodes.dom().len() - 1);
        assert(sealed(h, k + 1, m.term, seal));
        assert(settled_by(h, k + 1, m.log, m.commit, m.term, seal));
    }
}

proof fn lemma_commits_step<C>(
    h: Seq<Cluster<C>>,
    k: int,
    who: Seq<char>,
    e: Event<C>,
    t: Tick,
)
    requires
        is_orderly(h),
        0 <= k < h.len() - 1,
        orderly_at(h, k),
        steps(h[k], h[k + 1], who, e, t),
        in_order(h[k], who, e, t),
        matches_true(h, k + 1),
    ensures
        commits_settled(h, k + 1),
{
    let (c, d) = (h[k], h[k + 1]);
    let n = c.nodes[who];
    let (m, mail) = happened(n, e, t);
    stays_sound(h, k);
    stays_sound(h, k + 1);
    lemma_what_happens(n, e, t);
    lemma_past_stays(h, k, k + 1);
    lemma_commits(n, e, t);
    stays_valid(n, e, t);
    assert(commit_settled(h, k + 1, m)) by {
        if m.is_leader() {
            lemma_leader_commits(h, k, who, e, t);
        } else if m.commit == n.commit {
            lemma_commit_kept(h, k, who, e, t);
        } else if m.commit is Some {
            lemma_taken(h, k, who, e, t);
            if let Event::Arrival { from, msg } = e {
                if let RaftMsg::AppendEntries { term, commit_index, .. } = msg {
                    assert(c.sent.contains(Letter { from, to: who, msg }));
                    let r = reach(m.commit) as int;
                    let all = c.chronicle[term];
                    assert(m.log =~= all.subrange(0, m.log.len() as int));
                    assert(all.take(r) =~= m.log.subrange(0, r));
                    assert(mail[0] == (from, mail[0].1));
                    assert(d.sent.contains(Letter { from: who, to: from, msg: mail[0].1 }));
                    assert(vouches(d, who, r));
                    lemma_settled_later(
                        h,
                        k,
                        k + 1,
                        all,
                        commit_index,
                        term,
                        m.log,
                        m.commit,
                        m.term,
                    );
                }
            }
        }
    }
    assert forall|id: Seq<char>| #[trigger] d.nodes.contains_key(id) implies commit_settled(
        h,
        k + 1,
        d.nodes[id],
    ) by {
        if id != who {
            let x = c.nodes[id];
            assert(c.nodes.contains_key(id));
            assert(commit_settled(h, k, x));
            let r = reach(x.commit) as int;
            if x.commit is Some {
                lemma_vouches_later(h, k, k + 1, id, r, r);
            }
            if r <= x.log.len() {
                assert(x.log.take(r) =~= x.log.subrange(0, r));
            }
            lemma_settled_later(
                h,
                k,
                k + 1,
                x.log,
                x.commit,
                x.term,
                x.log,
                x.commit,
                x.term,
            );
        }
    }
    assert forall|l: Letter<C>| #[trigger] d.sent.contains(l) implies (
    l.msg matches RaftMsg::AppendEntries { term, commit_index, .. } ==> settled(
        h,
        k + 1,
        d.chronicle[term],
        commit_index,
        term,
    )) by {
        if let RaftMsg::AppendEntries { term, commit_index, .. } = l.msg {
            if c.sent.contains(l) {
                let (a, b) = (c.chronicle[term], d.chronicle[term]);
                assert(c.reigns.contains((term, l.from)));
                assert(c.chronicle.contains_key(term));
                let r = reach(commit_index) as int;
                if r <= a.len() {
                    assert(a.take(r) =~= a.subrange(0, r));
                    lemma_prefix_of_prefix(a.take(r), a, b);
                }
                lemma_settled_later(
                    h,
                    k,
                    k + 1,
                    a,
                    commit_index,
                    term,
                    b,
                    commit_index,
                    term,
                );
            } else {
                let i = choose|i: int| 0 <= i < mail.len() && #[trigger] mail[i] == (l.to, l.msg);
                assert(mail[i] == (l.to, l.msg));
                assert(l.msg == m.replication(m.part->next[l.to]));
                assert(d.chronicle[term] == m.log);
            }
        }
    }
}

/// What holds of an orderly history at all times, does.
proof fn lemma_orderly_at<C>(h: Seq<Cluster<C>>, i: int)
    requires
        is_orderly(h),
        0 <= i < h.len(),
    ensures
        orderly_at(h, i),
    decreases i,
{
    if i > 0 {
        let k = i - 1;
        lemma_orderly_at(h, k);
        let (who, e, t) = lemma_move(h, k);
        lemma_nexts_step(h, k, who, e, t);
        lemma_sent_step(h, k, who, e, t);
        lemma_success_step(h, k, who, e, t);
        lemma_matches_step(h, k, who, e, t);
        lemma_commits_step(h, k, who, e, t);
        assert(h[k + 1] == h[i]);
    }
}

/// Of two seals, one is the start of the other.
proof fn lemma_seals_agree<C>(
    h: Seq<Cluster<C>>,
    i: int,
    term: u64,
    seal: Seq<Entry<C>>,
    term2: u64,
    seal2: Seq<Entry<C>>,
)
    requires
        is_orderly(h),
        0 <= i < h.len(),
        sealed(h, i, term, seal),
        sealed(h, i, term2, seal2),
        term <= term2,
    ensures
        seal.is_prefix_of(seal2) || seal2.is_prefix_of(seal),
{
    lemma_sealed_chronicled(h, i, term2, seal2, i, term2);
    let all = h[i].chronicle[term2];
    if term == term2 {
        lemma_sealed_chronicled(h, i, term, seal, i, term);
        if seal.len() <= seal2.len() {
            lemma_prefixes(seal, seal2, all);
        } else {
            lemma_prefixes(seal2, seal, all);
        }
    } else {
        let (y, l) = lemma_origin(h, i, term2);
        let first = h[y].nodes[l].log;
        leader_completeness(h, i, term, seal, y, l, term2);
        if seal2.len() <= first.len() {
            lemma_prefixes(seal2, first, all);
            assert(seal2 =~= first.subrange(0, seal2.len() as int));
            assert(first[seal2.len() - 1] == seal2.last());
        }
        lemma_prefixes(first, seal2, all);
        lemma_prefix_of_prefix(seal, first, seal2);
    }
}

/// State machine safety: if a node has applied an entry at a given index, no node will ever
/// apply a different entry for the same index. What two nodes have applied, each at some
/// time, is the same as far as both went.
pub proof fn state_machine_safety<C>(
    h: Seq<Cluster<C>>,
    i: int,
    a: Seq<char>,
    j: int,
    b: Seq<char>,
    index: u64,
)
    requires
        is_orderly(h),
        0 <= i < h.len(),
        0 <= j < h.len(),
        h[i].nodes.contains_key(a),
        h[j].nodes.contains_key(b),
        index <= reach(h[i].nodes[a].applied),
        index <= reach(h[j].nodes[b].applied),
    ensures
        index <= h[i].nodes[a].log.len(),
        index <= h[j].nodes[b].log.len(),
        h[i].nodes[a].log.take(index as int) == h[j].nodes[b].log.take(index as int),
{
    if index > 0 {
        stays_sound(h, i);
        stays_sound(h, j);
        lemma_orderly_at(h, i);
        lemma_orderly_at(h, j);
        let (x, y) = (h[i].nodes[a], h[j].nodes[b]);
        assert(commit_settled(h, i, x));
        assert(commit_settled(h, j, y));
        let (term, seal) = choose|term: u64, seal: Seq<Entry<C>>|
            term <= x.term && #[trigger] settled_by(h, i, x.log, x.commit, term, seal);
        assert(settled_by(h, i, x.log, x.commit, term, seal));
        let (term2, seal2) = choose|term2: u64, seal2: Seq<Entry<C>>|
            term2 <= y.term && #[trigger] settled_by(h, j, y.log, y.commit, term2, seal2);
        assert(settled_by(h, j, y.log, y.commit, term2, seal2));
        let last = h.len() - 1;
        lemma_sealed_later(h, i, last, term, seal);
        lemma_sealed_later(h, j, last, term2, seal2);
        if term <= term2 {
            lemma_seals_agree(h, last, term, seal, term2, seal2);
        } else {
            lemma_seals_agree(h, last, term2, seal2, term, seal);
        }
        let n = index as int;
        assert(x.log.take(n) =~= x.log.take(reach(x.commit) as int).take(n));
        assert(y.log.take(n) =~= y.log.take(reach(y.commit) as int).take(n));
        assert(seal.take(n) =~= seal.take(reach(x.commit) as int).take(n));
        assert(seal2.take(n) =~= seal2.take(reach(y.commit) as int).take(n));
        assert(seal.take(n) =~= seal2.take(n)) by {
            if seal.is_prefix_of(seal2) {
                assert(seal =~= seal2.subrange(0, seal.len() as int));
            } else {
                assert(seal2 =~= seal.subrange(0, seal2.len() as int));
            }
        }
    }
}

/// So machines that follow the logs of two nodes go through the same states, and give the
/// same outputs, as far as both nodes applied their logs.
pub proof fn machines_agree<S: StateMachine>(
    h: Seq<Cluster<<S::Command as DeepView>::V>>,
    i: int,
    a: Seq<char>,
    j: int,
    b: Seq<char>,
    index: u64,
)
    requires
        is_orderly(h),
        0 <= i < h.len(),
        0 <= j < h.len(),
        h[i].nodes.contains_key(a),
        h[j].nodes.contains_key(b),
        index <= reach(h[i].nodes[a].applied),
        index <= reach(h[j].nodes[b].applied),
    ensures
        applied_all::<S>(S::start(), h[i].nodes[a].log, 0, index as nat) == applied_all::<S>(
            S::start(),
            h[j].nodes[b].log,
            0,
            index as nat,
        ),
{
    state_machine_safety(h, i, a, j, b, index);
    applied_entries_matter::<S>(S::start(), h[i].nodes[a].log, h[j].nodes[b].log, 0, index as nat);
}

/// The order in which commands are applied respects time: at any time, whatever a leader adds
/// to its log from then on, and is ever applied, comes behind all that anyone has applied by
/// then. So whoever asks once others were answered sees all that they did.
pub proof fn order_respects_time<C>(
    h: Seq<Cluster<C>>,
    i: int,
    a: Seq<char>,
    j: int,
    leader: Seq<char>,
    index: u64,
    k: int,
    b: Seq<char>,
)
    requires
        is_orderly(h),
        0 <= i <= j < h.len(),
        h[i].nodes.contains_key(a),
        // behind the log of a leader
        h[j].nodes.contains_key(leader),
        h[j].nodes[leader].is_leader(),
        index > h[j].nodes[leader].log.len(),
        // applied, at whatever time, as an entry of that leader
        0 <= k < h.len(),
        h[k].nodes.contains_key(b),
        index <= reach(h[k].nodes[b].applied),
        h[k].nodes[b].log[index - 1].term == h[j].nodes[leader].term,
    ensures
        reach(h[i].nodes[a].applied) < index,
{
    if reach(h[i].nodes[a].applied) >= index {
        let (x, y) = (h[i].nodes[a].log, h[k].nodes[b].log);
        let term = h[j].nodes[leader].term;
        let n = index as int;
        state_machine_safety(h, i, a, k, b, index);
        assert(x.take(n)[n - 1] == y.take(n)[n - 1]);
        stays_sound(h, i);
        stays_sound(h, j);
        lemma_past_stays(h, i, j);
        assert(x.take(n) =~= x.subrange(0, n));
        lemma_start_of_chronicle(h[i], x, x.take(n), term);
        assert(h[i].chronicle.contains_key(term));
    }
}

/// Leaders keep their word: what a leader sends, whoever gets it in due order can take,
/// within the bounds that logs have. The receiver does not lead the same term, and nothing
/// that it committed is taken back.
pub proof fn leaders_keep_their_word<C>(h: Seq<Cluster<C>>, i: int, l: Letter<C>, t: Tick)
    requires
        is_orderly(h),
        0 <= i < h.len(),
        h[i].sent.contains(l),
        h[i].nodes.contains_key(l.to),
        in_order(h[i], l.to, Event::Arrival { from: l.from, msg: l.msg }, t),
        l.msg matches RaftMsg::AppendEntries { prev_log_index, entries, .. } && reach(
            prev_log_index,
        ) + entries.len() < u64::MAX,
    ensures
        h[i].nodes[l.to].acceptable(l.from, l.msg),
{
    let c = h[i];
    let n = c.nodes[l.to];
    stays_sound(h, i);
    lemma_orderly_at(h, i);
    lemma_timely(h, i);
    if l.msg.term() == n.term && n.is_leader() {
        no_rival_leader(h, i, l);
    }
    if let RaftMsg::AppendEntries { term, commit_index, prev_log_index, prev_log_term, entries } =
        l.msg {
        let m = happened(n, Event::Arrival { from: l.from, msg: l.msg }, t).0;
        let seen = n.seen_term(term, arbitrary());
        if seen.takes(term, prev_log_index, prev_log_term) {
            let all = c.chronicle[term];
            lemma_splice(c, n, all, prev_log_index, prev_log_term, entries);
            assert(m.log == n.spliced(prev_log_index, entries));
            assert(commit_settled(h, i, n));
            let r = reach(n.commit) as int;
            if r > 0 {
                let (term2, seal) = choose|term2: u64, seal: Seq<Entry<C>>|
                    term2 <= n.term && #[trigger] settled_by(h, i, n.log, n.commit, term2, seal);
                assert(settled_by(h, i, n.log, n.commit, term2, seal));
                lemma_sealed_chronicled(h, i, term2, seal, i, term);
                assert(seal =~= all.subrange(0, seal.len() as int));
                assert(all.take(r) =~= seal.take(r));
                assert(n.log.take(r) == all.take(r));
                assert(n.log.take(r).is_prefix_of(m.log));
            }
            assert(settled(h, i, n.log, n.commit, n.term));
        }
    }
}

} // verus!
