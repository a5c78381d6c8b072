//! What becomes of entries that a majority of a cluster has.
use crate::raft::cluster::{
    coherent, is_history, lemma_coherent_grows, lemma_log_after, lemma_one_reign, lemma_past_stays,
    lemma_splice_coherent, lemma_step_connected, stays_sound, steps, supported, Ballot, Cluster, Letter,
};
use crate::raft::laws::{
    can_happen, happened, leader_appends_only, lemma_candidacy, lemma_entries_answered, lemma_leader,
    lemma_replicated, lemma_what_happens, majorities_meet, Event,
};
use crate::raft::log::{highest, last_term, Entry};
use crate::raft::model::{majority, reach, Node, Part, Tick};
use crate::raft::rpc::RaftMsg;
use vstd::prelude::*;

verus! {

/// A node vouches for so many entries: it told a leader that it has them, or it led a term
/// with them.
pub open spec fn vouches<C>(c: Cluster<C>, id: Seq<char>, n: int) -> bool {
    ||| exists|l: Letter<C>|
        {
            &&& #[trigger] c.sent.contains(l)
            &&& l.from == id
            &&& l.msg matches RaftMsg::AppendEntriesResponse { index, success: true, .. }
            &&& reach(index) >= n
        }
    ||| exists|term: u64| #[trigger]
        c.reigns.contains((term, id)) && c.chronicle[term].len() >= n
}

/// Messages come in due order, as far as it matters: entries that arrive at a node take none
/// away that the node vouches for and that their leader has too, as an older message of the
/// leader might that was overtaken; and no leader hears of a success of an earlier term.
pub open spec fn in_order<C>(c: Cluster<C>, who: Seq<char>, e: Event<C>, t: Tick) -> bool {
    let n = c.nodes[who];
    let m = happened(n, e, t).0;
    match e {
        Event::Arrival { msg: RaftMsg::AppendEntries { term, .. }, .. } => {
            term >= n.term ==> forall|k: int|
                0 <= k <= n.log.len() && k <= c.chronicle[term].len() && vouches(c, who, k)
                    && #[trigger] n.log.take(k) == c.chronicle[term].take(k) ==> n.log.take(
                    k,
                ).is_prefix_of(m.log)
        },
        Event::Arrival { msg: RaftMsg::AppendEntriesResponse { current_term, success, .. }, .. } => {
            n.is_leader() && success ==> current_term >= n.term
        },
        _ => true,
    }
}

/// What a node vouches for, it vouches for at any later time.
pub proof fn lemma_vouches_later<C>(h: Seq<Cluster<C>>, i: int, j: int, id: Seq<char>, n: int, less: int)
    requires
        is_history(h),
        0 <= i <= j < h.len(),
        vouches(h[i], id, n),
        less <= n,
    ensures
        vouches(h[j], id, less),
{
    lemma_past_stays(h, i, j);
    stays_sound(h, i);
    if exists|term: u64| #[trigger]
        h[i].reigns.contains((term, id)) && h[i].chronicle[term].len() >= n {
        let term = choose|term: u64| #[trigger]
            h[i].reigns.contains((term, id)) && h[i].chronicle[term].len() >= n;
        assert(h[j].reigns.contains((term, id)));
        assert(h[i].chronicle.contains_key(term));
    } else {
        let l = choose|l: Letter<C>|
            {
                &&& #[trigger] h[i].sent.contains(l)
                &&& l.from == id
                &&& l.msg matches RaftMsg::AppendEntriesResponse { index, success: true, .. }
                &&& reach(index) >= n
            };
        assert(h[j].sent.contains(l));
    }
}

/// A history in which messages come in due order, as far as it matters.
pub open spec fn is_orderly<C>(h: Seq<Cluster<C>>) -> bool {
    &&& is_history(h)
    &&& forall|i: int|
        0 <= i < h.len() - 1 ==> exists|who: Seq<char>, e: Event<C>, t: Tick| #[trigger]
            steps(h[i], #[trigger] h[i + 1], who, e, t) && in_order(h[i], who, e, t)
}

/// What happens between one time and the next.
pub proof fn lemma_move<C>(h: Seq<Cluster<C>>, i: int) -> (r: (Seq<char>, Event<C>, Tick))
    requires
        is_orderly(h),
        0 <= i < h.len() - 1,
    ensures
        steps(h[i], h[i + 1], r.0, r.1, r.2),
        in_order(h[i], r.0, r.1, r.2),
{
    let (who, e, t) = choose|who: Seq<char>, e: Event<C>, t: Tick| #[trigger]
        steps(h[i], #[trigger] h[i + 1], who, e, t) && in_order(h[i], who, e, t);
    assert(steps(h[i], h[i + 1], who, e, t));
    (who, e, t)
}

/// The terms of entries only go up.
pub open spec fn ascending<C>(log: Seq<Entry<C>>) -> bool {
    forall|i: int, j: int| 0 <= i <= j < log.len() ==> #[trigger] log[i].term <= #[trigger] log[j].term
}

/// No entry is of a term beyond a given one.
pub open spec fn up_to<C>(log: Seq<Entry<C>>, term: u64) -> bool {
    forall|i: int| 0 <= i < log.len() ==> (#[trigger] log[i]).term <= term
}

/// Entries stand in the order of their terms, and none is of a term to come.
pub open spec fn timely<C>(c: Cluster<C>) -> bool {
    &&& forall|id: Seq<char>| #[trigger]
        c.nodes.contains_key(id) ==> {
            &&& ascending(c.nodes[id].log)
            &&& up_to(c.nodes[id].log, c.nodes[id].term)
            &&& c.nodes[id].log.len() <= u64::MAX
        }
    &&& forall|term: u64| #[trigger]
        c.chronicle.contains_key(term) ==> {
            &&& ascending(c.chronicle[term])
            &&& up_to(c.chronicle[term], term)
        }
}

pub proof fn lemma_prefix_of_prefix<A>(a: Seq<A>, b: Seq<A>, c: Seq<A>)
    requires
        a.is_prefix_of(b),
        b.is_prefix_of(c),
    ensures
        a.is_prefix_of(c),
{
    assert(a =~= c.subrange(0, a.len() as int)) by {
        assert(a =~= b.subrange(0, a.len() as int));
        assert(b =~= c.subrange(0, b.len() as int));
    }
}

/// Of two starts of the same sequence, the shorter is the start of the longer.
pub proof fn lemma_prefixes<A>(a: Seq<A>, b: Seq<A>, c: Seq<A>)
    requires
        a.is_prefix_of(c),
        b.is_prefix_of(c),
        a.len() <= b.len(),
    ensures
        a.is_prefix_of(b),
{
    assert(a =~= b.subrange(0, a.len() as int)) by {
        assert(a =~= c.subrange(0, a.len() as int));
        assert(b =~= c.subrange(0, b.len() as int));
    }
}

proof fn lemma_prefix_timely<C>(a: Seq<Entry<C>>, b: Seq<Entry<C>>, term: u64)
    requires
        a.is_prefix_of(b),
        ascending(b),
        up_to(b, term),
    ensures
        ascending(a),
        up_to(a, term),
{
    assert forall|i: int| 0 <= i < a.len() implies a[i] == b[i] by {
        assert(b.subrange(0, a.len() as int)[i] == b[i]);
    }
}

/// Histories are timely throughout.
pub proof fn lemma_timely<C>(h: Seq<Cluster<C>>, i: int)
    requires
        is_orderly(h),
        0 <= i < h.len(),
    ensures
        timely(h[i]),
    decreases i,
{
    if i > 0 {
        let k = i - 1;
        lemma_timely(h, k);
        let (who, e, t) = lemma_move(h, k);
        let (c, d) = (h[k], h[i]);
        let n = c.nodes[who];
        let m = happened(n, e, t).0;
        stays_sound(h, k);
        lemma_what_happens(n, e, t);
        lemma_log_after(n, e, t);
        lemma_step_connected(c, d, who, e, t);
        assert(ascending(m.log) && up_to(m.log, m.term) && m.log.len() <= u64::MAX) by {
            if m.log != n.log {
                match e {
                    Event::Request { cmd } => {},
                    Event::Arrival { from, msg } => {
                        if let RaftMsg::AppendEntries {
                            term,
                            prev_log_index,
                            prev_log_term,
                            entries,
                            ..
                        } = msg {
                            assert(c.sent.contains(Letter { from, to: who, msg }));
                            lemma_splice_coherent(
                                c,
                                n,
                                term,
                                prev_log_index,
                                prev_log_term,
                                entries,
                            );
                            if entries.len() == 0 {
                                lemma_prefix_timely(m.log, n.log, n.term);
                            } else {
                                lemma_prefix_timely(m.log, c.chronicle[term], term);
                            }
                        }
                    },
                    _ => {},
                }
            }
        }
        assert forall|id: Seq<char>| #[trigger] d.nodes.contains_key(id) implies {
            &&& ascending(d.nodes[id].log)
            &&& up_to(d.nodes[id].log, d.nodes[id].term)
            &&& d.nodes[id].log.len() <= u64::MAX
        } by {
            assert(c.nodes.contains_key(id));
        }
        assert forall|term: u64| #[trigger] d.chronicle.contains_key(term) implies {
            &&& ascending(d.chronicle[term])
            &&& up_to(d.chronicle[term], term)
        } by {
            if !(m.is_leader() && term == m.term) {
                assert(c.chronicle.contains_key(term));
            }
        }
    }
}

/// At some time, a node led a term.
pub open spec fn led<C>(h: Seq<Cluster<C>>, i: int, id: Seq<char>, term: u64) -> bool {
    &&& 0 <= i < h.len()
    &&& h[i].nodes.contains_key(id)
    &&& h[i].nodes[id].is_leader()
    &&& h[i].nodes[id].term == term
}

/// The chronicle of a term is the log of the leader of the term, at some time.
pub proof fn lemma_chronicle_source<C>(h: Seq<Cluster<C>>, i: int, term: u64) -> (r: (int, Seq<char>))
    requires
        is_orderly(h),
        0 <= i < h.len(),
        h[i].chronicle.contains_key(term),
    ensures
        r.0 <= i,
        led(h, r.0, r.1, term),
        h[r.0].nodes[r.1].log == h[i].chronicle[term],
    decreases i,
{
    if i == 0 {
        (0, seq![])
    } else {
        let k = i - 1;
        let (who, e, t) = lemma_move(h, k);
        let m = happened(h[k].nodes[who], e, t).0;
        if m.is_leader() && m.term == term {
            (i, who)
        } else {
            lemma_chronicle_source(h, k, term)
        }
    }
}

/// When a term began to have a leader, the log of the leader held no entry of the term. All
/// that is of the term in its chronicle came behind.
pub proof fn lemma_origin<C>(h: Seq<Cluster<C>>, i: int, term: u64) -> (r: (int, Seq<char>))
    requires
        is_orderly(h),
        0 <= i < h.len(),
        h[i].chronicle.contains_key(term),
    ensures
        r.0 <= i,
        led(h, r.0, r.1, term),
        h[r.0].nodes[r.1].log.is_prefix_of(h[i].chronicle[term]),
        forall|k: int|
            0 <= k < h[r.0].nodes[r.1].log.len() ==> (#[trigger] h[r.0].nodes[r.1].log[k]).term < term,
    decreases i,
{
    if i == 0 {
        (0, seq![])
    } else {
        let k = i - 1;
        if h[k].chronicle.contains_key(term) {
            let (y, l) = lemma_origin(h, k, term);
            lemma_past_stays(h, k, i);
            lemma_prefix_of_prefix(
                h[y].nodes[l].log,
                h[k].chronicle[term],
                h[i].chronicle[term],
            );
            (y, l)
        } else {
            let (who, e, t) = lemma_move(h, k);
            let n = h[k].nodes[who];
            let m = happened(n, e, t).0;
            stays_sound(h, k);
            lemma_timely(h, k);
            lemma_what_happens(n, e, t);
            lemma_candidacy(n, e, t);
            assert(m.is_leader() && m.term == term);
            if n.is_leader() {
                assert(h[k].reigns.contains((term, who)));
            }
            assert(m.log == n.log);
            assert forall|j: int| 0 <= j < m.log.len() implies (#[trigger] m.log[j]).term < term by {
                assert(h[k].chronicle.contains_key(n.log[j].term));
            }
            assert(m.log =~= m.log.subrange(0, m.log.len() as int));
            (i, who)
        }
    }
}

/// What a node that ran for a term with some log is later.
spec fn ran<C>(n: Node<C>, term: u64, log: Seq<Entry<C>>) -> bool {
    ||| n.term > term
    ||| n.term == term && n.part is Follower
    ||| n.term == term && n.part is Candidate && n.log == log
    ||| n.term == term && n.is_leader() && log.is_prefix_of(n.log)
}

proof fn lemma_ran<C>(h: Seq<Cluster<C>>, i: int, j: int, id: Seq<char>)
    requires
        is_orderly(h),
        0 <= i <= j < h.len(),
        h[i].nodes.contains_key(id),
        h[i].nodes[id].part is Candidate,
    ensures
        ran(h[j].nodes[id], h[i].nodes[id].term, h[i].nodes[id].log),
    decreases j - i,
{
    if i < j {
        let k = j - 1;
        lemma_ran(h, i, k, id);
        let (who, e, t) = lemma_move(h, k);
        let n = h[k].nodes[who];
        let m = happened(n, e, t).0;
        stays_sound(h, k);
        lemma_what_happens(n, e, t);
        lemma_candidacy(n, e, t);
        let log = h[i].nodes[id].log;
        if who == id && m.is_leader() {
            if n.is_leader() {
                leader_appends_only(n, e, t);
                if n.term == h[i].nodes[id].term {
                    lemma_prefix_of_prefix(log, n.log, m.log);
                }
            } else {
                assert(log =~= log.subrange(0, log.len() as int));
            }
        }
    }
}

/// Whoever leads a term has the log with which it ran for the term, and perhaps more.
proof fn lemma_candidate_leads<C>(h: Seq<Cluster<C>>, i: int, j: int, id: Seq<char>, term: u64)
    requires
        is_orderly(h),
        0 <= i < h.len(),
        h[i].nodes.contains_key(id),
        h[i].nodes[id].part is Candidate,
        h[i].nodes[id].term == term,
        led(h, j, id, term),
    ensures
        h[i].nodes[id].log.is_prefix_of(h[j].nodes[id].log),
{
    if i <= j {
        lemma_ran(h, i, j, id);
    } else {
        stays_sound(h, i);
        stays_sound(h, j);
        lemma_past_stays(h, j, i);
        assert(h[j].reigns.contains((term, id)));
    }
}

/// How a node comes to cast a vote: it runs itself, or it is asked by a candidate whose log
/// is not behind its own.
proof fn lemma_new_vote<C>(n: Node<C>, e: Event<C>, t: Tick)
    requires
        n.valid(),
        can_happen(n, e, t),
        happened(n, e, t).0.voted_for is Some,
        n.term != happened(n, e, t).0.term || n.voted_for != happened(n, e, t).0.voted_for,
    ensures
        ({
            let m = happened(n, e, t).0;
            &&& m.log == n.log
            &&& match e {
                Event::Clock => m.part is Candidate && m.voted_for == Some(n.id),
                Event::Arrival {
                    from,
                    msg: RaftMsg::RequestVote { candidate_term, last_log_index, last_log_term },
                } => m.voted_for == Some(from) && candidate_term == m.term && n.up_to_date(
                    last_log_index,
                    last_log_term,
                ),
                _ => false,
            }
        }),
{
    match e {
        Event::Replication => lemma_replicated(n, t.now),
        Event::Request { cmd } => {
            assert(n.appended(cmd).valid());
            lemma_replicated(n.appended(cmd), t.now);
        },
        Event::Arrival { from, msg } => {
            let seen = n.seen_term(msg.term(), t);
            assert(seen.valid());
            match msg {
                RaftMsg::RequestVoteResponse { term, vote_granted } => {
                    if let Part::Candidate { votes } = seen.part {
                        let votes = votes.insert(from);
                        let won = Node { part: Part::Candidate { votes }, ..seen };
                        assert(won.valid());
                        lemma_leader(won);
                        lemma_replicated(won.leader(), t.now);
                    }
                },
                RaftMsg::AppendEntriesResponse { index, success, .. } => {
                    lemma_entries_answered(seen, from, success, index, t);
                },
                _ => {},
            }
        },
        _ => {},
    }
}

/// Every vote was cast at some time.
proof fn lemma_vote_cast<C>(h: Seq<Cluster<C>>, i: int, b: Ballot) -> (k: int)
    requires
        is_orderly(h),
        0 <= i < h.len(),
        h[i].ballots.contains(b),
    ensures
        0 <= k < i,
        !h[k].ballots.contains(b),
        h[k + 1].ballots.contains(b),
    decreases i,
{
    if i == 0 {
        0
    } else if h[i - 1].ballots.contains(b) {
        lemma_vote_cast(h, i - 1, b)
    } else {
        i - 1
    }
}

/// Whoever asks for a vote runs, and tells the truth about its log.
proof fn lemma_vote_requests<C>(n: Node<C>, e: Event<C>, t: Tick, k: int)
    requires
        n.valid(),
        can_happen(n, e, t),
        0 <= k < happened(n, e, t).1.len(),
        happened(n, e, t).1[k].1 is RequestVote,
    ensures
        ({
            let (m, mail) = happened(n, e, t);
            &&& m.part is Candidate
            &&& mail[k].1 == RaftMsg::<C>::RequestVote {
                candidate_term: m.term,
                last_log_index: highest(m.log),
                last_log_term: last_term(m.log),
            }
        }),
{
    let mail = happened(n, e, t).1;
    match e {
        Event::Replication => lemma_replicated(n, t.now),
        Event::Request { cmd } => {
            assert(n.appended(cmd).valid());
            lemma_replicated(n.appended(cmd), t.now);
        },
        Event::Arrival { from, msg } => {
            let seen = n.seen_term(msg.term(), t);
            assert(seen.valid());
            match msg {
                RaftMsg::RequestVoteResponse { term, vote_granted } => {
                    if let Part::Candidate { votes } = seen.part {
                        let votes = votes.insert(from);
                        let won = Node { part: Part::Candidate { votes }, ..seen };
                        assert(won.valid());
                        lemma_leader(won);
                        lemma_replicated(won.leader(), t.now);
                    }
                },
                RaftMsg::AppendEntriesResponse { index, success, .. } => {
                    lemma_entries_answered(seen, from, success, index, t);
                },
                _ => {},
            }
        },
        _ => {},
    }
    assert(mail[k].1 is RequestVote);
}

/// Every request for a vote was sent at some time by a candidate with that log.
proof fn lemma_vote_asked<C>(h: Seq<Cluster<C>>, i: int, l: Letter<C>) -> (k: int)
    requires
        is_orderly(h),
        0 <= i < h.len(),
        h[i].sent.contains(l),
        l.msg is RequestVote,
    ensures
        0 <= k <= i,
        ({
            let m = h[k].nodes[l.from];
            &&& h[k].nodes.contains_key(l.from)
            &&& m.part is Candidate
            &&& l.msg == RaftMsg::<C>::RequestVote {
                candidate_term: m.term,
                last_log_index: highest(m.log),
                last_log_term: last_term(m.log),
            }
        }),
    decreases i,
{
    if i == 0 {
        0
    } else if h[i - 1].sent.contains(l) {
        lemma_vote_asked(h, i - 1, l)
    } else {
        let (who, e, t) = lemma_move(h, i - 1);
        stays_sound(h, i - 1);
        let n = h[i - 1].nodes[who];
        let mail = happened(n, e, t).1;
        let k = choose|k: int| 0 <= k < mail.len() && #[trigger] mail[k] == (l.to, l.msg);
        assert(mail[k] == (l.to, l.msg));
        lemma_vote_requests(n, e, t, k);
        i
    }
}

/// At a given time, a node was in a term, and had entries, for which it vouched.
pub open spec fn had_at<C>(
    h: Seq<Cluster<C>>,
    i: int,
    id: Seq<char>,
    term: u64,
    log: Seq<Entry<C>>,
) -> bool {
    &&& h[i].nodes.contains_key(id)
    &&& h[i].nodes[id].term == term
    &&& log.is_prefix_of(h[i].nodes[id].log)
    &&& vouches(h[i], id, log.len() as int)
}

/// Up to a given time, a node was once in a term and had entries, for which it vouched.
pub open spec fn had<C>(
    h: Seq<Cluster<C>>,
    i: int,
    id: Seq<char>,
    term: u64,
    log: Seq<Entry<C>>,
) -> bool {
    exists|k: int| 0 <= k <= i && #[trigger] had_at(h, k, id, term, log)
}

/// Each of these nodes was once in a term and had entries, for which it vouched.
pub open spec fn all_had<C>(
    h: Seq<Cluster<C>>,
    i: int,
    ids: Set<Seq<char>>,
    term: u64,
    log: Seq<Entry<C>>,
) -> bool {
    forall|id: Seq<char>| #[trigger] ids.contains(id) ==> had(h, i, id, term, log)
}

/// Entries are sealed in a term if the last of them is of the term, and if a majority of the
/// cluster had them in the term, and vouched for them.
pub open spec fn sealed<C>(h: Seq<Cluster<C>>, i: int, term: u64, log: Seq<Entry<C>>) -> bool {
    &&& log.len() > 0
    &&& log.last().term == term
    &&& exists|ids: Set<Seq<char>>|
        {
            &&& #[trigger] all_had(h, i, ids, term, log)
            &&& ids.len() >= majority((h[0].nodes.dom().len() - 1) as nat)
            &&& ids.subset_of(h[0].nodes.dom())
        }
}

/// Entries that a node had in their term are the work of the leader of the term.
pub proof fn lemma_had_chronicled<C>(
    h: Seq<Cluster<C>>,
    i: int,
    id: Seq<char>,
    term: u64,
    log: Seq<Entry<C>>,
)
    requires
        is_orderly(h),
        0 <= i < h.len(),
        had(h, i, id, term, log),
        log.len() > 0,
        log.last().term == term,
    ensures
        h[i].chronicle.contains_key(term),
        log.is_prefix_of(h[i].chronicle[term]),
{
    let k = choose|k: int| 0 <= k <= i && #[trigger] had_at(h, k, id, term, log);
    assert(had_at(h, k, id, term, log));
    stays_sound(h, k);
    lemma_past_stays(h, k, i);
    lemma_start_of_chronicle(h[k], h[k].nodes[id].log, log, term);
    lemma_prefix_of_prefix(log, h[k].chronicle[term], h[i].chronicle[term]);
}

/// The start of a log up to an entry of some term is the start of the chronicle of the term.
pub proof fn lemma_start_of_chronicle<C>(
    c: Cluster<C>,
    log: Seq<Entry<C>>,
    start: Seq<Entry<C>>,
    term: u64,
)
    requires
        coherent(c, log),
        start.is_prefix_of(log),
        start.len() > 0,
        start.last().term == term,
    ensures
        c.chronicle.contains_key(term),
        start.is_prefix_of(c.chronicle[term]),
{
    let n = start.len() as int;
    assert(start =~= log.take(n));
    assert(log[n - 1] == start[n - 1]);
}

/// Entries stay with a node that vouches for them as long as all leaders that it hears of
/// have them.
proof fn lemma_keeps<C>(
    h: Seq<Cluster<C>>,
    id: Seq<char>,
    i: int,
    j: int,
    term: u64,
    top: u64,
    log: Seq<Entry<C>>,
)
    requires
        is_orderly(h),
        0 <= i <= j < h.len(),
        h[i].nodes.contains_key(id),
        h[i].nodes[id].term >= term,
        h[j].nodes[id].term <= top,
        log.len() > 0,
        log.last().term == term,
        log.is_prefix_of(h[i].nodes[id].log),
        vouches(h[i], id, log.len() as int),
        forall|x: int, u: u64|
            i <= x < j && term < u <= top && #[trigger] h[x].chronicle.contains_key(u)
                ==> log.is_prefix_of(h[x].chronicle[u]),
    ensures
        log.is_prefix_of(h[j].nodes[id].log),
    decreases j - i,
{
    if i < j {
        let k = j - 1;
        lemma_past_stays(h, i, k);
        lemma_past_stays(h, k, j);
        assert(h[k].nodes.contains_key(id));
        lemma_keeps(h, id, i, k, term, top, log);
        let (who, e, t) = lemma_move(h, k);
        if who == id {
            let c = h[k];
            let n = c.nodes[who];
            let m = happened(n, e, t).0;
            stays_sound(h, k);
            lemma_what_happens(n, e, t);
            lemma_log_after(n, e, t);
            if m.log != n.log {
                match e {
                    Event::Request { cmd } => {
                        assert(log =~= m.log.subrange(0, log.len() as int)) by {
                            assert(log =~= n.log.subrange(0, log.len() as int));
                        }
                    },
                    Event::Arrival { from, msg } => {
                        if let RaftMsg::AppendEntries { term: u, .. } = msg {
                            assert(c.sent.contains(Letter { from, to: who, msg }));
                            assert(c.reigns.contains((u, from)));
                            assert(c.chronicle.contains_key(u));
                            if u == term {
                                lemma_start_of_chronicle(c, n.log, log, term);
                            }
                            let len = log.len() as int;
                            lemma_vouches_later(h, i, k, id, len, len);
                            assert(n.log.take(len) =~= log);
                            assert(c.chronicle[u].take(len) =~= log);
                        }
                    },
                    _ => {},
                }
            }
        }
    }
}

/// Every reign began at some time.
proof fn lemma_reign_began<C>(h: Seq<Cluster<C>>, i: int, r: (u64, Seq<char>)) -> (k: int)
    requires
        is_orderly(h),
        0 <= i < h.len(),
        h[i].reigns.contains(r),
    ensures
        0 <= k < i,
        !h[k].reigns.contains(r),
        h[k + 1].reigns.contains(r),
    decreases i,
{
    if i == 0 {
        0
    } else if h[i - 1].reigns.contains(r) {
        lemma_reign_began(h, i - 1, r)
    } else {
        i - 1
    }
}

/// Before a reign began, its term had no chronicle.
proof fn lemma_no_chronicle<C>(h: Seq<Cluster<C>>, i: int, k: int, term: u64, id: Seq<char>)
    requires
        is_orderly(h),
        0 <= i <= k < h.len() - 1,
        !h[k].reigns.contains((term, id)),
        h[k + 1].reigns.contains((term, id)),
    ensures
        !h[i].chronicle.contains_key(term),
{
    if h[i].chronicle.contains_key(term) {
        stays_sound(h, i);
        stays_sound(h, k + 1);
        let l = choose|l: Seq<char>| #[trigger] h[i].reigns.contains((term, l));
        lemma_past_stays(h, i, k);
        lemma_past_stays(h, i, k + 1);
        lemma_one_reign(h[k + 1], term, l, id);
    }
}

/// Someone who had the entries of a majority voted for a given leader.
proof fn lemma_common_voter<C>(
    h: Seq<Cluster<C>>,
    i: int,
    term: u64,
    log: Seq<Entry<C>>,
    k: int,
    id: Seq<char>,
    later: u64,
) -> (v: Seq<char>)
    requires
        is_orderly(h),
        0 <= k < h.len(),
        sealed(h, i, term, log),
        h[k].reigns.contains((later, id)),
    ensures
        h[k].ballots.contains(Ballot { voter: v, term: later, candidate: id }),
        had(h, i, v, term, log),
{
    stays_sound(h, k);
    lemma_past_stays(h, 0, k);
    let size = majority((h[0].nodes.dom().len() - 1) as nat);
    let votes = choose|votes: Set<Seq<char>>|
        {
            &&& #[trigger] supported(h[k], votes, later, id)
            &&& votes.finite()
            &&& votes.len() >= size
        };
    assert(supported(h[k], votes, later, id));
    let ids = choose|ids: Set<Seq<char>>|
        {
            &&& #[trigger] all_had(h, i, ids, term, log)
            &&& ids.len() >= size
            &&& ids.subset_of(h[0].nodes.dom())
        };
    assert(all_had(h, i, ids, term, log));
    assert forall|v: Seq<char>| votes.contains(v) implies h[0].nodes.dom().contains(v) by {
        assert(h[k].ballots.contains(Ballot { voter: v, term: later, candidate: id }));
    }
    assert(h[k].nodes.contains_key(id));
    majorities_meet(h[0].nodes.dom(), votes, ids);
    let v = choose|v: Seq<char>| #[trigger] votes.contains(v) && ids.contains(v);
    v
}

/// A vote is for oneself, or for a candidate whose log, when it ran, was up to date. Gives
/// when the candidate ran.
proof fn lemma_vote_step<C>(h: Seq<Cluster<C>>, s: int, b: Ballot) -> (r: int)
    requires
        is_orderly(h),
        0 <= s < h.len() - 1,
        !h[s].ballots.contains(b),
        h[s + 1].ballots.contains(b),
    ensures
        h[s].nodes.contains_key(b.voter),
        h[s].nodes[b.voter].term <= b.term,
        h[s + 1].nodes[b.voter].term == b.term,
        0 <= r <= s + 1,
        h[r].nodes.contains_key(b.candidate),
        h[r].nodes[b.candidate].part is Candidate,
        h[r].nodes[b.candidate].term == b.term,
        ({
            let (mine, theirs) = (h[s].nodes[b.voter], h[r].nodes[b.candidate].log);
            theirs == mine.log || (r <= s && mine.up_to_date(highest(theirs), last_term(theirs)))
        }),
{
    let (who, e, t) = lemma_move(h, s);
    let n = h[s].nodes[who];
    let m = happened(n, e, t).0;
    stays_sound(h, s);
    lemma_what_happens(n, e, t);
    assert(who == b.voter && m.voted_for == Some(b.candidate) && m.term == b.term);
    lemma_new_vote(n, e, t);
    match e {
        Event::Arrival { from, msg } => {
            let l = Letter { from, to: who, msg };
            lemma_vote_asked(h, s, l)
        },
        _ => s + 1,
    }
}

/// All leaders between two terms have these entries.
spec fn leaders_have<C>(h: Seq<Cluster<C>>, term: u64, later: u64, log: Seq<Entry<C>>) -> bool {
    forall|y: int, l: Seq<char>, u: u64|
        term < u < later && #[trigger] led(h, y, l, u) ==> log.is_prefix_of(h[y].nodes[l].log)
}

/// A log that is up to date, next to one that has entries of a majority, has them too.
proof fn lemma_up_to_date_has<C>(
    h: Seq<Cluster<C>>,
    term: u64,
    log: Seq<Entry<C>>,
    s: int,
    v: Seq<char>,
    r: int,
    id: Seq<char>,
    later: u64,
)
    requires
        is_orderly(h),
        log.len() > 0,
        log.last().term == term,
        leaders_have(h, term, later, log),
        0 <= r <= s < h.len(),
        h[s].nodes.contains_key(v),
        h[r].nodes.contains_key(id),
        h[r].nodes[id].term == later,
        !h[r].chronicle.contains_key(later),
        log.is_prefix_of(h[s].nodes[v].log),
        h[s].nodes[v].up_to_date(highest(h[r].nodes[id].log), last_term(h[r].nodes[id].log)),
    ensures
        log.is_prefix_of(h[r].nodes[id].log),
{
    stays_sound(h, s);
    stays_sound(h, r);
    lemma_timely(h, r);
    lemma_timely(h, s);
    lemma_past_stays(h, r, s);
    let (mine, theirs) = (h[s].nodes[v].log, h[r].nodes[id].log);
    let u = theirs.last().term;
    assert(mine.last().term >= term) by {
        assert(log =~= mine.subrange(0, log.len() as int));
        assert(mine[log.len() - 1] == log[log.len() - 1]);
    }
    assert(theirs.len() > 0);
    assert(theirs =~= theirs.subrange(0, theirs.len() as int));
    assert(mine =~= mine.subrange(0, mine.len() as int));
    lemma_coherent_grows(h[r], h[s], theirs);
    lemma_start_of_chronicle(h[s], theirs, theirs, u);
    let all = h[s].chronicle[u];
    if u == mine.last().term {
        lemma_start_of_chronicle(h[s], mine, mine, u);
        lemma_prefixes(mine, theirs, all);
        lemma_prefix_of_prefix(log, mine, theirs);
    } else {
        lemma_start_of_chronicle(h[r], theirs, theirs, u);
        let (y, leader) = lemma_origin(h, s, u);
        let first = h[y].nodes[leader].log;
        assert(log.is_prefix_of(first));
        if theirs.len() <= first.len() {
            lemma_prefixes(theirs, first, all);
            assert(theirs =~= first.subrange(0, theirs.len() as int));
            assert(first[theirs.len() - 1] == theirs.last());
        }
        lemma_prefixes(first, theirs, all);
        lemma_prefix_of_prefix(log, first, theirs);
    }
}

/// Leader completeness: entries that a majority of the cluster had and vouched for, in the
/// term of the last of them, are in the logs of all leaders of later terms.
pub proof fn leader_completeness<C>(
    h: Seq<Cluster<C>>,
    i: int,
    term: u64,
    log: Seq<Entry<C>>,
    j: int,
    id: Seq<char>,
    later: u64,
)
    requires
        is_orderly(h),
        0 <= i < h.len(),
        sealed(h, i, term, log),
        led(h, j, id, later),
        later > term,
    ensures
        log.is_prefix_of(h[j].nodes[id].log),
    decreases later,
{
    assert forall|y: int, l: Seq<char>, u: u64|
        term < u < later && #[trigger] led(h, y, l, u) implies log.is_prefix_of(
        h[y].nodes[l].log,
    ) by {
        leader_completeness(h, i, term, log, y, l, u);
    }
    stays_sound(h, j);
    let k = lemma_reign_began(h, j, (later, id));
    let v = lemma_common_voter(h, i, term, log, k + 1, id, later);
    let a = choose|a: int| 0 <= a <= i && #[trigger] had_at(h, a, v, term, log);
    assert(had_at(h, a, v, term, log));
    let b = Ballot { voter: v, term: later, candidate: id };
    let s = lemma_vote_cast(h, k + 1, b);
    let r = lemma_vote_step(h, s, b);
    if a > s {
        lemma_past_stays(h, s, s + 1);
        lemma_past_stays(h, s + 1, a);
        assert(h[s + 1].nodes.contains_key(v));
    }
    assert forall|x: int, u: u64|
        a <= x < s && term < u <= later && #[trigger] h[x].chronicle.contains_key(
            u,
        ) implies log.is_prefix_of(h[x].chronicle[u]) by {
        if u == later {
            lemma_no_chronicle(h, x, k, later, id);
        } else {
            let (y, l) = lemma_chronicle_source(h, x, u);
            assert(led(h, y, l, u));
        }
    }
    lemma_keeps(h, v, a, s, term, later, log);
    let theirs = h[r].nodes[id].log;
    if theirs != h[s].nodes[v].log {
        lemma_no_chronicle(h, r, k, later, id);
        lemma_up_to_date_has(h, term, log, s, v, r, id, later);
    }
    lemma_candidate_leads(h, r, j, id, later);
    lemma_prefix_of_prefix(log, theirs, h[j].nodes[id].log);
}

} // verus!
