//! What holds of a cluster, whatever happens to its nodes and on its network.
//!
//! The network may lose messages, repeat them, delay them and deliver them in any order; it
//! makes none up. Nodes may reboot at any time; they keep their term, their vote and their
//! log.
use crate::raft::laws::{
    can_happen, happened, leader_appends_only, lemma_entries_answered, lemma_leader, lemma_replicated,
    lemma_what_happens, majorities_meet, stays_valid, votes_after, Event,
};
use crate::raft::log::{entries_before, entries_from, term_at, Entry};
use crate::raft::model::{majority, reach, Mail, Node, Part, Tick};
use crate::raft::rpc::RaftMsg;
use vstd::prelude::*;

verus! {

/// A vote: who voted, in which term, and for whom.
#[verifier::ext_equal]
pub struct Ballot {
    pub voter: Seq<char>,
    pub term: u64,
    pub candidate: Seq<char>,
}

/// A message on the network.
#[verifier::ext_equal]
pub struct Letter<C> {
    pub from: Seq<char>,
    pub to: Seq<char>,
    pub msg: RaftMsg<C>,
}

/// A cluster and its past.
#[verifier::ext_equal]
#[verifier::reject_recursive_types(C)]
pub struct Cluster<C> {
    /// The nodes, each under its ID.
    pub nodes: Map<Seq<char>, Node<C>>,
    /// All that was ever sent.
    pub sent: Set<Letter<C>>,
    /// All votes that were ever cast.
    pub ballots: Set<Ballot>,
    /// Who ever led, and in which term.
    pub reigns: Set<(u64, Seq<char>)>,
    /// The log of the leader of each term that had one, as it was last in that term.
    pub chronicle: Map<u64, Seq<Entry<C>>>,
}

/// The cluster as it starts for the first time: no node has any past.
pub open spec fn starts<C>(c: Cluster<C>) -> bool {
    &&& c.nodes.dom().finite()
    &&& forall|id: Seq<char>| #[trigger]
        c.nodes.contains_key(id) ==> {
            let n = c.nodes[id];
            &&& n == Node::<C>::booted(id, n.peers, 0, None, seq![], n.deadline)
            &&& n.valid()
            &&& n.peers.no_duplicates()
            &&& n.peers.to_set() == c.nodes.dom().remove(id)
        }
    &&& c.sent == Set::<Letter<C>>::empty()
    &&& c.ballots == Set::<Ballot>::empty()
    &&& c.reigns == Set::<(u64, Seq<char>)>::empty()
    &&& c.chronicle == Map::<u64, Seq<Entry<C>>>::empty()
}

/// What is on the network once a node sent mail.
pub open spec fn posted<C>(sent: Set<Letter<C>>, from: Seq<char>, mail: Mail<C>) -> Set<Letter<C>> {
    Set::new(
        |l: Letter<C>|
            sent.contains(l) || (l.from == from && exists|i: int|
                0 <= i < mail.len() && #[trigger] mail[i] == (l.to, l.msg)),
    )
}

/// Something happens to one node. What arrives there was sent to it.
pub open spec fn steps<C>(c: Cluster<C>, d: Cluster<C>, who: Seq<char>, e: Event<C>, t: Tick) -> bool {
    let n = c.nodes[who];
    let (m, mail) = happened(n, e, t);
    &&& c.nodes.contains_key(who)
    &&& can_happen(n, e, t)
    &&& e matches Event::Arrival { from, msg } ==> c.sent.contains(Letter { from, to: who, msg })
    &&& d == Cluster {
        nodes: c.nodes.insert(who, m),
        sent: posted(c.sent, who, mail),
        ballots: match m.voted_for {
            Some(candidate) => c.ballots.insert(Ballot { voter: who, term: m.term, candidate }),
            None => c.ballots,
        },
        reigns: if m.is_leader() {
            c.reigns.insert((m.term, who))
        } else {
            c.reigns
        },
        chronicle: if m.is_leader() {
            c.chronicle.insert(m.term, m.log)
        } else {
            c.chronicle
        },
    }
}

/// A history of a cluster: it starts, and then one thing happens after the other.
pub open spec fn is_history<C>(h: Seq<Cluster<C>>) -> bool {
    &&& h.len() > 0
    &&& starts(h[0])
    &&& forall|i: int|
        0 <= i < h.len() - 1 ==> exists|who: Seq<char>, e: Event<C>, t: Tick| #[trigger]
            steps(h[i], #[trigger] h[i + 1], who, e, t)
}

/// Who is in the cluster, and who is whose peer.
pub open spec fn well_connected<C>(c: Cluster<C>) -> bool {
    &&& c.nodes.dom().finite()
    &&& forall|id: Seq<char>| #[trigger]
        c.nodes.contains_key(id) ==> {
            let n = c.nodes[id];
            &&& n.valid()
            &&& n.id == id
            &&& n.peers.no_duplicates()
            &&& n.peers.to_set() == c.nodes.dom().remove(id)
        }
    &&& forall|l: Letter<C>| #[trigger] c.sent.contains(l) ==> c.nodes.contains_key(l.from)
}

/// The record of votes is true: whoever voted is in the term of the vote or beyond, and
/// where it is in that term, the vote still stands.
pub open spec fn votes_recorded<C>(c: Cluster<C>) -> bool {
    &&& forall|b: Ballot| #[trigger]
        c.ballots.contains(b) ==> {
            &&& c.nodes.contains_key(b.voter)
            &&& b.term <= c.nodes[b.voter].term
            &&& b.term == c.nodes[b.voter].term ==> c.nodes[b.voter].voted_for == Some(b.candidate)
        }
    &&& forall|a: Ballot, b: Ballot| #[trigger]
        c.ballots.contains(a) && #[trigger] c.ballots.contains(b) && a.voter == b.voter && a.term
            == b.term ==> a.candidate == b.candidate
    &&& forall|id: Seq<char>| #[trigger]
        c.nodes.contains_key(id) && c.nodes[id].voted_for is Some ==> c.ballots.contains(
            Ballot {
                voter: id,
                term: c.nodes[id].term,
                candidate: c.nodes[id].voted_for->Some_0,
            },
        )
    &&& forall|l: Letter<C>| #[trigger]
        c.sent.contains(l) ==> (l.msg matches RaftMsg::RequestVoteResponse {
            term,
            vote_granted: true,
        } ==> c.ballots.contains(Ballot { voter: l.from, term, candidate: l.to }))
}

/// These nodes voted for a candidate in a term.
pub open spec fn supported<C>(
    c: Cluster<C>,
    votes: Set<Seq<char>>,
    term: u64,
    candidate: Seq<char>,
) -> bool {
    forall|v: Seq<char>| #[trigger]
        votes.contains(v) ==> c.ballots.contains(Ballot { voter: v, term, candidate })
}

/// Candidates count the votes that they got, and no one leads without a majority of them.
pub open spec fn reigns_earned<C>(c: Cluster<C>) -> bool {
    &&& forall|id: Seq<char>| #[trigger]
        c.nodes.contains_key(id) ==> (c.nodes[id].part matches Part::Candidate { votes }
            ==> supported(c, votes, c.nodes[id].term, id) && !c.reigns.contains(
            (c.nodes[id].term, id),
        ))
    &&& forall|r: (u64, Seq<char>)| #[trigger]
        c.reigns.contains(r) ==> {
            &&& c.nodes.contains_key(r.1)
            &&& r.0 <= c.nodes[r.1].term
            &&& c.chronicle.contains_key(r.0)
            &&& exists|votes: Set<Seq<char>>|
                {
                    &&& #[trigger] supported(c, votes, r.0, r.1)
                    &&& votes.finite()
                    &&& votes.len() >= majority((c.nodes.dom().len() - 1) as nat)
                }
        }
    &&& forall|id: Seq<char>| #[trigger]
        c.nodes.contains_key(id) && c.nodes[id].is_leader() ==> c.reigns.contains(
            (c.nodes[id].term, id),
        )
    &&& forall|l: Letter<C>| #[trigger]
        c.sent.contains(l) && l.msg is AppendEntries ==> c.reigns.contains((l.msg.term(), l.from))
            && l.to != l.from
}

proof fn lemma_start<C>(c: Cluster<C>)
    requires
        starts(c),
    ensures
        well_connected(c),
        votes_recorded(c),
        reigns_earned(c),
{
}

pub proof fn lemma_step_connected<C>(c: Cluster<C>, d: Cluster<C>, who: Seq<char>, e: Event<C>, t: Tick)
    requires
        well_connected(c),
        steps(c, d, who, e, t),
    ensures
        well_connected(d),
        d.nodes.dom() == c.nodes.dom(),
{
    let n = c.nodes[who];
    stays_valid(n, e, t);
    assert(d.nodes.dom() =~= c.nodes.dom());
    assert forall|id: Seq<char>| #[trigger] d.nodes.contains_key(id) implies {
        let n = d.nodes[id];
        &&& n.valid()
        &&& n.id == id
        &&& n.peers.no_duplicates()
        &&& n.peers.to_set() == d.nodes.dom().remove(id)
    } by {
        assert(c.nodes.contains_key(id));
    }
}

pub proof fn lemma_step_votes<C>(c: Cluster<C>, d: Cluster<C>, who: Seq<char>, e: Event<C>, t: Tick)
    requires
        well_connected(c),
        votes_recorded(c),
        steps(c, d, who, e, t),
    ensures
        votes_recorded(d),
        c.ballots.subset_of(d.ballots),
{
    let n = c.nodes[who];
    let mail = happened(n, e, t).1;
    lemma_what_happens(n, e, t);
    lemma_step_connected(c, d, who, e, t);
    assert forall|b: Ballot| #[trigger] d.ballots.contains(b) implies {
        &&& d.nodes.contains_key(b.voter)
        &&& b.term <= d.nodes[b.voter].term
        &&& b.term == d.nodes[b.voter].term ==> d.nodes[b.voter].voted_for == Some(b.candidate)
    } by {
        if c.ballots.contains(b) && b.voter == who {
            assert(b.term <= n.term);
        }
    }
    assert forall|a: Ballot, b: Ballot| #[trigger]
        d.ballots.contains(a) && #[trigger] d.ballots.contains(b) && a.voter == b.voter && a.term
            == b.term implies a.candidate == b.candidate by {}
    assert forall|l: Letter<C>| #[trigger] d.sent.contains(l) implies (
    l.msg matches RaftMsg::RequestVoteResponse { term, vote_granted: true } ==> d.ballots.contains(
        Ballot { voter: l.from, term, candidate: l.to },
    )) by {
        if !c.sent.contains(l) {
            let i = choose|i: int| 0 <= i < mail.len() && #[trigger] mail[i] == (l.to, l.msg);
            assert(mail[i] == (l.to, l.msg));
        }
    }
}

pub proof fn lemma_step_reigns<C>(c: Cluster<C>, d: Cluster<C>, who: Seq<char>, e: Event<C>, t: Tick)
    requires
        well_connected(c),
        votes_recorded(c),
        reigns_earned(c),
        steps(c, d, who, e, t),
    ensures
        reigns_earned(d),
{
    let n = c.nodes[who];
    let (m, mail) = happened(n, e, t);
    lemma_what_happens(n, e, t);
    stays_valid(n, e, t);
    lemma_step_connected(c, d, who, e, t);
    lemma_step_votes(c, d, who, e, t);
    let size = majority((c.nodes.dom().len() - 1) as nat);
    assert(n.peers.len() == c.nodes.dom().len() - 1) by {
        n.peers.unique_seq_to_set();
    }
    if n.part is Candidate {
        let votes = votes_after(n, e);
        assert(supported(d, votes, n.term, who)) by {
            assert forall|v: Seq<char>| #[trigger] votes.contains(v) implies d.ballots.contains(
                Ballot { voter: v, term: n.term, candidate: who },
            ) by {
                let had = n.part->votes;
                if !had.contains(v) {
                    if let Event::Arrival { from, msg } = e {
                        assert(c.sent.contains(Letter { from, to: who, msg }));
                    }
                }
            }
        }
        assert(votes.finite());
    }
    assert forall|id: Seq<char>| #[trigger] d.nodes.contains_key(id) implies (
    d.nodes[id].part matches Part::Candidate { votes } ==> supported(d, votes, d.nodes[id].term, id)
        && !d.reigns.contains((d.nodes[id].term, id))) by {
        if let Part::Candidate { votes } = d.nodes[id].part {
            if id == who {
                assert(m.voted_for == Some(who));
                assert(d.nodes.contains_key(who));
                assert(d.ballots.contains(
                    Ballot { voter: who, term: m.term, candidate: who },
                ));
                if n.part is Candidate && m.term == n.term {
                    assert(!c.reigns.contains((n.term, who)));
                } else {
                    assert(m.term > n.term);
                    if c.reigns.contains((m.term, who)) {
                        assert(m.term <= n.term);
                    }
                }
            } else {
                assert(supported(c, votes, c.nodes[id].term, id));
                assert forall|v: Seq<char>| #[trigger] votes.contains(v) implies d.ballots.contains(
                    Ballot { voter: v, term: d.nodes[id].term, candidate: id },
                ) by {
                    assert(c.ballots.contains(
                        Ballot { voter: v, term: c.nodes[id].term, candidate: id },
                    ));
                }
            }
        }
    }
    assert forall|r: (u64, Seq<char>)| #[trigger] d.reigns.contains(r) implies {
        &&& d.nodes.contains_key(r.1)
        &&& r.0 <= d.nodes[r.1].term
        &&& d.chronicle.contains_key(r.0)
        &&& exists|votes: Set<Seq<char>>|
            {
                &&& #[trigger] supported(d, votes, r.0, r.1)
                &&& votes.finite()
                &&& votes.len() >= majority((d.nodes.dom().len() - 1) as nat)
            }
    } by {
        if c.reigns.contains(r) {
            let votes = choose|votes: Set<Seq<char>>|
                {
                    &&& #[trigger] supported(c, votes, r.0, r.1)
                    &&& votes.finite()
                    &&& votes.len() >= size
                };
            assert(supported(c, votes, r.0, r.1));
            assert(supported(d, votes, r.0, r.1)) by {
                assert forall|v: Seq<char>| #[trigger] votes.contains(v) implies d.ballots.contains(
                    Ballot { voter: v, term: r.0, candidate: r.1 },
                ) by {
                    assert(c.ballots.contains(Ballot { voter: v, term: r.0, candidate: r.1 }));
                }
            }
        } else {
            assert(r == (m.term, who));
            assert(supported(d, votes_after(n, e), r.0, r.1));
        }
    }
    assert forall|l: Letter<C>| #[trigger] d.sent.contains(l) && l.msg is AppendEntries implies d.reigns.contains(
        (l.msg.term(), l.from),
    ) && l.to != l.from by {
        if !c.sent.contains(l) {
            let i = choose|i: int| 0 <= i < mail.len() && #[trigger] mail[i] == (l.to, l.msg);
            assert(mail[i] == (l.to, l.msg));
            assert(n.peers.contains(l.to));
            assert(n.peers.to_set().contains(l.to));
        }
    }
}

/// At most one node ever leads in a given term.
pub proof fn lemma_one_reign<C>(c: Cluster<C>, term: u64, a: Seq<char>, b: Seq<char>)
    requires
        well_connected(c),
        votes_recorded(c),
        reigns_earned(c),
        c.reigns.contains((term, a)),
        c.reigns.contains((term, b)),
    ensures
        a == b,
{
    let size = majority((c.nodes.dom().len() - 1) as nat);
    let va = choose|votes: Set<Seq<char>>|
        {
            &&& #[trigger] supported(c, votes, term, a)
            &&& votes.finite()
            &&& votes.len() >= size
        };
    let vb = choose|votes: Set<Seq<char>>|
        {
            &&& #[trigger] supported(c, votes, term, b)
            &&& votes.finite()
            &&& votes.len() >= size
        };
    assert(supported(c, va, term, a));
    assert(supported(c, vb, term, b));
    assert(c.nodes.contains_key(a));
    assert forall|v: Seq<char>| va.contains(v) implies c.nodes.dom().contains(v) by {
        assert(c.ballots.contains(Ballot { voter: v, term, candidate: a }));
    }
    assert forall|v: Seq<char>| vb.contains(v) implies c.nodes.dom().contains(v) by {
        assert(c.ballots.contains(Ballot { voter: v, term, candidate: b }));
    }
    majorities_meet(c.nodes.dom(), va, vb);
    let v = choose|v: Seq<char>| #[trigger] va.contains(v) && vb.contains(v);
    assert(c.ballots.contains(Ballot { voter: v, term, candidate: a }));
    assert(c.ballots.contains(Ballot { voter: v, term, candidate: b }));
}

/// What of a log is the work of leaders: each entry, with all in front of it, stands in the
/// chronicle of its term.
pub open spec fn coherent<C>(c: Cluster<C>, log: Seq<Entry<C>>) -> bool {
    forall|i: int|
        0 <= i < log.len() ==> {
            let term = (#[trigger] log[i]).term;
            &&& c.chronicle.contains_key(term)
            &&& i < c.chronicle[term].len()
            &&& log.take(i + 1) == c.chronicle[term].take(i + 1)
        }
}

/// What a leader sends is out of its log.
pub open spec fn excerpt<C>(
    log: Seq<Entry<C>>,
    prev: Option<u64>,
    prev_term: Option<u64>,
    entries: Seq<Entry<C>>,
) -> bool {
    let p = reach(prev) as int;
    &&& prev is Some ==> p >= 1
    &&& p + entries.len() <= log.len()
    &&& entries == log.subrange(p, p + entries.len())
    &&& prev_term == term_at(log, prev)
}

/// All logs, and all that leaders send of them, are the work of leaders.
pub open spec fn logs_chronicled<C>(c: Cluster<C>) -> bool {
    &&& forall|id: Seq<char>| #[trigger] c.nodes.contains_key(id) ==> coherent(c, c.nodes[id].log)
    &&& forall|term: u64| #[trigger]
        c.chronicle.contains_key(term) ==> {
            &&& coherent(c, c.chronicle[term])
            &&& exists|leader: Seq<char>| #[trigger] c.reigns.contains((term, leader))
        }
    &&& forall|id: Seq<char>| #[trigger]
        c.nodes.contains_key(id) && c.nodes[id].is_leader() ==> c.chronicle[c.nodes[id].term]
            == c.nodes[id].log
    &&& forall|l: Letter<C>| #[trigger]
        c.sent.contains(l) ==> (l.msg matches RaftMsg::AppendEntries {
            term,
            prev_log_index,
            prev_log_term,
            entries,
            ..
        } ==> entries.len() > 0 ==> c.chronicle.contains_key(term) && excerpt(
            c.chronicle[term],
            prev_log_index,
            prev_log_term,
            entries,
        ))
}

/// Chronicles only grow.
pub open spec fn grows<C>(c: Cluster<C>, d: Cluster<C>) -> bool {
    forall|term: u64| #[trigger]
        c.chronicle.contains_key(term) ==> d.chronicle.contains_key(term)
            && c.chronicle[term].is_prefix_of(d.chronicle[term])
}

pub proof fn lemma_coherent_grows<C>(c: Cluster<C>, d: Cluster<C>, log: Seq<Entry<C>>)
    requires
        coherent(c, log),
        grows(c, d),
    ensures
        coherent(d, log),
{
    assert forall|i: int| 0 <= i < log.len() implies {
        let term = (#[trigger] log[i]).term;
        &&& d.chronicle.contains_key(term)
        &&& i < d.chronicle[term].len()
        &&& log.take(i + 1) == d.chronicle[term].take(i + 1)
    } by {
        let term = log[i].term;
        assert(c.chronicle.contains_key(term));
        let (a, b) = (c.chronicle[term], d.chronicle[term]);
        assert(a.take(i + 1) =~= b.take(i + 1)) by {
            assert(a =~= b.subrange(0, a.len() as int));
            assert forall|k: int| 0 <= k < i + 1 implies a[k] == b[k] by {
                assert(b.subrange(0, a.len() as int)[k] == b[k]);
            }
        }
    }
}

pub proof fn lemma_coherent_prefix<C>(c: Cluster<C>, log: Seq<Entry<C>>, n: int)
    requires
        coherent(c, log),
        0 <= n <= log.len(),
    ensures
        coherent(c, log.take(n)),
{
    let short = log.take(n);
    assert forall|i: int| 0 <= i < short.len() implies {
        let term = (#[trigger] short[i]).term;
        &&& c.chronicle.contains_key(term)
        &&& i < c.chronicle[term].len()
        &&& short.take(i + 1) == c.chronicle[term].take(i + 1)
    } by {
        assert(short[i] == log[i]);
        assert(short.take(i + 1) =~= log.take(i + 1));
    }
}

/// Two logs that have an entry of the same term at the same place are the same up to there.
pub proof fn lemma_coherent_match<C>(c: Cluster<C>, a: Seq<Entry<C>>, b: Seq<Entry<C>>, i: int)
    requires
        coherent(c, a),
        coherent(c, b),
        0 <= i < a.len(),
        i < b.len(),
        a[i].term == b[i].term,
    ensures
        a.take(i + 1) == b.take(i + 1),
{
}

/// What a leader sends makes the log of a follower, as far as it then goes, the leader's.
pub proof fn lemma_splice<C>(
    c: Cluster<C>,
    n: Node<C>,
    log: Seq<Entry<C>>,
    prev: Option<u64>,
    prev_term: Option<u64>,
    entries: Seq<Entry<C>>,
)
    requires
        coherent(c, n.log),
        coherent(c, log),
        excerpt(log, prev, prev_term, entries),
        term_at(n.log, prev) == prev_term,
        prev != Some(u64::MAX),
    ensures
        n.spliced(prev, entries) == log.take(reach(prev) as int + entries.len()),
{
    let from = match prev {
        None => 1u64,
        Some(i) => (i + 1) as u64,
    };
    let kept = entries_before(n.log, from);
    let p = reach(prev) as int;
    assert(kept =~= log.take(p)) by {
        if p >= 1 {
            assert(n.log[p - 1].term == log[p - 1].term);
            lemma_coherent_match(c, n.log, log, p - 1);
            assert(kept =~= n.log.take(p));
        }
    }
    assert(n.spliced(prev, entries) =~= log.take(p + entries.len()));
}

/// Whatever a leader sends, what becomes of the log of a follower is the work of leaders: it
/// is part of that log, or of the leader's.
pub proof fn lemma_splice_coherent<C>(
    c: Cluster<C>,
    n: Node<C>,
    term: u64,
    prev: Option<u64>,
    prev_term: Option<u64>,
    entries: Seq<Entry<C>>,
)
    requires
        coherent(c, n.log),
        entries.len() > 0 ==> c.chronicle.contains_key(term) && excerpt(
            c.chronicle[term],
            prev,
            prev_term,
            entries,
        ) && coherent(c, c.chronicle[term]),
        term_at(n.log, prev) == prev_term,
        prev != Some(u64::MAX),
    ensures
        coherent(c, n.spliced(prev, entries)),
        entries.len() == 0 ==> n.spliced(prev, entries).is_prefix_of(n.log),
        entries.len() > 0 ==> n.spliced(prev, entries).is_prefix_of(c.chronicle[term]),
{
    if entries.len() == 0 {
        let from = match prev {
            None => 1u64,
            Some(i) => (i + 1) as u64,
        };
        assert(n.spliced(prev, entries) =~= entries_before(n.log, from));
        if from <= n.log.len() {
            lemma_coherent_prefix(c, n.log, from - 1);
        }
    } else {
        let log = c.chronicle[term];
        lemma_splice(c, n, log, prev, prev_term, entries);
        lemma_coherent_prefix(c, log, reach(prev) as int + entries.len());
    }
}

pub proof fn lemma_step_grows<C>(c: Cluster<C>, d: Cluster<C>, who: Seq<char>, e: Event<C>, t: Tick)
    requires
        well_connected(c),
        votes_recorded(c),
        reigns_earned(c),
        logs_chronicled(c),
        steps(c, d, who, e, t),
    ensures
        grows(c, d),
{
    let n = c.nodes[who];
    let m = happened(n, e, t).0;
    lemma_what_happens(n, e, t);
    stays_valid(n, e, t);
    lemma_step_connected(c, d, who, e, t);
    lemma_step_votes(c, d, who, e, t);
    lemma_step_reigns(c, d, who, e, t);
    assert forall|term: u64| #[trigger] c.chronicle.contains_key(term) implies d.chronicle.contains_key(
        term,
    ) && c.chronicle[term].is_prefix_of(d.chronicle[term]) by {
        if m.is_leader() && term == m.term {
            if n.is_leader() {
                leader_appends_only(n, e, t);
            } else {
                let l = choose|l: Seq<char>| #[trigger] c.reigns.contains((term, l));
                assert(d.reigns.contains((term, l)));
                assert(d.reigns.contains((term, who)));
                lemma_one_reign(d, term, l, who);
                assert(!c.reigns.contains((n.term, who)));
            }
        }
    }
}

/// What happens to the log of a node.
pub proof fn lemma_log_after<C>(n: Node<C>, e: Event<C>, t: Tick)
    requires
        n.valid(),
        can_happen(n, e, t),
    ensures
        ({
            let m = happened(n, e, t).0;
            ||| m.log == n.log
            ||| e matches Event::Request { cmd } && m.is_leader() && m.log == n.log.push(
                Entry { cmd, term: m.term },
            )
            ||| e matches Event::Arrival {
                msg: RaftMsg::AppendEntries { term, prev_log_index, prev_log_term, entries, .. },
                ..
            } && m.log == n.spliced(prev_log_index, entries) && term_at(n.log, prev_log_index)
                == prev_log_term && prev_log_index != Some(u64::MAX) && !m.is_leader() && m.term
                == term
        }),
{
    match e {
        Event::Replication => lemma_replicated(n, t.now),
        Event::Request { cmd } => {
            assert(n.appended(cmd).valid());
            lemma_replicated(n.appended(cmd), t.now);
        },
        Event::Arrival { from, msg } => {
            let seen = n.seen_term(msg.term(), t);
            assert(seen.valid());
            match msg {
                RaftMsg::RequestVoteResponse { term, vote_granted } => {
                    if let Part::Candidate { votes } = seen.part {
                        let votes = votes.insert(from);
                        let won = Node { part: Part::Candidate { votes }, ..seen };
                        assert(won.valid());
                        lemma_leader(won);
                        lemma_replicated(won.leader(), t.now);
                    }
                },
                RaftMsg::AppendEntriesResponse { index, success, .. } => {
                    lemma_entries_answered(seen, from, success, index, t);
                },
                _ => {},
            }
        },
        _ => {},
    }
}

pub proof fn lemma_step_logs<C>(c: Cluster<C>, d: Cluster<C>, who: Seq<char>, e: Event<C>, t: Tick)
    requires
        well_connected(c),
        votes_recorded(c),
        reigns_earned(c),
        logs_chronicled(c),
        steps(c, d, who, e, t),
    ensures
        logs_chronicled(d),
{
    let n = c.nodes[who];
    let (m, mail) = happened(n, e, t);
    lemma_what_happens(n, e, t);
    lemma_log_after(n, e, t);
    lemma_step_grows(c, d, who, e, t);
    lemma_coherent_grows(c, d, n.log);
    assert(coherent(d, m.log)) by {
        if m.log != n.log {
            match e {
                Event::Request { cmd } => {
                    assert(d.chronicle[m.term] == m.log);
                    assert forall|i: int| 0 <= i < m.log.len() implies {
                        let term = (#[trigger] m.log[i]).term;
                        &&& d.chronicle.contains_key(term)
                        &&& i < d.chronicle[term].len()
                        &&& m.log.take(i + 1) == d.chronicle[term].take(i + 1)
                    } by {
                        if i < n.log.len() {
                            assert(m.log[i] == n.log[i]);
                            assert(m.log.take(i + 1) =~= n.log.take(i + 1));
                        }
                    }
                },
                Event::Arrival { from, msg } => {
                    if let RaftMsg::AppendEntries {
                        term,
                        prev_log_index,
                        prev_log_term,
                        entries,
                        ..
                    } = msg {
                        assert(c.sent.contains(Letter { from, to: who, msg }));
                        lemma_splice_coherent(
                            c,
                            n,
                            term,
                            prev_log_index,
                            prev_log_term,
                            entries,
                        );
                        lemma_coherent_grows(c, d, m.log);
                    }
                },
                _ => {},
            }
        }
    }
    assert forall|id: Seq<char>| #[trigger] d.nodes.contains_key(id) implies coherent(
        d,
        d.nodes[id].log,
    ) by {
        if id != who {
            assert(c.nodes.contains_key(id));
            lemma_coherent_grows(c, d, c.nodes[id].log);
        }
    }
    assert forall|term: u64| #[trigger] d.chronicle.contains_key(term) implies {
        &&& coherent(d, d.chronicle[term])
        &&& exists|leader: Seq<char>| #[trigger] d.reigns.contains((term, leader))
    } by {
        if m.is_leader() && term == m.term {
            assert(d.reigns.contains((term, who)));
        } else {
            assert(c.chronicle.contains_key(term));
            lemma_coherent_grows(c, d, c.chronicle[term]);
            let l = choose|l: Seq<char>| #[trigger] c.reigns.contains((term, l));
            assert(d.reigns.contains((term, l)));
        }
    }
    assert forall|id: Seq<char>| #[trigger]
        d.nodes.contains_key(id) && d.nodes[id].is_leader() implies d.chronicle[d.nodes[id].term]
        == d.nodes[id].log by {
        if id != who {
            assert(c.nodes.contains_key(id));
            if m.is_leader() && m.term == d.nodes[id].term {
                lemma_step_connected(c, d, who, e, t);
                lemma_step_votes(c, d, who, e, t);
                lemma_step_reigns(c, d, who, e, t);
                assert(d.reigns.contains((m.term, who)));
                assert(d.reigns.contains((m.term, id)));
                lemma_one_reign(d, m.term, who, id);
            }
        }
    }
    assert forall|l: Letter<C>| #[trigger] d.sent.contains(l) implies (
    l.msg matches RaftMsg::AppendEntries { term, prev_log_index, prev_log_term, entries, .. }
        ==> entries.len() > 0 ==> d.chronicle.contains_key(term) && excerpt(
        d.chronicle[term],
        prev_log_index,
        prev_log_term,
        entries,
    )) by {
        if let RaftMsg::AppendEntries { term, prev_log_index, prev_log_term, entries, .. } = l.msg {
            if entries.len() > 0 {
                if c.sent.contains(l) {
                    let (a, b) = (c.chronicle[term], d.chronicle[term]);
                    assert(c.chronicle.contains_key(term));
                    assert(a =~= b.subrange(0, a.len() as int));
                    let p = reach(prev_log_index) as int;
                    assert(a.subrange(p, p + entries.len()) =~= b.subrange(p, p + entries.len()));
                } else {
                    let i = choose|i: int|
                        0 <= i < mail.len() && #[trigger] mail[i] == (l.to, l.msg);
                    assert(mail[i] == (l.to, l.msg));
                    let next = m.part->next[l.to];
                    assert(l.msg == m.replication(next));
                    assert(entries == entries_from(m.log, next));
                    let p = reach(prev_log_index) as int;
                    assert(entries =~= m.log.subrange(p, p + entries.len()));
                }
            }
        }
    }
}

/// What holds of a cluster throughout its history.
pub open spec fn sound<C>(c: Cluster<C>) -> bool {
    &&& well_connected(c)
    &&& votes_recorded(c)
    &&& reigns_earned(c)
    &&& logs_chronicled(c)
}

/// Whatever happens, a cluster stays sound.
pub proof fn stays_sound<C>(h: Seq<Cluster<C>>, i: int)
    requires
        is_history(h),
        0 <= i < h.len(),
    ensures
        sound(h[i]),
    decreases i,
{
    if i == 0 {
        lemma_start(h[0]);
    } else {
        stays_sound(h, i - 1);
        let k = i - 1;
        assert(h[k + 1] == h[i]);
        let (who, e, t) = choose|who: Seq<char>, e: Event<C>, t: Tick| #[trigger]
            steps(h[k], #[trigger] h[k + 1], who, e, t);
        assert(steps(h[k], h[k + 1], who, e, t));
        lemma_step_connected(h[k], h[i], who, e, t);
        lemma_step_votes(h[k], h[i], who, e, t);
        lemma_step_reigns(h[k], h[i], who, e, t);
        lemma_step_logs(h[k], h[i], who, e, t);
    }
}

/// What a cluster's past tells is never taken back.
pub proof fn lemma_past_stays<C>(h: Seq<Cluster<C>>, i: int, j: int)
    requires
        is_history(h),
        0 <= i <= j < h.len(),
    ensures
        h[i].nodes.dom() == h[j].nodes.dom(),
        forall|id: Seq<char>| #[trigger]
            h[i].nodes.contains_key(id) ==> h[i].nodes[id].term <= h[j].nodes[id].term,
        h[i].sent.subset_of(h[j].sent),
        h[i].ballots.subset_of(h[j].ballots),
        h[i].reigns.subset_of(h[j].reigns),
        grows(h[i], h[j]),
    decreases j - i,
{
    if i < j {
        lemma_past_stays(h, i, j - 1);
        let k = j - 1;
        assert(h[k + 1] == h[j]);
        let (who, e, t) = choose|who: Seq<char>, e: Event<C>, t: Tick| #[trigger]
            steps(h[k], #[trigger] h[k + 1], who, e, t);
        assert(steps(h[k], h[k + 1], who, e, t));
        stays_sound(h, k);
        lemma_what_happens(h[k].nodes[who], e, t);
        lemma_step_connected(h[k], h[j], who, e, t);
        lemma_step_grows(h[k], h[j], who, e, t);
        assert forall|id: Seq<char>| #[trigger] h[i].nodes.contains_key(id) implies h[i].nodes[id].term
            <= h[j].nodes[id].term by {
            assert(h[k].nodes.contains_key(id));
        }
        assert forall|term: u64| #[trigger] h[i].chronicle.contains_key(term) implies h[j].chronicle.contains_key(
            term,
        ) && h[i].chronicle[term].is_prefix_of(h[j].chronicle[term]) by {
            assert(h[k].chronicle.contains_key(term));
            let (x, y, z) = (h[i].chronicle[term], h[k].chronicle[term], h[j].chronicle[term]);
            assert(x =~= z.subrange(0, x.len() as int)) by {
                assert(x =~= y.subrange(0, x.len() as int));
                assert(y =~= z.subrange(0, y.len() as int));
            }
        }
    } else {
        assert forall|term: u64| #[trigger] h[i].chronicle.contains_key(term) implies h[i].chronicle[term].is_prefix_of(
            h[i].chronicle[term]) by {
            let x = h[i].chronicle[term];
            assert(x =~= x.subrange(0, x.len() as int));
        }
    }
}

/// Election safety: at most one leader can be elected in a given term. Whoever leads in a
/// term at one time is whoever leads in it at any other.
pub proof fn election_safety<C>(
    h: Seq<Cluster<C>>,
    i: int,
    a: Seq<char>,
    j: int,
    b: Seq<char>,
)
    requires
        is_history(h),
        0 <= i < h.len(),
        0 <= j < h.len(),
        h[i].nodes.contains_key(a),
        h[j].nodes.contains_key(b),
        h[i].nodes[a].is_leader(),
        h[j].nodes[b].is_leader(),
        h[i].nodes[a].term == h[j].nodes[b].term,
    ensures
        a == b,
{
    let last = h.len() - 1;
    stays_sound(h, i);
    stays_sound(h, j);
    stays_sound(h, last);
    lemma_past_stays(h, i, last);
    lemma_past_stays(h, j, last);
    lemma_one_reign(h[last], h[i].nodes[a].term, a, b);
}

/// Log matching: if two logs contain an entry with the same index and term, then the logs
/// are identical in all entries up through the given index.
pub proof fn log_matching<C>(h: Seq<Cluster<C>>, i: int, a: Seq<char>, b: Seq<char>, index: u64)
    requires
        is_history(h),
        0 <= i < h.len(),
        h[i].nodes.contains_key(a),
        h[i].nodes.contains_key(b),
        term_at(h[i].nodes[a].log, Some(index)) is Some,
        term_at(h[i].nodes[a].log, Some(index)) == term_at(h[i].nodes[b].log, Some(index)),
    ensures
        h[i].nodes[a].log.take(index as int) == h[i].nodes[b].log.take(index as int),
{
    stays_sound(h, i);
    lemma_coherent_match(h[i], h[i].nodes[a].log, h[i].nodes[b].log, index - 1);
}

/// A leader hears of no other leader of its term: no request to append entries of its term
/// is ever on its way to it.
pub proof fn no_rival_leader<C>(h: Seq<Cluster<C>>, i: int, l: Letter<C>)
    requires
        is_history(h),
        0 <= i < h.len(),
        h[i].sent.contains(l),
        l.msg is AppendEntries,
        h[i].nodes.contains_key(l.to),
        h[i].nodes[l.to].is_leader(),
    ensures
        l.msg.term() != h[i].nodes[l.to].term,
{
    stays_sound(h, i);
    if l.msg.term() == h[i].nodes[l.to].term {
        lemma_one_reign(h[i], l.msg.term(), l.from, l.to);
    }
}

} // verus!
