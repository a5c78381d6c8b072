//! What holds of a node, whatever happens to it.
use crate::raft::log::{term_at, Entry};
use crate::raft::machine::StateMachine;
use crate::raft::model::{
    applied_all, before, is_median_match, lacking, majority, median_match, not_beyond, reach, Mail, Node,
    Part, Tick,
};
use crate::raft::rpc::RaftMsg;
use crate::raft::MIN_REPLICATION_INTERVAL;
use vstd::prelude::*;

verus! {

/// What can happen to a node.
#[verifier::ext_equal]
pub enum Event<C> {
    /// The node looks at the clock, whether it is time for an election.
    Clock,
    /// The node looks for entries that its peers lack.
    Replication,
    /// A message arrives from a peer.
    Arrival { from: Seq<char>, msg: RaftMsg<C> },
    /// A client of the leader has a command.
    Request { cmd: C },
    /// The node goes down, and boots again with what it kept: its term, its vote and its
    /// log.
    Reboot,
}

/// Whether something can happen to a node. The last term that there is has no election
/// behind it, and the last index that there is no entry.
pub open spec fn can_happen<C>(n: Node<C>, e: Event<C>, t: Tick) -> bool {
    &&& t.in_range()
    &&& match e {
        Event::Clock => n.term < u64::MAX,
        Event::Replication => true,
        Event::Arrival { from, msg } => n.acceptable(from, msg),
        Event::Request { .. } => n.is_leader() && n.log.len() < u64::MAX,
        Event::Reboot => true,
    }
}

/// What becomes of a node, and what it sends.
pub open spec fn happened<C>(n: Node<C>, e: Event<C>, t: Tick) -> (Node<C>, Mail<C>) {
    match e {
        Event::Clock => n.deadline_seen(t),
        Event::Replication => n.replicated(t.now),
        Event::Arrival { from, msg } => n.received(from, msg, t),
        Event::Request { cmd } => n.appended(cmd).replicated(t.now),
        Event::Reboot => (
            Node::booted(n.id, n.peers, n.term, n.voted_for, n.log, t.now),
            seq![],
        ),
    }
}

/// Mail holds nothing but entries to append, and each is from the leader that the node is.
pub open spec fn only_entries<C>(n: Node<C>, mail: Mail<C>) -> bool {
    forall|i: int|
        0 <= i < mail.len() ==> {
            &&& (#[trigger] mail[i]).1 is AppendEntries
            &&& mail[i].1.term() == n.term
            &&& n.is_leader()
            &&& n.peers.contains(mail[i].0)
            &&& mail[i].1 == n.replication(n.part->next[mail[i].0])
        }
}

proof fn lemma_replications<C>(
    n: Node<C>,
    next: Map<Seq<char>, u64>,
    heartbeat: bool,
    i: int,
)
    requires
        n.is_leader(),
        next == n.part->next,
        i >= 0,
    ensures
        only_entries(n, n.replications(next, heartbeat, i)),
    decreases n.peers.len() - i,
{
    if i < n.peers.len() {
        lemma_replications(n, next, heartbeat, i + 1);
        let rest = n.replications(next, heartbeat, i + 1);
        let all = n.replications(next, heartbeat, i);
        let to = n.peers[i];
        if all != rest {
            assert(all == seq![(to, n.replication(next[to]))] + rest);
            assert forall|k: int| 0 <= k < all.len() implies {
                &&& (#[trigger] all[k]).1 is AppendEntries
                &&& all[k].1.term() == n.term
                &&& n.is_leader()
                &&& n.peers.contains(all[k].0)
                &&& all[k].1 == n.replication(n.part->next[all[k].0])
            } by {
                if k > 0 {
                    assert(all[k] == rest[k - 1]);
                }
            }
        }
    }
}

/// What replication does to a node is that it remembers when it was.
pub proof fn lemma_replicated<C>(n: Node<C>, now: u64)
    requires
        n.valid(),
    ensures
        ({
            let (m, mail) = n.replicated(now);
            &&& m.valid()
            &&& m == (Node { part: m.part, ..n })
            &&& m.is_leader() == n.is_leader()
            &&& !n.is_leader() ==> m == n
            &&& n.is_leader() ==> m.part->next == n.part->next && m.part->matched
                == n.part->matched
            &&& only_entries(m, mail)
        }),
{
    if let Part::Leader { next, matched, last_replication } = n.part {
        let (m, mail) = n.replicated(now);
        lemma_replications(n, next, true, 0);
        lemma_replications(n, next, false, 0);
        assert(only_entries(n, mail));
        assert(forall|k: u64| #[trigger] m.replication(k) == n.replication(k));
    }
}

/// Committing changes nothing but what is committed and applied.
pub proof fn lemma_committed<C>(n: Node<C>)
    requires
        n.valid(),
    ensures
        n.committed().valid(),
        n.committed() == (Node {
            commit: n.committed().commit,
            applied: n.committed().applied,
            ..n
        }),
        !before(n.committed().commit, n.commit),
{
}

pub proof fn lemma_leader<C>(n: Node<C>)
    requires
        n.valid(),
        n.part is Candidate,
        n.log.len() < u64::MAX,
    ensures
        n.leader().valid(),
{
    let l = n.leader();
    assert(l.part->next.dom() =~= n.peers.to_set());
    assert(l.part->matched.dom() =~= n.peers.to_set());
}

/// What holds of a node at all times keeps to hold, whatever happens.
pub proof fn stays_valid<C>(n: Node<C>, e: Event<C>, t: Tick)
    requires
        n.valid(),
        can_happen(n, e, t),
    ensures
        happened(n, e, t).0.valid(),
        happened(n, e, t).0.id == n.id,
        happened(n, e, t).0.peers == n.peers,
{
    match e {
        Event::Clock => {},
        Event::Replication => lemma_replicated(n, t.now),
        Event::Request { cmd } => {
            assert(n.appended(cmd).valid());
            lemma_replicated(n.appended(cmd), t.now);
        },
        Event::Reboot => {},
        Event::Arrival { from, msg } => {
            let m = n.seen_term(msg.term(), t);
            assert(m.valid());
            match msg {
                RaftMsg::RequestVote { .. } => {},
                RaftMsg::RequestVoteResponse { term, vote_granted } => {
                    if let Part::Candidate { votes } = m.part {
                        let votes = votes.insert(from);
                        let won = Node { part: Part::Candidate { votes }, ..m };
                        assert(won.valid());
                        lemma_leader(won);
                        lemma_replicated(won.leader(), t.now);
                    }
                },
                RaftMsg::AppendEntries { .. } => {},
                RaftMsg::AppendEntriesResponse { index, success, .. } => {
                    lemma_entries_answered(m, from, success, index, t);
                },
            }
        },
    }
}

pub proof fn lemma_entries_answered<C>(
    n: Node<C>,
    peer: Seq<char>,
    success: bool,
    index: Option<u64>,
    t: Tick,
)
    requires
        n.valid(),
        success ==> index != Some(u64::MAX) && index != Some(0u64),
    ensures
        ({
            let (m, mail) = n.entries_answered(peer, success, index, t);
            &&& m.valid()
            &&& m == (Node { part: m.part, commit: m.commit, applied: m.applied, ..n })
            &&& m.is_leader() == n.is_leader()
            &&& !n.is_leader() ==> m == n
            &&& !before(m.commit, n.commit)
            &&& only_entries(m, mail)
        }),
{
    if let Part::Leader { next, matched, last_replication } = n.part {
        if next.contains_key(peer) {
            if !success {
                let lower = if next[peer] <= 1 {
                    1u64
                } else {
                    (next[peer] - 1) as u64
                };
                let m = Node {
                    part: Part::Leader { next: next.insert(peer, lower), matched, last_replication },
                    ..n
                };
                assert(m.part->next.dom() =~= next.dom());
                lemma_replicated(m, t.now);
            } else if let Some(i) = index {
                let m = Node {
                    part: Part::Leader {
                        next: next.insert(peer, (i + 1) as u64),
                        matched: matched.insert(peer, Some(i)),
                        last_replication,
                    },
                    ..n
                };
                assert(m.part->next.dom() =~= next.dom());
                assert(m.part->matched.dom() =~= matched.dom());
                lemma_committed(m);
            }
        }
    }
}

/// The term of a node never decreases.
pub proof fn term_never_decreases<C>(n: Node<C>, e: Event<C>, t: Tick)
    requires
        n.valid(),
        can_happen(n, e, t),
    ensures
        happened(n, e, t).0.term >= n.term,
{
    lemma_what_happens(n, e, t);
}

/// A node votes for no more than one candidate per term: once cast, a vote stands until the
/// next term.
pub proof fn one_vote_per_term<C>(n: Node<C>, e: Event<C>, t: Tick)
    requires
        n.valid(),
        can_happen(n, e, t),
        n.voted_for is Some,
        happened(n, e, t).0.term == n.term,
    ensures
        happened(n, e, t).0.voted_for == n.voted_for,
{
    lemma_what_happens(n, e, t);
}

/// A vote that is granted is a vote that was cast, and it is of the term of the node.
pub open spec fn votes_true<C>(n: Node<C>, mail: Mail<C>) -> bool {
    forall|i: int|
        0 <= i < mail.len() ==> {
            (#[trigger] mail[i]).1 matches RaftMsg::RequestVoteResponse { term, vote_granted: true }
                ==> term == n.term && n.voted_for == Some(mail[i].0)
        }
}

/// Entries to append come from the leader of the term.
pub open spec fn entries_true<C>(n: Node<C>, mail: Mail<C>) -> bool {
    forall|i: int|
        0 <= i < mail.len() ==> {
            (#[trigger] mail[i]).1 is AppendEntries ==> {
                &&& mail[i].1.term() == n.term
                &&& n.is_leader()
                &&& n.peers.contains(mail[i].0)
                &&& mail[i].1 == n.replication(n.part->next[mail[i].0])
            }
        }
}

/// The votes that a candidate has once something happened to it: those that it had, and
/// the one that just arrived.
pub open spec fn votes_after<C>(n: Node<C>, e: Event<C>) -> Set<Seq<char>> {
    let had = match n.part {
        Part::Candidate { votes } => votes,
        _ => Set::empty(),
    };
    match e {
        Event::Arrival {
            from,
            msg: RaftMsg::RequestVoteResponse { term, vote_granted: true },
        } => if term == n.term {
            had.insert(from)
        } else {
            had
        },
        _ => had,
    }
}

/// What happens to a node, in short.
pub proof fn lemma_what_happens<C>(n: Node<C>, e: Event<C>, t: Tick)
    requires
        n.valid(),
        can_happen(n, e, t),
    ensures
        ({
            let (m, mail) = happened(n, e, t);
            &&& m.term >= n.term
            &&& m.term == n.term && n.voted_for is Some ==> m.voted_for == n.voted_for
            &&& votes_true(m, mail)
            &&& entries_true(m, mail)
            &&& m.part matches Part::Candidate { votes } ==> votes == set![m.id] || (m.term == n.term
                && n.part is Candidate && votes == votes_after(n, e)) || (m.term == n.term && m.part
                == n.part)
            &&& m.is_leader() ==> m.term == n.term && (n.is_leader() || (n.part is Candidate
                && votes_after(n, e).len() >= majority(n.peers.len())))
        }),
{
    let (m, mail) = happened(n, e, t);
    match e {
        Event::Clock => {},
        Event::Replication => lemma_replicated(n, t.now),
        Event::Request { cmd } => {
            assert(n.appended(cmd).valid());
            lemma_replicated(n.appended(cmd), t.now);
        },
        Event::Reboot => {},
        Event::Arrival { from, msg } => {
            let seen = n.seen_term(msg.term(), t);
            assert(seen.valid());
            match msg {
                RaftMsg::RequestVote { .. } => {},
                RaftMsg::RequestVoteResponse { term, vote_granted } => {
                    if let Part::Candidate { votes } = seen.part {
                        let votes = votes.insert(from);
                        let won = Node { part: Part::Candidate { votes }, ..seen };
                        assert(won.valid());
                        lemma_leader(won);
                        lemma_replicated(won.leader(), t.now);
                    }
                },
                RaftMsg::AppendEntries { .. } => {},
                RaftMsg::AppendEntriesResponse { index, success, .. } => {
                    lemma_entries_answered(seen, from, success, index, t);
                },
            }
        },
    }
}

/// A leader never overwrites or deletes entries in its log; it only appends new entries.
pub proof fn leader_appends_only<C>(n: Node<C>, e: Event<C>, t: Tick)
    requires
        n.valid(),
        can_happen(n, e, t),
        n.is_leader(),
        happened(n, e, t).0.is_leader(),
    ensures
        n.log.is_prefix_of(happened(n, e, t).0.log),
{
    match e {
        Event::Replication => lemma_replicated(n, t.now),
        Event::Request { cmd } => {
            assert(n.appended(cmd).valid());
            lemma_replicated(n.appended(cmd), t.now);
        },
        Event::Arrival { from, msg } => {
            let seen = n.seen_term(msg.term(), t);
            assert(seen.valid());
            if let RaftMsg::AppendEntriesResponse { index, success, .. } = msg {
                lemma_entries_answered(seen, from, success, index, t);
            }
        },
        _ => {},
    }
}

/// What was committed stays committed: the commit index never goes back, until a reboot.
pub proof fn commit_never_goes_back<C>(n: Node<C>, e: Event<C>, t: Tick)
    requires
        n.valid(),
        can_happen(n, e, t),
        !(e is Reboot),
    ensures
        reach(happened(n, e, t).0.commit) >= reach(n.commit),
        !before(happened(n, e, t).0.commit, n.commit),
{
    match e {
        Event::Replication => lemma_replicated(n, t.now),
        Event::Request { cmd } => {
            assert(n.appended(cmd).valid());
            lemma_replicated(n.appended(cmd), t.now);
        },
        Event::Arrival { from, msg } => {
            let seen = n.seen_term(msg.term(), t);
            assert(seen.valid());
            match msg {
                RaftMsg::RequestVoteResponse { term, vote_granted } => {
                    if let Part::Candidate { votes } = seen.part {
                        let votes = votes.insert(from);
                        let won = Node { part: Part::Candidate { votes }, ..seen };
                        assert(won.valid());
                        lemma_leader(won);
                        lemma_replicated(won.leader(), t.now);
                    }
                },
                RaftMsg::AppendEntriesResponse { index, success, .. } => {
                    lemma_entries_answered(seen, from, success, index, t);
                },
                _ => {},
            }
        },
        _ => {},
    }
}

/// Replication is rate limited: a leader that replicated less than the minimum interval ago
/// sends no entries, and stays as it is.
pub proof fn replication_is_rate_limited<C>(n: Node<C>, now: u64)
    requires
        n.part matches Part::Leader { last_replication: Some(last), .. } && now - last
            < MIN_REPLICATION_INTERVAL,
    ensures
        n.replicated(now).0 == n,
        n.replicated(now).1.len() == 0,
{
}

/// The least number that enough peers do not surpass is what one of them has.
proof fn lemma_median_up_to(matched: Map<Seq<char>, Option<u64>>, n: u64)
    requires
        matched.dom().finite(),
        matched.len() > 0,
        not_beyond(matched, n).len() > (matched.len() - 1) / 2,
    ensures
        exists|m: u64| is_median_match(matched, m),
    decreases n,
{
    let middle = (matched.len() - 1) / 2;
    if n > 0 && not_beyond(matched, (n - 1) as u64).len() > middle {
        lemma_median_up_to(matched, (n - 1) as u64);
    } else {
        if n == 0 {
            assert(lacking(matched, n) =~= Set::empty());
        } else {
            assert(lacking(matched, n) =~= not_beyond(matched, (n - 1) as u64));
        }
        if forall|p: Seq<char>| #[trigger] matched.contains_key(p) ==> reach(matched[p]) != n {
            assert(not_beyond(matched, n) =~= lacking(matched, n)) by {
                assert forall|p: Seq<char>| not_beyond(matched, n).contains(p) implies lacking(
                    matched,
                    n,
                ).contains(p) by {
                    assert(matched.contains_key(p));
                }
            }
            assert(false);
        }
        assert(is_median_match(matched, n));
    }
}

/// There is a median of what peers have, as far as that is known.
pub proof fn median_exists(matched: Map<Seq<char>, Option<u64>>)
    requires
        matched.dom().finite(),
        matched.len() > 0,
    ensures
        is_median_match(matched, median_match(matched)),
{
    assert(not_beyond(matched, u64::MAX) =~= matched.dom()) by {
        assert forall|p: Seq<char>| matched.dom().contains(p) implies not_beyond(
            matched,
            u64::MAX,
        ).contains(p) by {
            assert(matched.contains_key(p));
        }
    }
    lemma_median_up_to(matched, u64::MAX);
}

/// The peers that have the entry at `n`.
pub open spec fn having(matched: Map<Seq<char>, Option<u64>>, n: u64) -> Set<Seq<char>> {
    matched.dom().filter(|p: Seq<char>| reach(matched[p]) >= n)
}

/// What a leader commits is an entry of its own term, and a majority of the cluster has it:
/// the leader, and so many of its peers.
pub proof fn committed_is_on_majority<C>(n: Node<C>)
    requires
        n.valid(),
        n.is_leader(),
        n.peers.no_duplicates(),
        n.committed().commit != n.commit,
    ensures
        ({
            let i = n.committed().commit;
            &&& i is Some
            &&& before(n.commit, i)
            &&& term_at(n.log, i) == Some(n.term)
            &&& having(n.part->matched, i->Some_0).len() + 1 >= majority(n.peers.len())
        }),
{
    let matched = n.part->matched;
    n.peers.unique_seq_to_set();
    assert(matched.len() == n.peers.len());
    median_exists(matched);
    let i = median_match(matched);
    let lack = lacking(matched, i);
    let have = having(matched, i);
    assert(have =~= matched.dom().difference(lack));
    vstd::set_lib::lemma_set_disjoint_lens(lack, have);
    assert(lack + have =~= matched.dom());
}

/// The median of what peers have is the highest index up to which more than half of them
/// have all.
pub proof fn median_is_highest_on_most(matched: Map<Seq<char>, Option<u64>>, n: u64)
    requires
        matched.dom().finite(),
        matched.len() > 0,
    ensures
        2 * having(matched, median_match(matched)).len() > matched.len(),
        n > median_match(matched) ==> 2 * having(matched, n).len() <= matched.len(),
{
    median_exists(matched);
    let m = median_match(matched);
    let lack = lacking(matched, m);
    assert(having(matched, m) =~= matched.dom().difference(lack));
    vstd::set_lib::lemma_set_disjoint_lens(lack, having(matched, m));
    assert(lack + having(matched, m) =~= matched.dom());
    if n > m {
        let less = not_beyond(matched, m);
        let have = having(matched, n);
        assert(less.disjoint(have));
        vstd::set_lib::lemma_set_disjoint_lens(less, have);
        vstd::set_lib::lemma_len_subset(less + have, matched.dom());
    }
}

/// Two majorities of a cluster have a node in common.
pub proof fn majorities_meet(cluster: Set<Seq<char>>, a: Set<Seq<char>>, b: Set<Seq<char>>)
    requires
        cluster.finite(),
        cluster.len() > 0,
        a.subset_of(cluster),
        b.subset_of(cluster),
        a.len() >= majority((cluster.len() - 1) as nat),
        b.len() >= majority((cluster.len() - 1) as nat),
    ensures
        exists|v: Seq<char>| #[trigger] a.contains(v) && b.contains(v),
{
    vstd::set_lib::lemma_len_subset(a, cluster);
    vstd::set_lib::lemma_len_subset(b, cluster);
    if forall|v: Seq<char>| #[trigger] a.contains(v) ==> !b.contains(v) {
        assert(a.disjoint(b));
        vstd::set_lib::lemma_set_disjoint_lens(a, b);
        assert((a + b).subset_of(cluster));
        vstd::set_lib::lemma_len_subset(a + b, cluster);
    }
}

/// Entries can be applied in steps.
pub proof fn applied_in_steps<S: StateMachine>(
    m: S::V,
    log: Seq<Entry<<S::Command as DeepView>::V>>,
    a: nat,
    b: nat,
    c: nat,
)
    requires
        a <= b <= c,
    ensures
        ({
            let (m1, first) = applied_all::<S>(m, log, a, b);
            let (m2, second) = applied_all::<S>(m1, log, b, c);
            applied_all::<S>(m, log, a, c) == (m2, first + second)
        }),
    decreases b - a,
{
    if a == b {
        let (_, second) = applied_all::<S>(m, log, b, c);
        assert(Seq::<<S::Output as DeepView>::V>::empty() + second =~= second);
    } else {
        let (m1, out) = S::applied(m, log[a as int].cmd);
        applied_in_steps::<S>(m1, log, a + 1, b, c);
        let (n1, first) = applied_all::<S>(m1, log, a + 1, b);
        let (n2, second) = applied_all::<S>(n1, log, b, c);
        if let Some(o) = out {
            assert(seq![o] + (first + second) =~= seq![o] + first + second);
        }
    }
}

/// What is applied depends on the entries that are applied alone.
pub proof fn applied_entries_matter<S: StateMachine>(
    m: S::V,
    x: Seq<Entry<<S::Command as DeepView>::V>>,
    y: Seq<Entry<<S::Command as DeepView>::V>>,
    a: nat,
    b: nat,
)
    requires
        b <= x.len(),
        b <= y.len(),
        x.take(b as int) == y.take(b as int),
    ensures
        applied_all::<S>(m, x, a, b) == applied_all::<S>(m, y, a, b),
    decreases b - a,
{
    if a < b {
        assert(x[a as int] == x.take(b as int)[a as int]);
        assert(y[a as int] == y.take(b as int)[a as int]);
        let (m1, _) = S::applied(m, x[a as int].cmd);
        applied_entries_matter::<S>(m1, x, y, a + 1, b);
    }
}

/// A machine that stands where the applied part of its node's log leads still does so once
/// more entries are applied, if the node did not lose applied entries meanwhile. So any two
/// nodes that applied the same entries have machines in the same state.
pub proof fn machine_follows_log<S: StateMachine>(
    was: Seq<Entry<<S::Command as DeepView>::V>>,
    is: Seq<Entry<<S::Command as DeepView>::V>>,
    a: nat,
    b: nat,
)
    requires
        a <= b,
        a <= was.len(),
        a <= is.len(),
        was.take(a as int) == is.take(a as int),
    ensures
        applied_all::<S>(applied_all::<S>(S::start(), was, 0, a).0, is, a, b).0 == applied_all::<S>(
            S::start(),
            is,
            0,
            b,
        ).0,
{
    applied_entries_matter::<S>(S::start(), was, is, 0, a);
    applied_in_steps::<S>(S::start(), is, 0, a, b);
}

/// What becomes of those who run for a term. Whoever leads a term ran for it, with the same
/// log; whoever follows in it will not run for it.
pub proof fn lemma_candidacy<C>(n: Node<C>, e: Event<C>, t: Tick)
    requires
        n.valid(),
        can_happen(n, e, t),
    ensures
        ({
            let m = happened(n, e, t).0;
            &&& m.term == n.term && n.part is Follower ==> m.part is Follower
            &&& m.term == n.term && n.is_leader() ==> m.is_leader() || m.part is Follower
            &&& m.term == n.term && n.part is Candidate && !(m.part is Follower) ==> m.log == n.log
            &&& m.term > n.term ==> !m.is_leader()
            &&& m.term == n.term && n.part is Candidate && m.is_leader() ==> m.log == n.log
        }),
{
    match e {
        Event::Replication => lemma_replicated(n, t.now),
        Event::Request { cmd } => {
            assert(n.appended(cmd).valid());
            lemma_replicated(n.appended(cmd), t.now);
        },
        Event::Arrival { from, msg } => {
            let seen = n.seen_term(msg.term(), t);
            assert(seen.valid());
            match msg {
                RaftMsg::RequestVoteResponse { term, vote_granted } => {
                    if let Part::Candidate { votes } = seen.part {
                        let votes = votes.insert(from);
                        let won = Node { part: Part::Candidate { votes }, ..seen };
                        assert(won.valid());
                        lemma_leader(won);
                        lemma_replicated(won.leader(), t.now);
                    }
                },
                RaftMsg::AppendEntriesResponse { index, success, .. } => {
                    lemma_entries_answered(seen, from, success, index, t);
                },
                _ => {},
            }
        },
        _ => {},
    }
}

} // verus!
