//! What nodes do, seen from outside: who is elected, what is replicated to whom, and what is
//! committed when.
use crate::raft::laws::{having, lemma_replicated, median_is_highest_on_most};
use crate::raft::log::Entry;
use crate::raft::machine::StateMachine;
use crate::raft::model::{applied_all, median_match, reach, Mail, Node, Part, Tick};
use crate::raft::rpc::RaftMsg;
use crate::raft::{HEARTBEAT_INTERVAL, MIN_REPLICATION_INTERVAL};
use vstd::prelude::*;

verus! {

/// The greater of two numbers.
pub open spec fn above(a: nat, b: nat) -> nat {
    if a < b {
        b
    } else {
        a
    }
}

/// The lesser of two numbers.
pub open spec fn below(a: nat, b: nat) -> nat {
    if a < b {
        a
    } else {
        b
    }
}

/// More than half of the peers have the entry at `n`, as far as is known.
pub open spec fn on_most(matched: Map<Seq<char>, Option<u64>>, n: u64) -> bool {
    2 * matched.dom().filter(
        |p: Seq<char>| matched[p] matches Some(i) && i >= n,
    ).len() > matched.dom().len()
}

/// A peer tells a leader up to where its log is the leader's. If the highest entry that more
/// than half of the peers have is of the leader's term, then all up to it is committed, and
/// applied: it need not be the last one in the log. Otherwise nothing is committed.
pub proof fn what_most_peers_have_is_committed<C>(
    n: Node<C>,
    peer: Seq<char>,
    current_term: u64,
    index: u64,
    top: u64,
    t: Tick,
)
    requires
        n.valid(),
        n.is_leader(),
        n.peers.contains(peer),
        current_term <= n.term,
        1 <= index < u64::MAX,
        top >= 1,
        on_most(n.part->matched.insert(peer, Some(index)), top),
        forall|i: u64|
            i > top ==> !(#[trigger] on_most(n.part->matched.insert(peer, Some(index)), i)),
    ensures
        ({
            let (m, mail) = n.received(
                peer,
                RaftMsg::AppendEntriesResponse { current_term, index: Some(index), success: true },
                t,
            );
            &&& mail.len() == 0
            &&& m.log == n.log
            &&& m.applied == m.commit
            &&& if top <= n.log.len() && n.log[top - 1].term == n.term {
                reach(m.commit) == above(reach(n.commit), top as nat)
            } else {
                m.commit == n.commit
            }
        }),
{
    let matched = n.part->matched.insert(peer, Some(index));
    let mid = median_match(matched);
    assert(matched.dom() =~= n.peers.to_set());
    vstd::seq_lib::seq_to_set_is_finite(n.peers);
    assert(n.peers.to_set().contains(peer));
    vstd::set_lib::lemma_len_subset(set![peer], n.peers.to_set());
    median_is_highest_on_most(matched, top);
    lemma_on_most(matched, top);
    if mid >= 1 {
        lemma_on_most(matched, mid);
    }
    if mid > top {
        assert(on_most(matched, mid));
    }
}

proof fn lemma_on_most(matched: Map<Seq<char>, Option<u64>>, n: u64)
    requires
        n >= 1,
    ensures
        on_most(matched, n) == (2 * having(matched, n).len() > matched.len()),
{
    assert(having(matched, n) =~= matched.dom().filter(
        |p: Seq<char>| matched[p] matches Some(i) && i >= n,
    ));
}

/// Where no entry is on more than half of the peers, nothing is committed.
pub proof fn what_few_peers_have_is_not_committed<C>(
    n: Node<C>,
    peer: Seq<char>,
    current_term: u64,
    index: u64,
    t: Tick,
)
    requires
        n.valid(),
        n.is_leader(),
        n.peers.contains(peer),
        current_term <= n.term,
        1 <= index < u64::MAX,
        !on_most(n.part->matched.insert(peer, Some(index)), 1),
    ensures
        ({
            let m = n.received(
                peer,
                RaftMsg::AppendEntriesResponse { current_term, index: Some(index), success: true },
                t,
            ).0;
            m.log == n.log && m.commit == n.commit && m.applied == n.applied
        }),
{
    let matched = n.part->matched.insert(peer, Some(index));
    assert(matched.dom() =~= n.peers.to_set());
    vstd::seq_lib::seq_to_set_is_finite(n.peers);
    assert(n.peers.to_set().contains(peer));
    vstd::set_lib::lemma_len_subset(set![peer], n.peers.to_set());
    median_is_highest_on_most(matched, 1);
    lemma_on_most(matched, 1);
    if median_match(matched) >= 1 {
        assert(having(matched, median_match(matched)).subset_of(having(matched, 1)));
        vstd::set_lib::lemma_len_subset(
            having(matched, median_match(matched)),
            having(matched, 1),
        );
    }
}

/// What a peer answers is remembered: where it has entries, what it lacks comes next; where it
/// refused them, they start one earlier the next time, down to the first one. What is known of
/// other peers stays.
pub proof fn answers_are_remembered<C>(
    n: Node<C>,
    peer: Seq<char>,
    current_term: u64,
    index: Option<u64>,
    success: bool,
    t: Tick,
    other: Seq<char>,
)
    requires
        n.valid(),
        n.is_leader(),
        n.peers.contains(peer),
        n.peers.contains(other),
        other != peer,
        current_term <= n.term,
        success ==> index is Some && 1 <= index->Some_0 < u64::MAX,
    ensures
        ({
            let m = n.received(
                peer,
                RaftMsg::AppendEntriesResponse { current_term, index, success },
                t,
            ).0;
            let (was, is) = (n.part->next[peer], m.part->next[peer]);
            &&& m.is_leader()
            &&& m.term == n.term
            &&& m.log == n.log
            &&& success ==> m.part->matched[peer] == index && is == index->Some_0 + 1
            &&& !success ==> m.part->matched[peer] == n.part->matched[peer]
            &&& !success && was > 1 ==> is == was - 1
            &&& !success && was <= 1 ==> is == 1
            &&& !success ==> m.commit == n.commit
            &&& m.part->next[other] == n.part->next[other]
            &&& m.part->matched[other] == n.part->matched[other]
        }),
{
    assert(n.peers.to_set().contains(peer));
    assert(n.peers.to_set().contains(other));
    assert(n.part->next.contains_key(peer));
    assert(n.part->matched.contains_key(peer));
}

/// A leader's entries stand in a log where it says: they are the first ones, or the entry in
/// front of them is there, and of the same term.
pub open spec fn fits<C>(log: Seq<Entry<C>>, prev: Option<u64>, prev_term: Option<u64>) -> bool {
    match prev {
        None => prev_term is None,
        Some(i) => 1 <= i <= log.len() && prev_term == Some(log[i - 1].term),
    }
}

/// A node takes a leader's entries where they fit, unless the leader is of the past. Then the
/// log is what was in front of the entries, and the entries, be there any or not; and what the
/// leader committed is committed and applied, as far as the log goes. Otherwise, log and
/// commits stay as they are. Either way the leader is told, and with the length of the log.
pub proof fn entries_are_taken_where_they_fit<C>(
    n: Node<C>,
    leader: Seq<char>,
    term: u64,
    commit: Option<u64>,
    prev: Option<u64>,
    prev_term: Option<u64>,
    entries: Seq<Entry<C>>,
    t: Tick,
)
    requires
        n.valid(),
        t.in_range(),
        n.log.len() <= u64::MAX,
        n.acceptable(
            leader,
            RaftMsg::AppendEntries {
                term,
                commit_index: commit,
                prev_log_index: prev,
                prev_log_term: prev_term,
                entries,
            },
        ),
    ensures
        ({
            let (m, mail) = n.received(
                leader,
                RaftMsg::AppendEntries {
                    term,
                    commit_index: commit,
                    prev_log_index: prev,
                    prev_log_term: prev_term,
                    entries,
                },
                t,
            );
            let taken = term >= n.term && fits(n.log, prev, prev_term);
            &&& mail.len() == 1
            &&& mail[0].0 == leader
            &&& mail[0].1 matches RaftMsg::AppendEntriesResponse { current_term, index, success }
            &&& success == taken
            &&& current_term == m.term
            &&& reach(index) == m.log.len()
            &&& index != Some(0u64)
            &&& m.term == above(n.term as nat, term as nat)
            &&& taken ==> m.log == n.log.take(reach(prev) as int) + entries
            &&& taken ==> reach(m.commit) == above(
                reach(n.commit),
                below(reach(commit), m.log.len()),
            )
            &&& !taken ==> m.log == n.log && m.commit == n.commit
            &&& m.applied == m.commit
            &&& m.voted_for == if term > n.term {
                None
            } else {
                n.voted_for
            }
            &&& term >= n.term ==> m.part == (Part::Follower { leader: Some(leader) })
                && m.deadline == t.now + t.extension
            &&& term < n.term ==> m == n
        }),
{
    let from = match prev {
        None => 1u64,
        Some(i) => (i + 1) as u64,
    };
    if term >= n.term && fits(n.log, prev, prev_term) {
        assert(n.seen_term(term, t).spliced(prev, entries) =~= n.log.take(reach(prev) as int)
            + entries);
    }
}

/// The entry in front of the `next`-th one, as a leader tells it.
pub open spec fn front<C>(log: Seq<Entry<C>>, next: u64) -> (Option<u64>, Option<u64>) {
    if next <= 1 {
        (None, None)
    } else {
        (
            Some((next - 1) as u64),
            if next - 1 <= log.len() {
                Some(log[next - 2].term)
            } else {
                None
            },
        )
    }
}

/// A message holds all entries of a leader from the `next`-th on, says what is in front of
/// them, and what is committed.
pub open spec fn carries<C>(n: Node<C>, next: u64, msg: RaftMsg<C>) -> bool {
    msg matches RaftMsg::AppendEntries {
        term,
        commit_index,
        prev_log_index,
        prev_log_term,
        entries,
    } && {
        &&& term == n.term
        &&& commit_index == n.commit
        &&& (prev_log_index, prev_log_term) == front(n.log, next)
        &&& next >= 1 && next - 1 <= n.log.len() ==> entries == n.log.skip(next - 1)
        &&& next - 1 > n.log.len() ==> entries.len() == 0
    }
}

/// There is a message for a peer.
pub open spec fn has_mail<C>(mail: Mail<C>, peer: Seq<char>) -> bool {
    exists|k: int| 0 <= k < mail.len() && (#[trigger] mail[k]).0 == peer
}

/// No two messages are for the same peer.
pub open spec fn one_each<C>(mail: Mail<C>) -> bool {
    forall|k: int, l: int|
        0 <= k < l < mail.len() ==> (#[trigger] mail[k]).0 != (#[trigger] mail[l]).0
}

/// Mail holds what the peers lack that it is for.
spec fn true_mail<C>(
    n: Node<C>,
    next: Map<Seq<char>, u64>,
    heartbeat: bool,
    peers: Seq<Seq<char>>,
    mail: Mail<C>,
) -> bool {
    forall|k: int|
        0 <= k < mail.len() ==> {
            &&& carries(n, next[(#[trigger] mail[k]).0], mail[k].1)
            &&& heartbeat || next[mail[k].0] <= n.log.len()
            &&& peers.contains(mail[k].0)
        }
}

proof fn lemma_replication_carries<C>(n: Node<C>, next: u64)
    requires
        next >= 1,
    ensures
        carries(n, next, n.replication(next)),
{
    if next - 1 <= n.log.len() {
        assert(crate::raft::log::entries_from(n.log, next) =~= n.log.skip(next - 1));
    }
}

proof fn lemma_true_mail<C>(n: Node<C>, next: Map<Seq<char>, u64>, heartbeat: bool, from: int)
    requires
        0 <= from <= n.peers.len(),
        forall|i: int| 0 <= i < n.peers.len() ==> next[#[trigger] n.peers[i]] >= 1,
    ensures
        true_mail(n, next, heartbeat, n.peers.skip(from), n.replications(next, heartbeat, from)),
        n.peers.no_duplicates() ==> one_each(n.replications(next, heartbeat, from)),
    decreases n.peers.len() - from,
{
    if from < n.peers.len() {
        lemma_true_mail(n, next, heartbeat, from + 1);
        let rest = n.replications(next, heartbeat, from + 1);
        let all = n.replications(next, heartbeat, from);
        let to = n.peers[from];
        let (peers, others) = (n.peers.skip(from), n.peers.skip(from + 1));
        lemma_replication_carries(n, next[to]);
        assert(peers[0] == to);
        assert forall|p: Seq<char>| others.contains(p) implies peers.contains(p) by {
            let i = choose|i: int| 0 <= i < others.len() && others[i] == p;
            assert(peers[i + 1] == p);
        }
        if all != rest {
            assert(all == seq![(to, n.replication(next[to]))] + rest);
            assert forall|k: int| 0 <= k < all.len() implies {
                &&& carries(n, next[(#[trigger] all[k]).0], all[k].1)
                &&& heartbeat || next[all[k].0] <= n.log.len()
                &&& peers.contains(all[k].0)
            } by {
                if k > 0 {
                    assert(all[k] == rest[k - 1]);
                }
            }
            if n.peers.no_duplicates() {
                assert forall|k: int, l: int| 0 <= k < l < all.len() implies (#[trigger] all[k]).0
                    != (#[trigger] all[l]).0 by {
                    assert(all[l] == rest[l - 1]);
                    if k > 0 {
                        assert(all[k] == rest[k - 1]);
                    } else {
                        let p = rest[l - 1].0;
                        let i = choose|i: int| 0 <= i < others.len() && others[i] == p;
                        assert(n.peers[from + 1 + i] == p);
                    }
                }
            }
        }
    }
}

proof fn lemma_has_mail<C>(
    n: Node<C>,
    next: Map<Seq<char>, u64>,
    heartbeat: bool,
    from: int,
    i: int,
)
    requires
        0 <= from <= i < n.peers.len(),
        heartbeat || next[n.peers[i]] <= n.log.len(),
        next[n.peers[i]] >= 1,
    ensures
        has_mail(n.replications(next, heartbeat, from), n.peers[i]),
    decreases n.peers.len() - from,
{
    let rest = n.replications(next, heartbeat, from + 1);
    let all = n.replications(next, heartbeat, from);
    let to = n.peers[from];
    if i == from {
        assert(all == seq![(to, n.replication(next[to]))] + rest);
        assert(all[0].0 == to);
    } else {
        lemma_has_mail(n, next, heartbeat, from + 1, i);
        let k = choose|k: int| 0 <= k < rest.len() && (#[trigger] rest[k]).0 == n.peers[i];
        if all != rest {
            assert(all == seq![(to, n.replication(next[to]))] + rest);
            assert(all[k + 1] == rest[k]);
        }
    }
}

/// A leader that did not replicate a moment ago sends to each peer that lacks entries all those
/// that it lacks; and if it was silent for long, or never sent anything, it sends to every peer,
/// to those that lack nothing an empty message. Nobody is sent more than one message, and those
/// who need none are sent none.
pub proof fn peers_get_what_they_lack<C>(n: Node<C>, now: u64)
    requires
        n.valid(),
        n.part matches Part::Leader { last_replication, .. } && (last_replication matches Some(
            last,
        ) ==> now - last >= MIN_REPLICATION_INTERVAL),
    ensures
        ({
            let (m, mail) = n.replicated(now);
            let last = n.part->last_replication;
            let silent = last is None || now - last->Some_0 > HEARTBEAT_INTERVAL;
            let next = n.part->next;
            &&& forall|k: int|
                0 <= k < mail.len() ==> {
                    &&& n.peers.contains((#[trigger] mail[k]).0)
                    &&& carries(n, next[mail[k].0], mail[k].1)
                    &&& silent || next[mail[k].0] <= n.log.len()
                }
            &&& forall|p: Seq<char>|
                n.peers.contains(p) && (silent || next[p] <= n.log.len()) ==> #[trigger] has_mail(
                    mail,
                    p,
                )
            &&& n.peers.no_duplicates() ==> one_each(mail)
            &&& m.log == n.log && m.commit == n.commit && m.term == n.term && m.is_leader()
            &&& m.part->next == next && m.part->matched == n.part->matched
            &&& m.part->last_replication == if mail.len() > 0 {
                Some(now)
            } else {
                last
            }
        }),
{
    let last = n.part->last_replication;
    let silent = last is None || now - last->Some_0 > HEARTBEAT_INTERVAL;
    let next = n.part->next;
    let mail = n.replicated(now).1;
    assert forall|i: int| 0 <= i < n.peers.len() implies next[#[trigger] n.peers[i]] >= 1 by {
        assert(n.peers.to_set().contains(n.peers[i]));
        assert(next.contains_key(n.peers[i]));
    }
    lemma_true_mail(n, next, silent, 0);
    assert(n.peers.skip(0) =~= n.peers);
    assert forall|p: Seq<char>|
        n.peers.contains(p) && (silent || next[p] <= n.log.len()) implies #[trigger] has_mail(
        mail,
        p,
    ) by {
        let i = choose|i: int| 0 <= i < n.peers.len() && n.peers[i] == p;
        assert(next[n.peers[i]] >= 1);
        lemma_has_mail(n, next, silent, 0, i);
    }
}

/// A follower whose log is the leader's up to what the leader sends catches up with one message:
/// its log is the leader's then, all that the leader committed is committed, and the leader
/// learns that the follower has all.
pub proof fn followers_catch_up<C>(l: Node<C>, f: Node<C>, next: u64, msg: RaftMsg<C>, t: Tick)
    requires
        f.valid(),
        t.in_range(),
        l.log.len() < u64::MAX,
        f.log.len() <= u64::MAX,
        1 <= next <= l.log.len() + 1,
        next - 1 <= f.log.len(),
        f.log.take(next - 1) == l.log.take(next - 1),
        f.term <= l.term,
        carries(l, next, msg),
        f.acceptable(l.id, msg),
    ensures
        ({
            let (m, mail) = f.received(l.id, msg, t);
            &&& m.log == l.log
            &&& m.term == l.term
            &&& m.part == (Part::Follower { leader: Some(l.id) })
            &&& reach(m.commit) == above(reach(f.commit), below(reach(l.commit), l.log.len()))
            &&& m.applied == m.commit
            &&& mail.len() == 1
            &&& mail[0].0 == l.id
            &&& mail[0].1 matches RaftMsg::AppendEntriesResponse { current_term, index, success }
            &&& success
            &&& current_term == l.term
            &&& reach(index) == l.log.len()
        }),
{
    if let RaftMsg::AppendEntries { term, commit_index, prev_log_index, prev_log_term, entries } =
        msg {
        if next > 1 {
            assert(f.log.take(next - 1)[next - 2] == f.log[next - 2]);
            assert(l.log.take(next - 1)[next - 2] == l.log[next - 2]);
        }
        entries_are_taken_where_they_fit(
            f,
            l.id,
            term,
            commit_index,
            prev_log_index,
            prev_log_term,
            entries,
            t,
        );
        assert(l.log.take(next - 1) + l.log.skip(next - 1) =~= l.log);
    }
}

/// Once its deadline has passed, a node that does not lead runs for the next term: it votes for
/// itself, and asks each peer for its vote, telling how far its log goes. Before that, nothing
/// happens.
pub proof fn elections_begin_after_the_deadline<C>(n: Node<C>, t: Tick)
    requires
        n.valid(),
        t.in_range(),
        n.term < u64::MAX,
        n.log.len() <= u64::MAX,
    ensures
        ({
            let (m, mail) = n.deadline_seen(t);
            let runs = t.now > n.deadline && !n.is_leader();
            &&& m.log == n.log && m.commit == n.commit && m.applied == n.applied
            &&& m.deadline == if t.now > n.deadline {
                t.now + t.extension
            } else {
                n.deadline as int
            }
            &&& !runs ==> mail.len() == 0 && m.term == n.term && m.voted_for == n.voted_for
                && m.part == n.part
            &&& runs ==> {
                &&& m.term == n.term + 1
                &&& m.voted_for == Some(n.id)
                &&& m.part matches Part::Candidate { votes } && votes == set![n.id]
                &&& mail.len() == n.peers.len()
                &&& forall|i: int|
                    0 <= i < mail.len() ==> {
                        &&& (#[trigger] mail[i]).0 == n.peers[i]
                        &&& mail[i].1 matches RaftMsg::RequestVote {
                            candidate_term,
                            last_log_index,
                            last_log_term,
                        }
                        &&& candidate_term == n.term + 1
                        &&& reach(last_log_index) == n.log.len()
                        &&& last_log_term == if n.log.len() == 0 {
                            None
                        } else {
                            Some(n.log[n.log.len() - 1].term)
                        }
                    }
            }
        }),
{
    if t.now > n.deadline && !n.is_leader() {
        assert(Set::<Seq<char>>::empty().insert(n.id) =~= set![n.id]);
    }
}

/// A log that ends with an entry of `term` at `index` is at least as up-to-date as another: its
/// last entry is of a later term, or of the same one, and it is no shorter.
pub open spec fn no_older<C>(index: Option<u64>, term: Option<u64>, log: Seq<Entry<C>>) -> bool {
    log.len() == 0 || (term matches Some(t) && {
        let own = log[log.len() - 1].term;
        t > own || (t == own && reach(index) >= log.len())
    })
}

/// A node votes for a candidate of a later term, or of its own term if it runs for none itself
/// and voted for no one else; and only if the candidate's log is at least as up-to-date as its
/// own. It remembers the vote, and waits for the candidate to win. The candidate is told.
pub proof fn votes_go_to_the_first_with_all_entries<C>(
    n: Node<C>,
    candidate: Seq<char>,
    term: u64,
    index: Option<u64>,
    log_term: Option<u64>,
    t: Tick,
)
    requires
        n.valid(),
        t.in_range(),
        n.log.len() <= u64::MAX,
        index != Some(0u64),
        candidate != n.id,
    ensures
        ({
            let (m, mail) = n.received(
                candidate,
                RaftMsg::RequestVote {
                    candidate_term: term,
                    last_log_index: index,
                    last_log_term: log_term,
                },
                t,
            );
            let granted = (term > n.term || (term == n.term && n.part is Follower && (n.voted_for
                is None || n.voted_for == Some(candidate)))) && no_older(index, log_term, n.log);
            &&& mail.len() == 1
            &&& mail[0] == (
                candidate,
                RaftMsg::<C>::RequestVoteResponse { term: m.term, vote_granted: granted },
            )
            &&& m.term == above(n.term as nat, term as nat)
            &&& m.log == n.log && m.commit == n.commit && m.applied == n.applied
            &&& granted ==> m.voted_for == Some(candidate) && m.deadline == t.now + t.extension
            &&& !granted && term <= n.term ==> m == n
            &&& !granted && term > n.term ==> m.voted_for is None
            &&& term > n.term ==> m.part == (Part::Follower { leader: None })
        }),
{
}

/// A candidate leads once more than half of the cluster voted for it, itself included, and not
/// before. It then tells everyone at once: each peer is sent a message, and taken to have the
/// whole log until it says otherwise. Votes of another term, and refusals, do not count.
pub proof fn most_votes_win<C>(
    n: Node<C>,
    voter: Seq<char>,
    term: u64,
    granted: bool,
    t: Tick,
)
    requires
        n.valid(),
        n.part is Candidate,
        n.log.len() < u64::MAX,
        term <= n.term,
    ensures
        ({
            let (m, mail) = n.received(
                voter,
                RaftMsg::RequestVoteResponse { term, vote_granted: granted },
                t,
            );
            let votes = n.part->votes.insert(voter);
            let counts = granted && term == n.term;
            let wins = counts && 2 * votes.len() > n.peers.len() + 1;
            &&& m.term == n.term && m.log == n.log && m.commit == n.commit && m.voted_for
                == n.voted_for
            &&& !counts ==> m == n && mail.len() == 0
            &&& counts && !wins ==> m.part == (Part::Candidate { votes }) && mail.len() == 0
            &&& wins ==> {
                &&& m.part matches Part::Leader { next, matched, last_replication }
                &&& last_replication == Some(t.now)
                &&& forall|p: Seq<char>|
                    n.peers.contains(p) ==> #[trigger] next[p] == n.log.len() + 1
                &&& forall|p: Seq<char>| n.peers.contains(p) ==> #[trigger] matched[p] is None
                &&& forall|p: Seq<char>| n.peers.contains(p) ==> #[trigger] has_mail(mail, p)
                &&& forall|k: int|
                    0 <= k < mail.len() ==> n.peers.contains((#[trigger] mail[k]).0) && carries(
                        m,
                        (n.log.len() + 1) as u64,
                        mail[k].1,
                    )
            }
        }),
{
    if granted && term == n.term {
        let votes = n.part->votes.insert(voter);
        let won = Node { part: Part::Candidate { votes }, ..n };
        if 2 * votes.len() > n.peers.len() + 1 {
            crate::raft::laws::lemma_leader(won);
            let l = won.leader();
            lemma_replicated(l, t.now);
            peers_get_what_they_lack(l, t.now);
            let (m, mail) = l.replicated(t.now);
            assert(n.peers.contains(n.peers[0]));
            assert forall|p: Seq<char>| n.peers.contains(p) implies #[trigger] m.part->next[p]
                == n.log.len() + 1 && m.part->matched[p] is None by {
                assert(l.part->next.contains_key(p));
            }
            assert forall|k: int| 0 <= k < mail.len() implies n.peers.contains(
                (#[trigger] mail[k]).0,
            ) && carries(m, (n.log.len() + 1) as u64, mail[k].1) by {
                assert(l.part->next[mail[k].0] == n.log.len() + 1);
            }
        }
    }
}

/// Whoever hears of a later term follows in it, be it a leader or a candidate, and votes anew.
pub proof fn later_terms_depose<C>(n: Node<C>, peer: Seq<char>, msg: RaftMsg<C>, t: Tick)
    requires
        n.valid(),
        t.in_range(),
        n.acceptable(peer, msg),
        msg.term() > n.term,
    ensures
        ({
            let m = n.received(peer, msg, t).0;
            &&& m.term == msg.term()
            &&& m.part is Follower
            &&& m.deadline == t.now + t.extension
            &&& m.voted_for is None || (msg is RequestVote && m.voted_for == Some(peer))
            &&& !(msg is AppendEntries) ==> m.log == n.log && m.commit == n.commit
        }),
{
}

/// Entries are applied one by one, in the order of the log, each to what the one in front left
/// behind; and what they give comes out in that order.
pub proof fn entries_are_applied_in_order<S: StateMachine>(
    m: S::V,
    log: Seq<Entry<<S::Command as DeepView>::V>>,
    from: nat,
    to: nat,
)
    ensures
        from >= to ==> applied_all::<S>(m, log, from, to).0 == m && applied_all::<S>(
            m,
            log,
            from,
            to,
        ).1.len() == 0,
        from < to ==> ({
            let (m1, out) = S::applied(m, log[from as int].cmd);
            let (end, outs) = applied_all::<S>(m, log, from, to);
            let (end1, outs1) = applied_all::<S>(m1, log, from + 1, to);
            &&& end == end1
            &&& out is None ==> outs == outs1
            &&& out matches Some(o) ==> outs.len() > 0 && outs[0] == o && outs.skip(1) == outs1
        }),
{
    if from < to {
        let (m1, out) = S::applied(m, log[from as int].cmd);
        let outs = applied_all::<S>(m, log, from, to).1;
        let outs1 = applied_all::<S>(m1, log, from + 1, to).1;
        if let Some(o) = out {
            assert(outs == seq![o] + outs1);
            assert(outs.skip(1) =~= outs1);
        }
    }
}

/// A node boots as a follower that knows no leader, with the term, the vote and the log that it
/// kept. What was committed it learns anew.
pub proof fn nodes_boot_as_followers<C>(
    id: Seq<char>,
    peers: Seq<Seq<char>>,
    term: u64,
    voted_for: Option<Seq<char>>,
    log: Seq<Entry<C>>,
    now: u64,
)
    ensures
        ({
            let n = Node::booted(id, peers, term, voted_for, log, now);
            &&& n.id == id && n.peers == peers
            &&& n.term == term && n.voted_for == voted_for && n.log == log
            &&& n.commit is None && n.applied is None
            &&& n.part == (Part::Follower { leader: None })
            &&& n.deadline == now
        }),
{
}

/// A peer that refused entries is sent them again at once, with the one in front of them, unless
/// the leader replicated a moment ago.
pub proof fn refused_entries_are_sent_again<C>(
    n: Node<C>,
    peer: Seq<char>,
    current_term: u64,
    index: Option<u64>,
    t: Tick,
)
    requires
        n.valid(),
        n.part matches Part::Leader { next, last_replication, .. } && (last_replication matches Some(
            last,
        ) ==> t.now - last >= MIN_REPLICATION_INTERVAL) && 1 < next[peer] <= n.log.len() + 1,
        n.peers.contains(peer),
        current_term <= n.term,
    ensures
        ({
            let mail = n.received(
                peer,
                RaftMsg::AppendEntriesResponse { current_term, index, success: false },
                t,
            ).1;
            &&& has_mail(mail, peer)
            &&& forall|k: int|
                0 <= k < mail.len() && (#[trigger] mail[k]).0 == peer ==> carries(
                    n,
                    (n.part->next[peer] - 1) as u64,
                    mail[k].1,
                )
        }),
{
    let lower = (n.part->next[peer] - 1) as u64;
    let m = Node {
        part: Part::Leader {
            next: n.part->next.insert(peer, lower),
            matched: n.part->matched,
            last_replication: n.part->last_replication,
        },
        ..n
    };
    assert(n.peers.to_set().contains(peer));
    assert(n.part->next.contains_key(peer));
    assert(m.part->next.dom() =~= n.peers.to_set());
    assert(m.valid()) by {
        assert forall|p: Seq<char>| #[trigger] m.part->next.contains_key(p) implies m.part->next[p] >= 1 by {
            assert(n.part->next.contains_key(p));
        }
    }
    peers_get_what_they_lack(m, t.now);
    let mail = m.replicated(t.now).1;
    assert forall|k: int| 0 <= k < mail.len() && (#[trigger] mail[k]).0 == peer implies carries(
        n,
        lower,
        mail[k].1,
    ) by {
        assert(carries(m, m.part->next[mail[k].0], mail[k].1));
    }
}

/// Nobody but a leader replicates, and a leader that did so a moment ago does not either.
pub proof fn leaders_do_not_hurry<C>(n: Node<C>, now: u64)
    requires
        n.part matches Part::Leader { last_replication, .. } ==> last_replication matches Some(last)
            && now - last < MIN_REPLICATION_INTERVAL,
    ensures
        n.replicated(now).0 == n,
        n.replicated(now).1.len() == 0,
{
}

/// Answers that a node did not ask for, at least not as what it is by now, change nothing: votes
/// for one that runs no more, entries for one that does not lead, and what strangers say. Neither
/// does the answer of a peer that has no entries.
pub proof fn stray_answers_are_ignored<C>(n: Node<C>, peer: Seq<char>, msg: RaftMsg<C>, t: Tick)
    requires
        n.valid(),
        msg.term() <= n.term,
        match msg {
            RaftMsg::RequestVoteResponse { .. } => !(n.part is Candidate),
            RaftMsg::AppendEntriesResponse { index, success, .. } => !n.is_leader()
                || !n.peers.contains(peer) || (success && index is None),
            _ => false,
        },
    ensures
        n.received(peer, msg, t).0 == n,
        n.received(peer, msg, t).1.len() == 0,
{
    if n.is_leader() && !n.peers.contains(peer) {
        assert(!n.peers.to_set().contains(peer));
        assert(!n.part->next.contains_key(peer));
    }
}

/// What a node takes from others. It is asked by others only; a leader of the same term is no
/// follower; and entries that it takes leave it with no more than it can count, and with all that
/// it committed before.
pub proof fn sensible_messages_are_accepted<C>(n: Node<C>, peer: Seq<char>, msg: RaftMsg<C>)
    requires
        n.valid(),
        n.log.len() < u64::MAX,
        reach(n.commit) <= n.log.len(),
    ensures
        msg is RequestVote ==> n.acceptable(peer, msg) == (peer != n.id),
        msg is RequestVoteResponse ==> n.acceptable(peer, msg),
        msg matches RaftMsg::AppendEntriesResponse { index, success, .. } ==> n.acceptable(peer, msg)
            == (!success || (index != Some(0u64) && index != Some(u64::MAX))),
        msg matches RaftMsg::AppendEntries {
            term,
            commit_index,
            prev_log_index,
            prev_log_term,
            entries,
        } ==> n.acceptable(peer, msg) == {
            let taken = term >= n.term && fits(n.log, prev_log_index, prev_log_term);
            let long = reach(prev_log_index) + entries.len();
            &&& peer != n.id
            &&& !(n.is_leader() && term == n.term)
            &&& commit_index != Some(0u64)
            &&& taken ==> long <= u64::MAX
            &&& taken && reach(commit_index) > reach(n.commit) ==> long >= reach(n.commit)
        },
{
    if let RaftMsg::AppendEntries { term, commit_index, prev_log_index, prev_log_term, entries } = msg {
        let m = n.seen_term(term, arbitrary());
        if term >= n.term && fits(n.log, prev_log_index, prev_log_term) {
            assert(m.spliced(prev_log_index, entries) =~= n.log.take(reach(prev_log_index) as int)
                + entries);
        }
    }
}

} // verus!
