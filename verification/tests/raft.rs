//! Nodes, and what they agree on.
use miniraft::json::wire::{read_document, write_document};
use miniraft::kv::Store;
use miniraft::raft::command::Command;
use miniraft::raft::engine::Engine;
use miniraft::raft::log::{LogEntry, LogIndex, Log, Term};
use miniraft::raft::median::lower_median;
use miniraft::raft::model::Tick;
use miniraft::raft::persistence::Persistent;
use miniraft::raft::rpc::{ClientMessage, RaftMessage};
use miniraft::raft::{ELECTION_TIMEOUT, MAX_INFLIGHT_PROXIES, MIN_REPLICATION_INTERVAL};

type Node = Engine<Store<u64, i64>>;
type Cmd = Command<u64, i64>;
type Mail = Vec<(String, RaftMessage<Cmd>)>;

fn node(id: &str, peers: &[&str]) -> Node {
    Engine::new(
        id.to_string(),
        peers.iter().map(|p| p.to_string()).collect(),
        Persistent::default(),
        0,
    )
}

fn at(now: u64) -> Tick {
    Tick { now, extension: ELECTION_TIMEOUT }
}

fn index(n: u64) -> Option<LogIndex> {
    LogIndex::new(n)
}

fn write(key: u64, value: i64, id: u64) -> ClientMessage<u64, i64> {
    ClientMessage::WriteRequest { key, value, id }
}

fn read(key: u64, id: u64) -> ClientMessage<u64, i64> {
    ClientMessage::ReadRequest { key, id }
}

/// What becomes of a message on the wire.
fn sent(msg: RaftMessage<Cmd>) -> RaftMessage<Cmd> {
    let line = write_document(&msg).expect("can be written");
    read_document(line.as_bytes()).expect("can be read")
}

/// What a node gives out about a message, all being persisted.
fn heard(n: &mut Node, from: &str, msg: RaftMessage<Cmd>, t: Tick) -> (Mail, Vec<(String, ClientMessage<u64, i64>)>) {
    let _ = n.handle_raft_message(from.into(), msg, t);
    n.persisted(true)
}

/// Delivers all mail, and what it gives rise to, until nothing is left. Gives what clients
/// get.
fn settle(nodes: &mut Vec<(&str, Node)>, from: &str, mail: Mail, now: u64) -> Vec<(String, ClientMessage<u64, i64>)> {
    let mut queue: Vec<(String, String, RaftMessage<Cmd>)> =
        mail.into_iter().map(|(to, m)| (from.to_string(), to, m)).collect();
    let mut replies = vec![];
    while !queue.is_empty() {
        let (from, to, msg) = queue.remove(0);
        let msg = sent(msg);
        for (id, node) in nodes.iter_mut() {
            if *id == to {
                assert!(node.accepts(&from, &msg));
                let (out, outputs) = heard(node, &from, msg, at(now));
                queue.extend(out.into_iter().map(|(next, m)| (to.clone(), next, m)));
                replies.extend(outputs);
                break;
            }
        }
    }
    replies
}

fn cluster() -> Vec<(&'static str, Node)> {
    vec![
        ("n1", node("n1", &["n2", "n3"])),
        ("n2", node("n2", &["n1", "n3"])),
        ("n3", node("n3", &["n1", "n2"])),
    ]
}

/// Makes the first node the leader.
fn elect(nodes: &mut Vec<(&'static str, Node)>) {
    let out = nodes[0].1.maybe_begin_election(at(1));
    assert_eq!(out.len(), 2);
    settle(nodes, "n1", out, 2);
}

#[test]
fn test_median() {
    for (mut items, expected) in [
        (vec![], None),
        (vec![1], Some(&1)),
        (vec![1, 2], Some(&1)),
        (vec![1, 2, 3], Some(&2)),
        (vec![1, 2, 3, 4], Some(&2)),
        (vec![1, 2, 3, 4, 5], Some(&3)),
    ] {
        assert_eq!(lower_median(&mut items), expected);
    }
}

#[test]
fn medians_need_no_order() {
    assert_eq!(lower_median(&mut vec![9, 1, 5, 1, 9]), Some(&5));
    assert_eq!(lower_median(&mut vec![7, 3]), Some(&3));
}

#[test]
fn elections_wait_for_the_deadline() {
    let mut n = node("n1", &["n2", "n3"]);
    assert_eq!(n.term(), 0);
    assert!(n.maybe_begin_election(at(0)).is_empty());
    assert_eq!(n.term(), 0);
    let out = n.maybe_begin_election(at(1));
    assert_eq!(n.term(), 1);
    assert_eq!(out.len(), 2);
    assert_eq!(out[0].0, "n2");
    assert!(matches!(
        out[0].1,
        RaftMessage::RequestVote { candidate_term: Term(1), last_log_index: None, last_log_term: None }
    ));
    // The deadline moved
    assert!(n.maybe_begin_election(at(1 + ELECTION_TIMEOUT)).is_empty());
    assert_eq!(n.maybe_begin_election(at(2 + ELECTION_TIMEOUT)).len(), 2);
    assert_eq!(n.term(), 2);
    // Candidates vote for themselves
    assert_eq!(n.to_persist().voted_for.as_deref(), Some("n1"));
}

#[test]
fn nodes_vote_once_per_term() {
    let mut n = node("n1", &["n2", "n3"]);
    let ask = |term: u64| RaftMessage::<Cmd>::RequestVote {
        candidate_term: Term(term),
        last_log_index: None,
        last_log_term: None,
    };
    let granted = |out: &Mail| matches!(out[0].1, RaftMessage::RequestVoteResponse { vote_granted: true, .. });
    let (out, _) = heard(&mut n, "n2", ask(1), at(1));
    assert_eq!(out[0].0, "n2");
    assert!(granted(&out));
    // Not for another one
    let (out, _) = heard(&mut n, "n3", ask(1), at(2));
    assert!(!granted(&out));
    // Again for the same one
    let (out, _) = heard(&mut n, "n2", ask(1), at(3));
    assert!(granted(&out));
    // For another one in another term
    let (out, _) = heard(&mut n, "n3", ask(2), at(4));
    assert!(granted(&out));
    assert_eq!(n.to_persist().current_term, Term(2));
    assert_eq!(n.to_persist().voted_for.as_deref(), Some("n3"));
    // For none of the past
    let (out, _) = heard(&mut n, "n3", ask(1), at(5));
    assert!(!granted(&out));
}

#[test]
fn nodes_vote_for_none_who_lacks_entries() {
    let mut kept: Persistent<Cmd> = Persistent::default();
    kept.current_term = Term(2);
    kept.log = Log {
        inner: vec![
            LogEntry { cmd: Command::from_request("c".into(), 1, write(1, 1, 1)).unwrap(), term: Term(1) },
            LogEntry { cmd: Command::from_request("c".into(), 2, write(1, 2, 2)).unwrap(), term: Term(2) },
        ],
    };
    let cases = [
        (None, None, false),
        (index(9), Some(Term(1)), false),
        (index(1), Some(Term(2)), false),
        (index(2), Some(Term(2)), true),
        (index(3), Some(Term(2)), true),
        (index(1), Some(Term(3)), true),
    ];
    for (last_log_index, last_log_term, want) in cases {
        let mut kept_too: Persistent<Cmd> = Persistent::default();
        std::mem::swap(&mut kept, &mut kept_too);
        let mut n: Node = Engine::new("n1".into(), vec!["n2".into()], kept_too, 0);
        kept = n.to_persist();
        let msg = RaftMessage::RequestVote { candidate_term: Term(3), last_log_index, last_log_term };
        let (out, _) = heard(&mut n, "n2", msg, at(1));
        assert!(matches!(
            out[0].1,
            RaftMessage::RequestVoteResponse { term: Term(3), vote_granted } if vote_granted == want
        ));
    }
}

#[test]
fn majorities_elect_leaders() {
    let mut nodes = vec![
        ("n1", node("n1", &["n2", "n3", "n4", "n5"])),
    ];
    let n = &mut nodes[0].1;
    let _ = n.maybe_begin_election(at(1));
    let yes = |term: u64| RaftMessage::<Cmd>::RequestVoteResponse { term: Term(term), vote_granted: true };
    // One vote is not enough, nor is the same one twice, a late one, or a refusal
    for (from, msg) in [
        ("n2", yes(1)),
        ("n2", yes(1)),
        ("n3", yes(0)),
        ("n4", RaftMessage::RequestVoteResponse { term: Term(1), vote_granted: false }),
    ] {
        let (out, _) = heard(n, from, msg, at(2));
        assert!(out.is_empty());
    }
    // Three of five: the leader sends heartbeats
    let (out, _) = heard(n, "n5", yes(1), at(3));
    assert_eq!(out.len(), 4);
    assert!(out.iter().all(|(_, m)| matches!(
        m,
        RaftMessage::AppendEntries { term: Term(1), prev_log_index: None, entries, .. } if entries.inner.is_empty()
    )));
    // Later votes change nothing
    let (out, _) = heard(n, "n4", yes(1), at(4));
    assert!(out.is_empty());
}

#[test]
fn leaders_step_down_for_newer_terms() {
    let mut nodes = cluster();
    elect(&mut nodes);
    let vote = RaftMessage::RequestVoteResponse { term: Term(7), vote_granted: false };
    let n = &mut nodes[0].1;
    let _ = heard(n, "n2", vote, at(3));
    assert_eq!(n.term(), 7);
    // Not a leader any longer
    let (out, reply) = n.handle_client_message("c1".into(), read(1, 1), 1, 4);
    assert!(out.is_empty());
    assert!(matches!(reply, Some((to, ClientMessage::ErrorResponse { in_reply_to: 1, id: 1, code: 11, text }))
        if to == "c1" && text == "not a leader and current leader unknown"));
}

#[test]
fn clusters_replicate_commit_and_apply() {
    let mut nodes = cluster();
    elect(&mut nodes);
    let later = 2 + MIN_REPLICATION_INTERVAL;
    // A write and a read enter the leader's log
    let (out, reply) = nodes[0].1.handle_client_message("c1".into(), write(1, 5, 10), 100, 3);
    // too early to replicate
    assert!(out.is_empty() && reply.is_none());
    let (out, reply) = nodes[0].1.handle_client_message("c2".into(), read(1, 20), 101, later);
    assert!(reply.is_none());
    assert_eq!(out.len(), 2);
    assert!(matches!(&out[0].1, RaftMessage::AppendEntries { entries, .. } if entries.inner.len() == 2));
    // Clients get responses once all have the entries
    let replies = settle(&mut nodes, "n1", out, later);
    assert_eq!(replies.len(), 2);
    assert!(matches!(&replies[0], (to, ClientMessage::WriteResponse { in_reply_to: 10, id: 100 }) if to == "c1"));
    assert!(matches!(&replies[1], (to, ClientMessage::ReadResponse { in_reply_to: 20, id: 101, value: 5 }) if to == "c2"));
    // Followers apply with the next heartbeat
    let out = nodes[0].1.replicate_log(later + 60_000_000);
    assert_eq!(out.len(), 2);
    let replies = settle(&mut nodes, "n1", out, later + 60_000_000);
    // Clients are none of their business
    assert!(replies.is_empty());
    // All have the same log
    let logs: Vec<Vec<u64>> = nodes
        .iter()
        .map(|(_, n)| n.to_persist().log.inner.iter().map(|e| e.term.0).collect())
        .collect();
    assert_eq!(logs, vec![vec![1, 1], vec![1, 1], vec![1, 1]]);
}

#[test]
fn followers_proxy_to_the_leader() {
    let mut nodes = cluster();
    elect(&mut nodes);
    let follower = &mut nodes[1].1;
    let (out, reply) = follower.handle_client_message("c1".into(), read(1, 77), 5, 3);
    assert!(out.is_empty());
    let (to, forwarded) = reply.unwrap();
    assert_eq!(to, "n1");
    assert!(matches!(forwarded, ClientMessage::ReadRequest { key: 1, id: 5 }));
    assert!(follower.awaits(5));
    assert_eq!(follower.inflight_proxies(), 1);
    // An answer to something else is dropped
    let other = ClientMessage::ReadResponse { in_reply_to: 6, value: 3, id: 9 };
    let (_, reply) = follower.handle_client_message("n1".into(), other, 6, 4);
    assert!(reply.is_none());
    // The answer goes back, as an answer to what was asked
    let answer = ClientMessage::ReadResponse { in_reply_to: 5, value: 3, id: 9 };
    let (_, reply) = follower.handle_client_message("n1".into(), answer, 7, 5);
    let (to, answer) = reply.unwrap();
    assert_eq!(to, "c1");
    assert!(matches!(answer, ClientMessage::ReadResponse { in_reply_to: 77, value: 3, id: 77 }));
    assert!(!follower.awaits(5));
    assert_eq!(follower.inflight_proxies(), 0);
}

#[test]
fn proxies_are_limited_to_the_most_recent() {
    let mut nodes = cluster();
    elect(&mut nodes);
    let follower = &mut nodes[2].1;
    let limit = MAX_INFLIGHT_PROXIES as u64;
    for id in 1..=limit + 2 {
        let (_, reply) = follower.handle_client_message("c1".into(), read(1, id), id, 3);
        assert!(reply.is_some());
    }
    assert_eq!(follower.inflight_proxies(), MAX_INFLIGHT_PROXIES);
    assert!(!follower.awaits(1));
    assert!(!follower.awaits(2));
    assert!(follower.awaits(3));
    assert!(follower.awaits(limit + 2));
}

#[test]
fn followers_take_entries_behind_what_both_have() {
    let mut n = node("n1", &["n2", "n3"]);
    let entry = |term: u64, value: i64| LogEntry {
        cmd: Command::from_request("c".into(), 1, write(1, value, 1)).unwrap(),
        term: Term(term),
    };
    let send = |prev: Option<LogIndex>, prev_term: Option<Term>, entries: Vec<LogEntry<Cmd>>, commit: Option<LogIndex>| {
        RaftMessage::AppendEntries {
            term: Term(2),
            commit_index: commit,
            prev_log_index: prev,
            prev_log_term: prev_term,
            entries: Log { inner: entries },
        }
    };
    // Nothing to stand behind
    let (out, _) = heard(&mut n, "n2", send(index(1), Some(Term(1)), vec![entry(2, 2)], None), at(1));
    assert!(matches!(out[0].1, RaftMessage::AppendEntriesResponse { current_term: Term(2), index: None, success: false }));
    // Nor is there with a term that is not there
    let (out, _) = heard(&mut n, "n2", send(index(1), None, vec![entry(2, 2)], None), at(1));
    assert!(matches!(out[0].1, RaftMessage::AppendEntriesResponse { current_term: Term(2), index: None, success: false }));
    let (out, _) = heard(&mut n, "n2", send(None, Some(Term(1)), vec![entry(2, 2)], None), at(1));
    assert!(matches!(out[0].1, RaftMessage::AppendEntriesResponse { success: false, .. }));
    assert!(n.to_persist().log.inner.is_empty());
    // From the start
    let (out, applied) =
        heard(&mut n, "n2", send(None, None, vec![entry(1, 1), entry(1, 2)], index(1)), at(2));
    assert!(matches!(&out[0].1, RaftMessage::AppendEntriesResponse { index: Some(i), success: true, .. } if i.get() == 2));
    assert_eq!(applied.len(), 1);
    // What conflicts is replaced; the leader's commit index may be ahead
    let (out, applied) =
        heard(&mut n, "n2", send(index(1), Some(Term(1)), vec![entry(2, 3)], index(9)), at(3));
    assert!(matches!(&out[0].1, RaftMessage::AppendEntriesResponse { index: Some(i), success: true, .. } if i.get() == 2));
    assert_eq!(applied.len(), 1);
    let terms: Vec<u64> = n.to_persist().log.inner.iter().map(|e| e.term.0).collect();
    assert_eq!(terms, vec![1, 2]);
    // Leaders of the past are refused
    let old = RaftMessage::AppendEntries {
        term: Term(1),
        commit_index: None,
        prev_log_index: None,
        prev_log_term: None,
        entries: Log { inner: vec![] },
    };
    let (out, _) = heard(&mut n, "n3", old, at(4));
    assert!(matches!(&out[0].1, RaftMessage::AppendEntriesResponse { current_term: Term(2), success: false, .. }));
}

#[test]
fn leaders_go_back_for_followers_that_lack_entries() {
    let mut kept: Persistent<Cmd> = Persistent::default();
    kept.current_term = Term(4);
    kept.log = Log {
        inner: vec![
            LogEntry { cmd: Command::from_request("c".into(), 1, write(1, 1, 1)).unwrap(), term: Term(1) },
            LogEntry { cmd: Command::from_request("c".into(), 2, write(1, 2, 2)).unwrap(), term: Term(3) },
        ],
    };
    let leader: Node = Engine::new("n1".into(), vec!["n2".into(), "n3".into()], kept, 0);
    let mut nodes = vec![
        ("n1", leader),
        ("n2", node("n2", &["n1", "n3"])),
        ("n3", node("n3", &["n1", "n2"])),
    ];
    elect(&mut nodes);
    assert_eq!(nodes[0].1.term(), 5);
    let mut now = 10;
    for _ in 0..4 {
        now += 60_000_000;
        let out = nodes[0].1.replicate_log(now);
        settle(&mut nodes, "n1", out, now);
    }
    for (_, n) in &nodes {
        let terms: Vec<u64> = n.to_persist().log.inner.iter().map(|e| e.term.0).collect();
        assert_eq!(terms, vec![1, 3]);
    }
    // Entries of the past are committed with the first one of this term
    now += 60_000_000;
    let (out, _) = nodes[0].1.handle_client_message("c".into(), read(1, 9), 3, now);
    let replies = settle(&mut nodes, "n1", out, now);
    assert!(replies.iter().any(|(_, m)| matches!(m, ClientMessage::ReadResponse { in_reply_to: 9, value: 2, .. })));
}

#[test]
fn replication_is_rate_limited() {
    let mut nodes = cluster();
    elect(&mut nodes);
    let n = &mut nodes[0].1;
    // Elected, and replicated, at 2
    assert!(n.replicate_log(2 + MIN_REPLICATION_INTERVAL).is_empty());
    let (out, _) = n.handle_client_message("c".into(), write(1, 1, 1), 1, 1 + MIN_REPLICATION_INTERVAL);
    assert!(out.is_empty());
    assert_eq!(n.replicate_log(2 + MIN_REPLICATION_INTERVAL).len(), 2);
    // Nothing new, and no heartbeat needed; still, followers have not answered
    assert!(n.replicate_log(3 + MIN_REPLICATION_INTERVAL).is_empty());
    assert_eq!(n.replicate_log(2 + 2 * MIN_REPLICATION_INTERVAL).len(), 2);
}

#[test]
fn senseless_messages_are_not_accepted() {
    let mut nodes = cluster();
    elect(&mut nodes);
    let n = &nodes[0].1;
    let me = "n1".to_string();
    let peer = "n2".to_string();
    let vote: RaftMessage<Cmd> =
        RaftMessage::RequestVote { candidate_term: Term(1), last_log_index: None, last_log_term: None };
    assert!(n.accepts(&peer, &vote));
    assert!(!n.accepts(&me, &vote));
    let entries = |term: u64, prev: Option<LogIndex>| -> RaftMessage<Cmd> {
        RaftMessage::AppendEntries {
            term: Term(term),
            commit_index: None,
            prev_log_index: prev,
            prev_log_term: None,
            entries: Log { inner: vec![] },
        }
    };
    // There is one leader per term
    assert!(!n.accepts(&peer, &entries(1, None)));
    assert!(n.accepts(&peer, &entries(2, None)));
    assert!(n.accepts(&peer, &entries(0, None)));
    // Behind what this one lacks: refused, but it makes sense to ask
    assert!(n.accepts(&peer, &entries(2, index(u64::MAX))));
    let answer: RaftMessage<Cmd> = RaftMessage::AppendEntriesResponse {
        current_term: Term(1),
        index: index(u64::MAX),
        success: true,
    };
    assert!(!n.accepts(&peer, &answer));
}

#[test]
fn a_reboot_keeps_term_vote_and_log() {
    let mut nodes = cluster();
    elect(&mut nodes);
    let later = 2 + MIN_REPLICATION_INTERVAL;
    let (out, _) = nodes[0].1.handle_client_message("c1".into(), write(1, 5, 10), 100, later);
    settle(&mut nodes, "n1", out, later);
    let mut file = Vec::new();
    nodes[1].1.to_persist().persist(&mut file).unwrap();
    let kept = Persistent::<Cmd>::restore(&file).unwrap();
    let mut n: Node = Engine::new("n2".into(), vec!["n1".into(), "n3".into()], kept, later);
    assert_eq!(n.term(), 1);
    assert_eq!(n.to_persist().voted_for.as_deref(), Some("n1"));
    assert_eq!(n.to_persist().log.inner.len(), 1);
    // Still bound by its vote
    let ask = RaftMessage::RequestVote {
        candidate_term: Term(1),
        last_log_index: index(9),
        last_log_term: Some(Term(1)),
    };
    let (out, _) = heard(&mut n, "n3", ask, at(later));
    assert!(matches!(out[0].1, RaftMessage::RequestVoteResponse { vote_granted: false, .. }));
}

#[test]
fn new_leaders_have_what_was_committed() {
    let mut nodes = cluster();
    elect(&mut nodes);
    let later = 2 + MIN_REPLICATION_INTERVAL;
    let (out, _) = nodes[0].1.handle_client_message("c1".into(), write(1, 5, 10), 100, later);
    assert_eq!(settle(&mut nodes, "n1", out, later).len(), 1);

    // n1 is gone, and n2 takes over
    let old = nodes.remove(0);
    let time = later + 10 * ELECTION_TIMEOUT;
    let out = nodes[0].1.maybe_begin_election(at(time));
    assert_eq!(out.len(), 2);
    settle(&mut nodes, "n2", out, time);
    assert_eq!(nodes[0].1.term(), 2);
    assert_eq!(nodes[0].1.to_persist().log.inner.len(), 1);

    // n1 is back: it learns of the new leader, and gets what it lacks
    nodes.push(old);
    let time = time + MIN_REPLICATION_INTERVAL;
    let (out, reply) = nodes[0].1.handle_client_message("c2".into(), read(1, 20), 200, time);
    assert!(reply.is_none());
    let replies = settle(&mut nodes, "n2", out, time);
    assert_eq!(replies.len(), 1);
    assert!(matches!(
        &replies[0],
        (to, ClientMessage::ReadResponse { in_reply_to: 20, id: 200, value: 5 }) if to == "c2"
    ));
    let time = time + 60_000_000;
    let out = nodes[0].1.replicate_log(time);
    settle(&mut nodes, "n2", out, time);

    // All logs are the same
    for (_, n) in &nodes {
        let p = n.to_persist();
        assert_eq!(p.current_term, Term(2));
        let terms: Vec<Term> = p.log.inner.iter().map(|e| e.term).collect();
        assert_eq!(terms, vec![Term(1), Term(2)]);
    }
}

#[test]
fn a_majority_commits() {
    let mut n = node("n1", &["n2", "n3", "n4"]);
    let _ = n.maybe_begin_election(at(1));
    for from in ["n2", "n3"] {
        let yes = RaftMessage::RequestVoteResponse { term: Term(1), vote_granted: true };
        let _ = heard(&mut n, from, yes, at(2));
    }
    let later = 2 + MIN_REPLICATION_INTERVAL;
    let (out, _) = n.handle_client_message("c1".into(), write(1, 5, 10), 100, later);
    assert_eq!(out.len(), 3);
    let took = || RaftMessage::AppendEntriesResponse { current_term: Term(1), index: index(1), success: true };
    // One of three is not enough, but two are. Nothing is known of the last one.
    let (_, replies) = heard(&mut n, "n2", took(), at(later));
    assert!(replies.is_empty());
    let (_, replies) = heard(&mut n, "n4", took(), at(later));
    assert_eq!(replies.len(), 1);
    assert!(matches!(&replies[0], (to, ClientMessage::WriteResponse { in_reply_to: 10, id: 100 }) if to == "c1"));
    // Once is enough
    let (_, replies) = heard(&mut n, "n3", took(), at(later));
    assert!(replies.is_empty());
}

#[test]
fn nothing_is_given_out_unless_persisted() {
    let ask = |term: u64| RaftMessage::<Cmd>::RequestVote {
        candidate_term: Term(term),
        last_log_index: None,
        last_log_term: None,
    };
    let mut n = node("n1", &["n2", "n3"]);
    let p = n.handle_raft_message("n2".into(), ask(1), at(1));
    assert_eq!(p.current_term, Term(1));
    assert_eq!(p.voted_for.as_deref(), Some("n2"));
    // Held only until it is known not to be on disk
    let (out, outputs) = n.persisted(false);
    assert!(out.is_empty() && outputs.is_empty());
    let (out, _) = n.persisted(true);
    assert!(out.is_empty());
    // The node itself moved on
    assert_eq!(n.term(), 1);
    let _ = n.handle_raft_message("n2".into(), ask(1), at(2));
    let _ = n.handle_raft_message("n3".into(), ask(1), at(3));
    let (out, _) = n.persisted(true);
    assert_eq!(out.len(), 2);
    assert!(matches!(&out[0], (to, RaftMessage::RequestVoteResponse { vote_granted: true, .. }) if to == "n2"));
    assert!(matches!(&out[1], (to, RaftMessage::RequestVoteResponse { vote_granted: false, .. }) if to == "n3"));
    let (out, _) = n.persisted(true);
    assert!(out.is_empty());
}
