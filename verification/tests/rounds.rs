use pbft::metadata::{Proposal, Vote};
use pbft::node::NodeState;
use pbft::vote_table::VoteTable;

fn proposal(id: i64, subject: &str) -> Proposal {
    Proposal { id, subject: subject.to_string(), description: "desc".to_string() }
}

fn vote(id: i64, ip: &str, v: i8) -> Vote {
    Vote { id, ip: ip.to_string(), vote: v }
}

/// A node that stored proposal `id` and opened its round with `peers` live peers.
fn node_with_round(id: i64, peers: usize) -> NodeState {
    let mut s = NodeState::new();
    s.store_proposal(proposal(id, "subject"));
    for i in 0..peers {
        s.record_active_node(id, format!("peer{}:80", i));
    }
    s.open_round(id);
    s
}

#[test]
fn new_node_knows_nothing() {
    let s = NodeState::new();
    assert!(!s.has_proposal(1));
    assert!(s.round(1).is_none());
    assert_eq!(s.favor_count(1), 0);
    assert!(s.active_nodes(1).is_empty());
}

#[test]
fn store_proposal_is_found() {
    let mut s = NodeState::new();
    s.store_proposal(proposal(5, "a"));
    assert!(s.has_proposal(5));
    assert!(!s.has_proposal(6));
}

#[test]
fn active_nodes_in_answer_order() {
    let mut s = NodeState::new();
    s.record_active_node(1, "b".to_string());
    s.record_active_node(1, "a".to_string());
    s.record_active_node(2, "c".to_string());
    assert_eq!(s.active_nodes(1), vec!["b".to_string(), "a".to_string()]);
    assert_eq!(s.active_nodes(2), vec!["c".to_string()]);
}

#[test]
fn round_sizes_follow_live_peers() {
    for (peers, total, faulty) in [(0usize, 1i64, 0i64), (2, 3, 0), (3, 4, 1), (5, 6, 1), (6, 7, 2), (9, 10, 3)] {
        let s = node_with_round(1, peers);
        let r = s.round(1).unwrap();
        assert_eq!(r.total, total);
        assert_eq!(r.faulty, faulty);
        assert!(!r.favor_broadcast);
        assert!(!r.reply_sent);
        assert!(3 * r.faulty + 1 <= r.total && r.total < 3 * (r.faulty + 1) + 1);
    }
}

#[test]
fn reopening_a_round_resets_it() {
    let mut s = node_with_round(1, 3);
    assert!(s.receive_signal(&proposal(1, "subject")) == false);
    assert!(s.receive_signal(&proposal(1, "subject")));
    assert!(s.round(1).unwrap().favor_broadcast);
    s.record_active_node(1, "late:1".to_string());
    s.open_round(1);
    let r = s.round(1).unwrap();
    assert_eq!(r.total, 5);
    assert!(!r.favor_broadcast);
}

#[test]
fn broadcast_after_two_f_matching_signals() {
    let mut s = node_with_round(1, 3);
    assert!(!s.receive_signal(&proposal(1, "subject")));
    assert_eq!(s.favor_count(1), 1);
    assert!(s.receive_signal(&proposal(1, "subject")));
    assert_eq!(s.favor_count(1), 2);
    assert!(s.round(1).unwrap().favor_broadcast);
}

#[test]
fn broadcast_at_most_once() {
    let mut s = node_with_round(1, 3);
    s.receive_signal(&proposal(1, "subject"));
    assert!(s.receive_signal(&proposal(1, "subject")));
    assert!(!s.receive_signal(&proposal(1, "subject")));
    assert!(!s.receive_signal(&proposal(1, "subject")));
    assert_eq!(s.favor_count(1), 4);
}

#[test]
fn mismatched_signal_is_not_counted() {
    let mut s = node_with_round(1, 6);
    assert!(!s.receive_signal(&proposal(1, "other subject")));
    assert_eq!(s.favor_count(1), 0);
}

#[test]
fn no_fault_round_broadcasts_on_first_signal_even_unmatched() {
    let mut s = node_with_round(1, 2);
    assert!(s.receive_signal(&proposal(1, "other subject")));
    assert_eq!(s.favor_count(1), 0);
}

#[test]
fn reply_after_two_f_plus_one_yes_votes() {
    let mut s = node_with_round(1, 3);
    assert!(s.receive_vote(vote(1, "a", 1), "me:1".to_string()).is_none());
    assert!(s.receive_vote(vote(1, "b", 1), "me:1".to_string()).is_none());
    let r = s.receive_vote(vote(1, "c", 1), "me:1".to_string()).unwrap();
    assert_eq!(r.from, "me:1");
    assert_eq!(r.vote, 1);
    assert_eq!(r.id, 1);
    assert_eq!(r.f, 1);
    assert_eq!(r.total, 4);
    assert!(s.round(1).unwrap().reply_sent);
}

#[test]
fn reply_at_most_once() {
    let mut s = node_with_round(1, 0);
    assert!(s.receive_vote(vote(1, "a", 1), "me".to_string()).is_some());
    assert!(s.receive_vote(vote(1, "b", 1), "me".to_string()).is_none());
    assert!(s.receive_vote(vote(1, "a", 1), "me".to_string()).is_none());
}

#[test]
fn repeated_vote_of_one_address_counts_once() {
    let mut s = node_with_round(1, 3);
    for _ in 0..5 {
        assert!(s.receive_vote(vote(1, "a", 1), "me".to_string()).is_none());
    }
    assert!(s.receive_vote(vote(1, "b", 1), "me".to_string()).is_none());
}

#[test]
fn later_vote_replaces_earlier() {
    let mut s = node_with_round(1, 3);
    s.receive_vote(vote(1, "a", 1), "me".to_string());
    s.receive_vote(vote(1, "b", 1), "me".to_string());
    s.receive_vote(vote(1, "a", 0), "me".to_string());
    assert!(s.receive_vote(vote(1, "c", 1), "me".to_string()).is_none());
    assert!(s.receive_vote(vote(1, "a", 1), "me".to_string()).is_some());
}

#[test]
fn votes_against_do_not_count() {
    let mut s = node_with_round(1, 0);
    assert!(s.receive_vote(vote(1, "a", 0), "me".to_string()).is_none());
    assert!(s.receive_vote(vote(1, "b", -1), "me".to_string()).is_none());
    assert!(s.receive_vote(vote(1, "c", 2), "me".to_string()).is_none());
}

#[test]
fn vote_without_round_gets_no_reply() {
    let mut s = NodeState::new();
    assert!(s.receive_vote(vote(9, "a", 1), "me".to_string()).is_none());
    assert!(s.round(9).is_none());
}

#[test]
fn votes_are_kept_per_proposal() {
    let mut s = node_with_round(1, 0);
    s.record_active_node(2, "x".to_string());
    s.record_active_node(2, "y".to_string());
    s.record_active_node(2, "z".to_string());
    s.open_round(2);
    assert!(s.receive_vote(vote(2, "a", 1), "me".to_string()).is_none());
    assert!(s.receive_vote(vote(1, "a", 1), "me".to_string()).is_some());
}

#[test]
fn own_vote_counts_toward_the_quorum() {
    let mut s = node_with_round(4, 3);
    let v = s.cast_vote(4, "me:1".to_string(), 1);
    assert_eq!(v.id, 4);
    assert_eq!(v.ip, "me:1");
    assert_eq!(v.vote, 1);
    assert!(s.receive_vote(vote(4, "a", 1), "me:1".to_string()).is_none());
    assert!(s.receive_vote(vote(4, "b", 1), "me:1".to_string()).is_some());
}

#[test]
fn vote_table_counts() {
    let mut t = VoteTable::new();
    assert_eq!(t.voter_count(), 0);
    assert_eq!(t.yes_count(), 0);
    t.record("a".to_string(), 1);
    t.record("b".to_string(), 0);
    t.record("c".to_string(), 1);
    t.record("a".to_string(), 0);
    assert_eq!(t.voter_count(), 3);
    assert_eq!(t.yes_count(), 1);
    assert!(t.yes_count() <= t.voter_count());
}

#[test]
fn count_signal_counts_only_matching() {
    let mut s = NodeState::new();
    s.store_proposal(proposal(3, "subject"));
    assert_eq!(s.count_signal(&proposal(3, "subject")), 1);
    assert_eq!(s.count_signal(&proposal(3, "other")), 1);
    assert_eq!(s.count_signal(&proposal(3, "subject")), 2);
    assert_eq!(s.favor_count(3), 2);
    assert!(s.round(3).is_none());
}

#[test]
fn vote_order_of_different_senders_does_not_matter() {
    let mut x = node_with_round(1, 3);
    let mut y = node_with_round(1, 3);
    x.receive_vote(vote(1, "a", 1), "me".to_string());
    x.receive_vote(vote(1, "b", 0), "me".to_string());
    y.receive_vote(vote(1, "b", 0), "me".to_string());
    y.receive_vote(vote(1, "a", 1), "me".to_string());
    // Both now hold one vote in favor: two more are needed in either.
    assert!(x.receive_vote(vote(1, "c", 1), "me".to_string()).is_none());
    assert!(y.receive_vote(vote(1, "c", 1), "me".to_string()).is_none());
    assert!(x.receive_vote(vote(1, "b", 1), "me".to_string()).is_some());
    assert!(y.receive_vote(vote(1, "b", 1), "me".to_string()).is_some());
}

#[test]
fn no_second_broadcast_keeps_round() {
    let mut s = node_with_round(1, 0);
    assert!(s.receive_signal(&proposal(1, "subject")));
    let before = s.round(1).unwrap();
    assert!(!s.receive_signal(&proposal(1, "other")));
    let after = s.round(1).unwrap();
    assert_eq!(before.total, after.total);
    assert_eq!(before.faulty, after.faulty);
    assert!(after.favor_broadcast);
    assert!(!after.reply_sent);
}
