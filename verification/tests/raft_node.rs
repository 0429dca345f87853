use raft_kv::raft::node::{
    election_timeout_from, Action, NodeRole, PeerRequest, PeerResponse, RaftNode,
    ELECTION_TIMEOUT_MAX_MS, ELECTION_TIMEOUT_MIN_MS, HEARTBEAT_INTERVAL_MS, RPC_DEADLINE_MS,
};
use raft_kv::raft::rpc::{AppendEntries, AppendEntriesResponse, RequestVote, VoteResponse};
use raft_kv::raft::state::LogEntry;

fn peers(n: usize) -> Vec<String> {
    (0..n).map(|i| format!("127.0.0.1:{}", 7000 + i)).collect()
}

fn granted(term: u64) -> VoteResponse {
    VoteResponse { term, vote_granted: true }
}

fn refused(term: u64) -> VoteResponse {
    VoteResponse { term, vote_granted: false }
}

fn ok(term: u64) -> AppendEntriesResponse {
    AppendEntriesResponse { term, success: true }
}

fn failed(term: u64) -> AppendEntriesResponse {
    AppendEntriesResponse { term, success: false }
}

/// A leader of term 1 in a cluster of `n` peers and itself.
fn leader(n: usize) -> RaftNode {
    let mut node = RaftNode::with_timeout(1, peers(n), 0);
    node.start_election(0).unwrap();
    let mut from = 0;
    while node.role() != NodeRole::Leader {
        node.handle_vote_response(from, granted(1));
        from += 1;
    }
    node
}

fn commands(node: &RaftNode) -> Vec<String> {
    node.state().log.iter().map(|e| e.command.clone()).collect()
}

#[test]
fn timing_constants() {
    assert_eq!(ELECTION_TIMEOUT_MIN_MS, 150);
    assert_eq!(ELECTION_TIMEOUT_MAX_MS, 300);
    assert_eq!(HEARTBEAT_INTERVAL_MS, 50);
    assert_eq!(RPC_DEADLINE_MS, 3 * HEARTBEAT_INTERVAL_MS);
    assert!(HEARTBEAT_INTERVAL_MS < ELECTION_TIMEOUT_MIN_MS);
}

#[test]
fn election_timeout_is_spread_from_150_to_300() {
    assert_eq!(election_timeout_from(0), 150);
    assert_eq!(election_timeout_from(1), 151);
    assert_eq!(election_timeout_from(150), 300);
    assert_eq!(election_timeout_from(151), 150);
    assert_eq!(election_timeout_from(1000), 150 + 1000 % 151);
    assert_eq!(election_timeout_from(u64::MAX), 150 + u64::MAX % 151);
    for draw in 0..1000u64 {
        let timeout = election_timeout_from(draw);
        assert!((150..=300).contains(&timeout));
    }
}

#[test]
fn a_new_node_is_a_follower_of_term_zero() {
    let node = RaftNode::with_timeout(3, peers(2), 7);
    assert_eq!(node.id(), 3);
    assert_eq!(node.role(), NodeRole::Follower);
    assert_eq!(node.current_term(), 0);
    assert_eq!(node.election_timeout(), 157);
    assert_eq!(node.leader_id(), None);
    assert_eq!(node.commit_index(), 0);
    assert_eq!(node.last_applied(), 0);
    assert_eq!(node.peer_count(), 2);
    assert_eq!(node.peer_address(1).map(|a| a.as_str()), Some("127.0.0.1:7001"));
    assert_eq!(node.peer_address(2), None);
    assert_eq!(node.state().voted_for, None);
    assert!(node.state().log.is_empty());
}

#[test]
fn new_draws_a_timeout_in_range() {
    for _ in 0..50 {
        let node = RaftNode::new(1, peers(2));
        assert!((150..=300).contains(&node.election_timeout()));
        assert_eq!(node.role(), NodeRole::Follower);
        assert_eq!(node.current_term(), 0);
        assert_eq!(node.peer_count(), 2);
    }
}

#[test]
fn new_does_not_always_draw_the_same_timeout() {
    let first = RaftNode::new(1, peers(2)).election_timeout();
    let mut differs = false;
    for _ in 0..200 {
        if RaftNode::new(1, peers(2)).election_timeout() != first {
            differs = true;
        }
    }
    assert!(differs);
}

#[test]
fn start_election_enters_the_next_term_as_candidate() {
    let mut node = RaftNode::with_timeout(4, peers(2), 0);
    let request = node.start_election(10).unwrap();
    assert_eq!(request.term, 1);
    assert_eq!(request.candidate_id, 4);
    assert_eq!(request.last_log_index, 0);
    assert_eq!(request.last_log_term, 0);
    assert_eq!(node.role(), NodeRole::Candidate);
    assert_eq!(node.current_term(), 1);
    assert_eq!(node.state().voted_for, Some(4));
    assert_eq!(node.election_timeout(), 160);
    assert_eq!(node.leader_id(), None);
}

#[test]
fn a_node_without_peers_elects_itself() {
    let mut node = RaftNode::with_timeout(1, Vec::new(), 0);
    let request = node.start_election(0).unwrap();
    assert_eq!(request.term, 1);
    assert_eq!(node.role(), NodeRole::Leader);
    assert_eq!(node.leader_id(), Some(1));
}

#[test]
fn the_election_timer_of_a_follower() {
    let mut node = RaftNode::with_timeout(1, peers(2), 0);
    // A heartbeat was heard: the follower listens on.
    let heartbeat = AppendEntries {
        term: 1,
        leader_id: 2,
        prev_log_index: 0,
        prev_log_term: 0,
        entries: Vec::new(),
        leader_commit: 0,
    };
    assert!(node.handle_append_entries(heartbeat).success);
    assert_eq!(node.leader_id(), Some(2));
    assert!(node.check_election_timeout(0).is_none());
    assert_eq!(node.role(), NodeRole::Follower);
    assert_eq!(node.current_term(), 1);
    // Nothing was heard since: the follower stands for election.
    let request = node.check_election_timeout(0).unwrap();
    assert_eq!(request.term, 2);
    assert_eq!(node.role(), NodeRole::Candidate);
    // A candidate whose election ran out starts another.
    let request = node.check_election_timeout(0).unwrap();
    assert_eq!(request.term, 3);
    assert_eq!(node.role(), NodeRole::Candidate);
}

#[test]
fn the_election_timer_of_a_leader_does_nothing() {
    let mut node = leader(2);
    assert!(node.check_election_timeout(0).is_none());
    assert_eq!(node.role(), NodeRole::Leader);
    assert_eq!(node.current_term(), 1);
}

#[test]
fn run_acts_by_role() {
    let mut node = RaftNode::with_timeout(1, peers(2), 0);
    match node.run(0) {
        Action::RequestVotes(request) => assert_eq!(request.term, 1),
        other => panic!("{:?}", other),
    }
    assert_eq!(node.role(), NodeRole::Candidate);
    node.handle_vote_response(0, granted(1));
    assert_eq!(node.role(), NodeRole::Leader);
    match node.run(0) {
        Action::Replicate(requests) => assert_eq!(requests.len(), 2),
        other => panic!("{:?}", other),
    }
    let mut follower = RaftNode::with_timeout(2, peers(2), 0);
    follower.handle_append_entries(AppendEntries {
        term: 1,
        leader_id: 1,
        prev_log_index: 0,
        prev_log_term: 0,
        entries: Vec::new(),
        leader_commit: 0,
    });
    assert!(matches!(follower.run(0), Action::Idle));
}

#[test]
fn a_majority_of_three_is_two() {
    let mut node = RaftNode::with_timeout(1, peers(2), 0);
    node.start_election(0);
    assert!(!node.handle_vote_response(0, refused(1)));
    assert_eq!(node.role(), NodeRole::Candidate);
    assert!(node.handle_vote_response(1, granted(1)));
    assert_eq!(node.role(), NodeRole::Leader);
    assert_eq!(node.leader_id(), Some(1));
}

#[test]
fn a_majority_of_five_is_three() {
    let mut node = RaftNode::with_timeout(1, peers(4), 0);
    node.start_election(0);
    assert!(!node.handle_vote_response(2, granted(1)));
    assert_eq!(node.role(), NodeRole::Candidate);
    assert!(node.handle_vote_response(0, granted(1)));
    assert_eq!(node.role(), NodeRole::Leader);
}

#[test]
fn a_majority_of_two_is_two() {
    let mut node = RaftNode::with_timeout(1, peers(1), 0);
    node.start_election(0);
    assert_eq!(node.role(), NodeRole::Candidate);
    assert!(node.handle_vote_response(0, granted(1)));
    assert_eq!(node.role(), NodeRole::Leader);
}

#[test]
fn a_vote_counts_once() {
    let mut node = RaftNode::with_timeout(1, peers(4), 0);
    node.start_election(0);
    assert!(!node.handle_vote_response(0, granted(1)));
    assert!(!node.handle_vote_response(0, granted(1)));
    assert!(!node.handle_vote_response(0, granted(1)));
    assert_eq!(node.role(), NodeRole::Candidate);
}

#[test]
fn votes_that_do_not_count() {
    let mut node = RaftNode::with_timeout(1, peers(2), 0);
    // No candidate yet.
    assert!(!node.handle_vote_response(0, granted(0)));
    assert_eq!(node.role(), NodeRole::Follower);
    node.start_election(0);
    node.start_election(0);
    assert_eq!(node.current_term(), 2);
    // A vote of an earlier term.
    assert!(!node.handle_vote_response(0, granted(1)));
    // A peer that is not there.
    assert!(!node.handle_vote_response(2, granted(2)));
    assert_eq!(node.role(), NodeRole::Candidate);
}

#[test]
fn a_higher_term_in_a_vote_response_ends_the_candidacy() {
    let mut node = RaftNode::with_timeout(1, peers(2), 0);
    node.start_election(0);
    assert!(!node.handle_vote_response(0, refused(5)));
    assert_eq!(node.role(), NodeRole::Follower);
    assert_eq!(node.current_term(), 5);
    assert_eq!(node.state().voted_for, None);
}

#[test]
fn a_candidate_follows_a_leader_of_its_term() {
    let mut node = RaftNode::with_timeout(1, peers(2), 0);
    node.start_election(0);
    let resp = node.handle_append_entries(AppendEntries {
        term: 1,
        leader_id: 2,
        prev_log_index: 0,
        prev_log_term: 0,
        entries: vec![LogEntry { term: 1, command: "SET a 1".to_string() }],
        leader_commit: 0,
    });
    assert!(resp.success);
    assert_eq!(node.role(), NodeRole::Follower);
    assert_eq!(node.leader_id(), Some(2));
    assert_eq!(node.current_term(), 1);
    assert_eq!(commands(&node), vec!["SET a 1"]);
}

#[test]
fn a_stale_leader_is_refused() {
    let mut node = RaftNode::with_timeout(1, peers(2), 0);
    node.start_election(0);
    node.start_election(0);
    let resp = node.handle_append_entries(AppendEntries {
        term: 1,
        leader_id: 2,
        prev_log_index: 0,
        prev_log_term: 0,
        entries: vec![LogEntry { term: 1, command: "SET a 1".to_string() }],
        leader_commit: 0,
    });
    assert!(!resp.success);
    assert_eq!(resp.term, 2);
    assert_eq!(node.role(), NodeRole::Candidate);
    assert_eq!(node.leader_id(), None);
    assert!(commands(&node).is_empty());
}

#[test]
fn a_leader_steps_down_for_a_higher_term() {
    let mut node = leader(2);
    let resp = node.handle_append_entries(AppendEntries {
        term: 2,
        leader_id: 3,
        prev_log_index: 0,
        prev_log_term: 0,
        entries: Vec::new(),
        leader_commit: 0,
    });
    assert!(resp.success);
    assert_eq!(node.role(), NodeRole::Follower);
    assert_eq!(node.current_term(), 2);
    assert_eq!(node.leader_id(), Some(3));

    let mut node = leader(2);
    let resp = node.handle_vote_request(RequestVote {
        term: 2,
        candidate_id: 3,
        last_log_index: 0,
        last_log_term: 0,
    });
    assert!(resp.vote_granted);
    assert_eq!(node.role(), NodeRole::Follower);
    assert_eq!(node.leader_id(), None);

    let mut node = leader(2);
    node.handle_append_response(0, 0, 0, failed(4));
    assert_eq!(node.role(), NodeRole::Follower);
    assert_eq!(node.current_term(), 4);
}

#[test]
fn a_leader_takes_no_entries_in_its_own_term() {
    let mut node = leader(2);
    node.propose("SET a 1".to_string());
    let resp = node.handle_append_entries(AppendEntries {
        term: 1,
        leader_id: 3,
        prev_log_index: 0,
        prev_log_term: 0,
        entries: vec![LogEntry { term: 1, command: "SET b 2".to_string() }],
        leader_commit: 1,
    });
    assert!(!resp.success);
    assert_eq!(resp.term, 1);
    assert_eq!(node.role(), NodeRole::Leader);
    assert_eq!(commands(&node), vec!["SET a 1"]);
    assert_eq!(node.commit_index(), 0);
}

#[test]
fn a_candidate_votes_for_no_other_in_its_term() {
    let mut node = RaftNode::with_timeout(1, peers(2), 0);
    node.start_election(0);
    let resp = node.handle_vote_request(RequestVote {
        term: 1,
        candidate_id: 2,
        last_log_index: 0,
        last_log_term: 0,
    });
    assert!(!resp.vote_granted);
    assert_eq!(resp.term, 1);
    assert_eq!(node.role(), NodeRole::Candidate);
}

#[test]
fn handle_request_goes_to_the_handler_of_its_kind() {
    let mut node = RaftNode::with_timeout(1, peers(2), 0);
    let response = node.handle_request(PeerRequest::Vote(RequestVote {
        term: 1,
        candidate_id: 2,
        last_log_index: 0,
        last_log_term: 0,
    }));
    match response {
        PeerResponse::Vote(resp) => {
            assert!(resp.vote_granted);
            assert_eq!(resp.term, 1);
        }
        other => panic!("{:?}", other),
    }
    let response = node.handle_request(PeerRequest::Append(AppendEntries {
        term: 1,
        leader_id: 2,
        prev_log_index: 0,
        prev_log_term: 0,
        entries: vec![LogEntry { term: 1, command: "SET a 1".to_string() }],
        leader_commit: 1,
    }));
    match response {
        PeerResponse::Append(resp) => {
            assert!(resp.success);
            assert_eq!(resp.term, 1);
        }
        other => panic!("{:?}", other),
    }
    assert_eq!(node.commit_index(), 1);
}

#[test]
fn only_a_leader_takes_proposals() {
    let mut node = RaftNode::with_timeout(1, peers(2), 0);
    assert_eq!(node.propose("SET a 1".to_string()), None);
    node.start_election(0);
    assert_eq!(node.propose("SET a 1".to_string()), None);
    assert!(commands(&node).is_empty());
    node.handle_vote_response(0, granted(1));
    assert_eq!(node.propose("SET a 1".to_string()), Some(1));
    assert_eq!(node.propose("SET b 2".to_string()), Some(2));
    assert_eq!(commands(&node), vec!["SET a 1", "SET b 2"]);
    assert_eq!(node.state().log[1].term, 1);
    assert_eq!(node.commit_index(), 0);
}

#[test]
fn a_leader_without_peers_commits_at_once() {
    let mut node = RaftNode::with_timeout(1, Vec::new(), 0);
    node.start_election(0);
    assert_eq!(node.propose("SET a 1".to_string()), Some(1));
    assert_eq!(node.commit_index(), 1);
    assert!(node.send_heartbeats().is_empty());
}

#[test]
fn heartbeats_carry_every_entry_from_the_next_index_on() {
    let mut node = RaftNode::with_timeout(1, peers(2), 0);
    assert!(node.send_heartbeats().is_empty());
    node.start_election(0);
    assert!(node.send_heartbeats().is_empty());
    node.handle_vote_response(0, granted(1));
    let requests = node.send_heartbeats();
    assert_eq!(requests.len(), 2);
    for request in &requests {
        assert_eq!(request.term, 1);
        assert_eq!(request.leader_id, 1);
        assert_eq!(request.prev_log_index, 0);
        assert_eq!(request.prev_log_term, 0);
        assert!(request.entries.is_empty());
        assert_eq!(request.leader_commit, 0);
    }

    node.propose("SET a 1".to_string());
    node.propose("SET b 2".to_string());
    node.handle_append_response(0, 0, 2, ok(1));
    node.propose("SET c 3".to_string());
    let requests = node.send_heartbeats();
    assert_eq!(requests[0].prev_log_index, 2);
    assert_eq!(requests[0].prev_log_term, 1);
    assert_eq!(requests[0].entries.len(), 1);
    assert_eq!(requests[0].entries[0].command, "SET c 3");
    assert_eq!(requests[0].leader_commit, 2);
    assert_eq!(requests[1].prev_log_index, 0);
    assert_eq!(requests[1].prev_log_term, 0);
    assert_eq!(requests[1].entries.len(), 3);
    assert_eq!(requests[1].entries[2].command, "SET c 3");
    assert_eq!(requests[1].entries[0].term, 1);
}

#[test]
fn a_new_leader_starts_behind_its_own_log() {
    let mut node = RaftNode::with_timeout(1, peers(2), 0);
    node.handle_append_entries(AppendEntries {
        term: 1,
        leader_id: 2,
        prev_log_index: 0,
        prev_log_term: 0,
        entries: vec![
            LogEntry { term: 1, command: "SET a 1".to_string() },
            LogEntry { term: 1, command: "SET b 2".to_string() },
        ],
        leader_commit: 1,
    });
    node.check_election_timeout(0);
    let request = node.check_election_timeout(0).unwrap();
    assert_eq!(request.term, 2);
    assert_eq!(request.last_log_index, 2);
    assert_eq!(request.last_log_term, 1);
    assert!(node.handle_vote_response(1, granted(2)));
    let requests = node.send_heartbeats();
    assert_eq!(requests[0].prev_log_index, 2);
    assert_eq!(requests[0].prev_log_term, 1);
    assert!(requests[0].entries.is_empty());
    assert_eq!(requests[0].leader_commit, 1);
    assert_eq!(requests[0].term, 2);
}

#[test]
fn a_failed_append_steps_the_next_index_back() {
    let mut node = RaftNode::with_timeout(1, peers(2), 0);
    node.handle_append_entries(AppendEntries {
        term: 1,
        leader_id: 2,
        prev_log_index: 0,
        prev_log_term: 0,
        entries: vec![
            LogEntry { term: 1, command: "SET a 1".to_string() },
            LogEntry { term: 1, command: "SET b 2".to_string() },
        ],
        leader_commit: 0,
    });
    node.check_election_timeout(0);
    node.check_election_timeout(0);
    node.handle_vote_response(0, granted(2));
    assert_eq!(node.send_heartbeats()[0].prev_log_index, 2);
    node.handle_append_response(0, 2, 0, failed(2));
    let requests = node.send_heartbeats();
    assert_eq!(requests[0].prev_log_index, 1);
    assert_eq!(requests[0].entries.len(), 1);
    assert_eq!(requests[1].prev_log_index, 2);
    node.handle_append_response(0, 1, 1, failed(2));
    node.handle_append_response(0, 0, 2, failed(2));
    node.handle_append_response(0, 0, 2, failed(2));
    let requests = node.send_heartbeats();
    assert_eq!(requests[0].prev_log_index, 0);
    assert_eq!(requests[0].entries.len(), 2);
}

#[test]
fn commit_needs_a_majority_of_the_cluster() {
    let mut node = leader(4);
    node.propose("SET a 1".to_string());
    node.propose("SET b 2".to_string());
    node.handle_append_response(0, 0, 2, ok(1));
    assert_eq!(node.commit_index(), 0);
    node.handle_append_response(1, 0, 1, ok(1));
    assert_eq!(node.commit_index(), 1);
    node.handle_append_response(2, 0, 2, ok(1));
    assert_eq!(node.commit_index(), 2);
    // An answer that tells nothing new changes nothing.
    node.handle_append_response(3, 0, 1, ok(1));
    assert_eq!(node.commit_index(), 2);
}

#[test]
fn answers_that_a_leader_does_not_heed() {
    let mut node = leader(2);
    node.propose("SET a 1".to_string());
    // An earlier term.
    node.handle_append_response(0, 0, 1, ok(0));
    assert_eq!(node.commit_index(), 0);
    // A peer that is not there.
    node.handle_append_response(2, 0, 1, ok(1));
    assert_eq!(node.commit_index(), 0);
    // More entries than the log holds.
    node.handle_append_response(0, 0, 2, ok(1));
    assert_eq!(node.commit_index(), 0);
    node.handle_append_response(0, u64::MAX, u64::MAX, ok(1));
    assert_eq!(node.commit_index(), 0);
    assert_eq!(node.send_heartbeats()[0].prev_log_index, 0);
    // A follower heeds none.
    let mut follower = RaftNode::with_timeout(1, peers(2), 0);
    follower.handle_append_response(0, 0, 0, ok(0));
    assert_eq!(follower.role(), NodeRole::Follower);
    assert_eq!(follower.commit_index(), 0);
}

#[test]
fn an_entry_of_an_earlier_term_is_not_committed_by_counting() {
    // The node holds one entry of term 1 and becomes leader of term 2.
    let mut node = RaftNode::with_timeout(1, peers(2), 0);
    node.handle_append_entries(AppendEntries {
        term: 1,
        leader_id: 2,
        prev_log_index: 0,
        prev_log_term: 0,
        entries: vec![LogEntry { term: 1, command: "SET a 1".to_string() }],
        leader_commit: 0,
    });
    node.check_election_timeout(0);
    node.check_election_timeout(0);
    assert!(node.handle_vote_response(0, granted(2)));
    // Both peers store the entry of term 1: it is still not committed.
    node.handle_append_response(0, 0, 1, ok(2));
    node.handle_append_response(1, 0, 1, ok(2));
    assert_eq!(node.commit_index(), 0);
    // An entry of term 2 on a majority commits both.
    assert_eq!(node.propose("SET b 2".to_string()), Some(2));
    node.handle_append_response(0, 1, 1, ok(2));
    assert_eq!(node.commit_index(), 2);
}

#[test]
fn committed_entries_are_handed_over_in_order() {
    let mut node = RaftNode::with_timeout(1, Vec::new(), 0);
    node.start_election(0);
    assert!(node.next_to_apply().is_none());
    node.propose("SET a 1".to_string());
    node.propose("DELETE a".to_string());
    let (index, entry) = node.next_to_apply().unwrap();
    assert_eq!((index, entry.term, entry.command.as_str()), (1, 1, "SET a 1"));
    // Until the entry is marked as applied, it is the next one.
    let (index, _) = node.next_to_apply().unwrap();
    assert_eq!(index, 1);
    node.mark_applied();
    assert_eq!(node.last_applied(), 1);
    let (index, entry) = node.next_to_apply().unwrap();
    assert_eq!((index, entry.command.as_str()), (2, "DELETE a"));
    node.mark_applied();
    assert!(node.next_to_apply().is_none());
    node.mark_applied();
    assert_eq!(node.last_applied(), 2);
}

#[test]
fn step_down_keeps_the_term_and_the_vote() {
    let mut node = leader(2);
    node.propose("SET a 1".to_string());
    node.step_down();
    assert_eq!(node.role(), NodeRole::Follower);
    assert_eq!(node.current_term(), 1);
    assert_eq!(node.state().voted_for, Some(1));
    assert_eq!(commands(&node), vec!["SET a 1"]);
    assert_eq!(node.propose("SET b 2".to_string()), None);
}

#[test]
fn a_restored_node_is_a_follower_with_its_durable_state() {
    let log = vec![
        LogEntry { term: 1, command: "SET a 1".to_string() },
        LogEntry { term: 2, command: "SET b 2".to_string() },
        LogEntry { term: 2, command: "DELETE a".to_string() },
    ];
    let state = raft_kv::raft::state::RaftState::restore(3, Some(2), log);
    assert_eq!(state.current_term, 3);
    assert_eq!(state.voted_for, Some(2));
    assert_eq!(state.commit_index, 0);
    assert_eq!(state.last_applied, 0);
    assert_eq!(state.last_log_index(), 3);
    assert_eq!(state.last_log_term(), 2);

    let mut node = RaftNode::restore(1, peers(2), 5, state, 2);
    assert_eq!(node.role(), NodeRole::Follower);
    assert_eq!(node.current_term(), 3);
    assert_eq!(node.state().voted_for, Some(2));
    assert_eq!(node.election_timeout(), 155);
    assert_eq!(node.commit_index(), 2);
    assert_eq!(node.last_applied(), 2);
    assert_eq!(node.leader_id(), None);
    assert_eq!(commands(&node), vec!["SET a 1", "SET b 2", "DELETE a"]);
    // The vote of the term is still cast.
    let resp = node.handle_vote_request(RequestVote {
        term: 3,
        candidate_id: 3,
        last_log_index: 9,
        last_log_term: 9,
    });
    assert!(!resp.vote_granted);
}

#[test]
fn a_restored_node_counts_no_more_applied_than_its_log_holds() {
    let log = vec![LogEntry { term: 1, command: "SET a 1".to_string() }];
    let state = raft_kv::raft::state::RaftState::restore(1, None, log);
    let node = RaftNode::restore(1, peers(2), 0, state, 7);
    assert_eq!(node.commit_index(), 1);
    assert_eq!(node.last_applied(), 1);
    assert!(node.next_to_apply().is_none());
}

#[test]
fn advance_commit_applies_the_commit_rule() {
    // A follower commits nothing by the rule.
    let mut follower = RaftNode::with_timeout(1, peers(2), 0);
    follower.advance_commit();
    assert_eq!(follower.commit_index(), 0);

    // A leader commits the highest entry of its term that a majority stores.
    let mut node = leader(2);
    node.propose("SET a 1".to_string());
    node.propose("SET b 2".to_string());
    node.propose("SET c 3".to_string());
    node.advance_commit();
    assert_eq!(node.commit_index(), 0);
    node.handle_append_response(1, 0, 2, ok(1));
    assert_eq!(node.commit_index(), 2);
    node.advance_commit();
    assert_eq!(node.commit_index(), 2);
}
