use raft_kv::network::message::{Message, Response};
use raft_kv::network::server::{handle_client, Served};
use raft_kv::raft::node::{NodeRole, RaftNode, ELECTION_TIMEOUT_MAX_MS};
use raft_kv::storage::append_only_log::AppendOnlyLog;
use raft_kv::storage::storage::Storage;

/// Nodes in one process, with files that are strings and a network that
/// delivers at once or not at all.
struct Cluster {
    nodes: Vec<RaftNode>,
    engines: Vec<Storage>,
    files: Vec<String>,
    cut_off: Vec<bool>,
    answers: Vec<Vec<(u64, Response)>>,
}

fn address(node: usize) -> String {
    format!("10.0.0.{}:6570", node + 1)
}

/// The node that peer number `peer` of node `node` is.
fn node_of_peer(node: usize, peer: usize) -> usize {
    if peer < node {
        peer
    } else {
        peer + 1
    }
}

impl Cluster {
    fn new(size: usize) -> Cluster {
        let mut nodes = Vec::new();
        for i in 0..size {
            let peers = (0..size).filter(|j| *j != i).map(address).collect();
            nodes.push(RaftNode::with_timeout(i as u64 + 1, peers, i as u64));
        }
        Cluster {
            nodes,
            engines: (0..size).map(|_| Storage::new()).collect(),
            files: vec![String::new(); size],
            cut_off: vec![false; size],
            answers: (0..size).map(|_| Vec::new()).collect(),
        }
    }

    fn connected(&self, a: usize, b: usize) -> bool {
        !self.cut_off[a] && !self.cut_off[b]
    }

    /// The election timer of `node` runs out; votes are asked for and counted.
    fn time_out(&mut self, node: usize) {
        let request = match self.nodes[node].check_election_timeout(0) {
            Some(request) => request,
            None => return,
        };
        for peer in 0..self.nodes[node].peer_count() {
            let other = node_of_peer(node, peer);
            if self.connected(node, other) {
                let response = self.nodes[other].handle_vote_request(request);
                self.nodes[node].handle_vote_response(peer, response);
            }
        }
    }

    /// One round of heartbeats of `node`, with the answers.
    fn heartbeat(&mut self, node: usize) {
        let requests = self.nodes[node].send_heartbeats();
        for (peer, request) in requests.into_iter().enumerate() {
            let other = node_of_peer(node, peer);
            if self.connected(node, other) {
                let prev = request.prev_log_index;
                let sent = request.entries.len() as u64;
                let response = self.nodes[other].handle_append_entries(request);
                self.nodes[node].handle_append_response(peer, prev, sent, response);
            }
        }
    }

    /// Every node applies what is committed: the record goes to the file
    /// first, then to the engine.
    fn apply_committed(&mut self) {
        for i in 0..self.nodes.len() {
            while let Some((index, entry)) = self.nodes[i].next_to_apply() {
                self.files[i].push_str(&entry.command);
                self.files[i].push('\n');
                let response = self.engines[i].apply(index, entry.term, &entry.command, true);
                self.answers[i].push((index, response));
                self.nodes[i].mark_applied();
            }
        }
    }

    fn leaders(&self) -> Vec<usize> {
        (0..self.nodes.len()).filter(|i| self.nodes[*i].role() == NodeRole::Leader).collect()
    }

    fn client(&mut self, node: usize, message: Message) -> Served {
        let leader_address = self.nodes[node].leader_id().map(|id| address(id as usize - 1));
        handle_client(&mut self.nodes[node], &self.engines[node], message, leader_address)
    }

    /// A write sent to `node`, replicated and applied: the leader's answer.
    fn write(&mut self, node: usize, message: Message) -> Response {
        let index = match self.client(node, message) {
            Served::Proposed(index) => index,
            Served::Reply(response) => return response,
        };
        self.heartbeat(node);
        self.heartbeat(node);
        self.apply_committed();
        let position = self.answers[node].iter().position(|(i, _)| *i == index).unwrap();
        self.answers[node].remove(position).1
    }

    fn read(&mut self, node: usize, key: &str) -> Option<String> {
        self.engines[node].get_in_memory(key)
    }

    fn commands(&self, node: usize) -> Vec<String> {
        self.nodes[node].state().log.iter().map(|e| e.command.clone()).collect()
    }
}

fn put(key: &str, value: &str) -> Message {
    Message::Put(key.to_string(), value.to_string())
}

#[test]
fn single_node_round_trip() {
    let mut cluster = Cluster::new(1);
    cluster.time_out(0);
    assert_eq!(cluster.leaders(), vec![0]);

    assert!(matches!(cluster.write(0, put("a", "1")), Response::Success(true)));
    match cluster.client(0, Message::Get("a".to_string())) {
        Served::Reply(Response::Value(value)) => assert_eq!(value, Some("1".to_string())),
        other => panic!("{:?}", other),
    }
    assert!(matches!(
        cluster.write(0, Message::Delete("a".to_string())),
        Response::Success(true)
    ));
    match cluster.client(0, Message::Get("a".to_string())) {
        Served::Reply(Response::Value(value)) => assert_eq!(value, None),
        other => panic!("{:?}", other),
    }
    assert_eq!(cluster.files[0], "SET a 1\nDELETE a\n");
}

#[test]
fn single_node_recovery() {
    let mut cluster = Cluster::new(1);
    cluster.time_out(0);
    cluster.write(0, put("x", "42"));
    cluster.write(0, put("y", "7"));
    cluster.write(0, Message::Delete("x".to_string()));

    // The process is killed; what is left is the file.
    let (log, intact) = AppendOnlyLog::load(&cluster.files[0]);
    assert!(intact);
    let engine = Storage::recover(None, log, 5).unwrap();
    assert_eq!(engine.get_in_memory("x"), None);
    assert_eq!(engine.get_in_memory("y"), Some("7".to_string()));
}

#[test]
fn leader_election() {
    let mut cluster = Cluster::new(3);
    assert!(ELECTION_TIMEOUT_MAX_MS <= 300);
    // The timer of one node runs out first.
    cluster.time_out(1);
    cluster.heartbeat(1);
    assert_eq!(cluster.leaders(), vec![1]);
    assert_eq!(cluster.nodes[0].role(), NodeRole::Follower);
    assert_eq!(cluster.nodes[2].role(), NodeRole::Follower);
    for node in &cluster.nodes {
        assert_eq!(node.current_term(), 1);
        assert_eq!(node.leader_id(), Some(2));
    }
    // The followers hear the leader and stay followers.
    cluster.time_out(0);
    cluster.time_out(2);
    assert_eq!(cluster.leaders(), vec![1]);
    assert_eq!(cluster.nodes[0].current_term(), 1);
}

#[test]
fn two_candidates_of_one_term_do_not_both_win() {
    let mut cluster = Cluster::new(3);
    // Nodes 0 and 1 time out together: each votes for itself in term 1.
    let first = cluster.nodes[0].check_election_timeout(0).unwrap();
    let second = cluster.nodes[1].check_election_timeout(0).unwrap();
    assert_eq!(first.term, second.term);
    // They refuse each other; node 2 votes for the first to ask.
    let r = cluster.nodes[1].handle_vote_request(first);
    assert!(!cluster.nodes[0].handle_vote_response(0, r));
    let r = cluster.nodes[0].handle_vote_request(second);
    assert!(!cluster.nodes[1].handle_vote_response(0, r));
    let r = cluster.nodes[2].handle_vote_request(first);
    assert!(r.vote_granted);
    assert!(cluster.nodes[0].handle_vote_response(1, r));
    let r = cluster.nodes[2].handle_vote_request(second);
    assert!(!r.vote_granted);
    assert!(!cluster.nodes[1].handle_vote_response(1, r));
    assert_eq!(cluster.leaders(), vec![0]);
}

#[test]
fn replicated_write() {
    let mut cluster = Cluster::new(3);
    cluster.time_out(0);
    assert!(matches!(cluster.write(0, put("k", "v")), Response::Success(true)));
    for node in 0..3 {
        assert_eq!(cluster.read(node, "k"), Some("v".to_string()));
        assert_eq!(cluster.nodes[node].commit_index(), 1);
        assert_eq!(cluster.nodes[node].last_applied(), 1);
        assert_eq!(cluster.files[node], "SET k v\n");
    }
}

#[test]
fn a_follower_redirects_to_the_leader() {
    let mut cluster = Cluster::new(3);
    match cluster.client(1, put("k", "v")) {
        Served::Reply(Response::Error(text)) => assert_eq!(text, "not leader"),
        other => panic!("{:?}", other),
    }
    cluster.time_out(0);
    cluster.heartbeat(0);
    match cluster.client(1, put("k", "v")) {
        Served::Reply(Response::Redirect(to)) => assert_eq!(to, "10.0.0.1:6570"),
        other => panic!("{:?}", other),
    }
    match cluster.client(2, Message::Get("k".to_string())) {
        Served::Reply(Response::Redirect(to)) => assert_eq!(to, "10.0.0.1:6570"),
        other => panic!("{:?}", other),
    }
    assert!(cluster.commands(1).is_empty());
    assert!(cluster.commands(0).is_empty());
}

#[test]
fn a_request_that_breaks_the_limits_is_refused() {
    let mut cluster = Cluster::new(1);
    cluster.time_out(0);
    for message in [
        put("two words", "v"),
        put("k", ""),
        put(&"k".repeat(4097), "v"),
        Message::Get("".to_string()),
        Message::Delete("a\nb".to_string()),
    ] {
        match cluster.client(0, message) {
            Served::Reply(Response::Error(text)) => assert_eq!(text, "invalid key or value"),
            other => panic!("{:?}", other),
        }
    }
    assert!(cluster.commands(0).is_empty());
}

#[test]
fn a_write_is_not_committed_without_a_majority() {
    let mut cluster = Cluster::new(3);
    cluster.time_out(0);
    cluster.cut_off[1] = true;
    cluster.cut_off[2] = true;
    assert!(matches!(cluster.client(0, put("k", "v")), Served::Proposed(1)));
    cluster.heartbeat(0);
    cluster.apply_committed();
    assert_eq!(cluster.nodes[0].commit_index(), 0);
    assert_eq!(cluster.read(0, "k"), None);
    // With one follower back there is a majority.
    cluster.cut_off[1] = false;
    cluster.heartbeat(0);
    cluster.heartbeat(0);
    cluster.apply_committed();
    assert_eq!(cluster.read(0, "k"), Some("v".to_string()));
    assert_eq!(cluster.read(1, "k"), Some("v".to_string()));
    assert_eq!(cluster.read(2, "k"), None);
}

#[test]
fn leader_failover() {
    let mut cluster = Cluster::new(3);
    cluster.time_out(0);
    assert!(matches!(cluster.write(0, put("k", "1")), Response::Success(true)));

    // The leader is cut off and takes a write that it cannot commit.
    cluster.cut_off[0] = true;
    assert!(matches!(cluster.client(0, put("k", "9")), Served::Proposed(2)));
    cluster.heartbeat(0);
    assert_eq!(cluster.nodes[0].commit_index(), 1);

    // The other two elect a leader, which takes a write.
    cluster.time_out(1);
    cluster.time_out(1);
    assert_eq!(cluster.nodes[1].role(), NodeRole::Leader);
    assert_eq!(cluster.nodes[1].current_term(), 2);
    assert!(matches!(cluster.write(1, put("k", "2")), Response::Success(true)));
    assert_eq!(cluster.read(1, "k"), Some("2".to_string()));
    assert_eq!(cluster.read(2, "k"), Some("2".to_string()));
    assert_eq!(cluster.read(0, "k"), Some("1".to_string()));
    // Two nodes call themselves leader, in different terms.
    assert_eq!(cluster.leaders(), vec![0, 1]);
    assert!(cluster.nodes[0].current_term() < cluster.nodes[1].current_term());

    // The partition heals: the old leader steps down and loses its tail.
    cluster.cut_off[0] = false;
    cluster.heartbeat(1);
    cluster.heartbeat(1);
    cluster.heartbeat(1);
    cluster.apply_committed();
    assert_eq!(cluster.leaders(), vec![1]);
    assert_eq!(cluster.nodes[0].role(), NodeRole::Follower);
    assert_eq!(cluster.nodes[0].current_term(), 2);
    for node in 0..3 {
        assert_eq!(cluster.commands(node), vec!["SET k 1", "SET k 2"]);
        assert_eq!(cluster.read(node, "k"), Some("2".to_string()));
        assert_eq!(cluster.nodes[node].last_applied(), 2);
    }
}

#[test]
fn applied_commands_agree_on_every_node() {
    let mut cluster = Cluster::new(5);
    cluster.time_out(3);
    cluster.cut_off[0] = true;
    for i in 0..6 {
        cluster.write(3, put("k", &format!("{}", i)));
    }
    cluster.cut_off[0] = false;
    cluster.cut_off[4] = true;
    for i in 6..9 {
        cluster.write(3, put("j", &format!("{}", i)));
    }
    cluster.heartbeat(3);
    cluster.heartbeat(3);
    cluster.apply_committed();
    for a in 0..5 {
        for b in 0..5 {
            let applied = cluster.nodes[a].last_applied().min(cluster.nodes[b].last_applied());
            for i in 0..applied as usize {
                let left = &cluster.nodes[a].state().log[i];
                let right = &cluster.nodes[b].state().log[i];
                assert_eq!((left.term, &left.command), (right.term, &right.command));
            }
        }
    }
    assert_eq!(cluster.nodes[0].last_applied(), 9);
    assert_eq!(cluster.nodes[4].last_applied(), 6);
    assert_eq!(cluster.read(0, "j"), Some("8".to_string()));
    assert_eq!(cluster.read(4, "j"), None);
}

#[test]
fn a_committed_entry_is_in_the_log_of_every_later_leader() {
    let mut cluster = Cluster::new(5);
    cluster.time_out(0);
    // Committed with the votes of nodes 0, 1 and 2 only.
    cluster.cut_off[3] = true;
    cluster.cut_off[4] = true;
    assert!(matches!(cluster.write(0, put("a", "1")), Response::Success(true)));
    assert!(matches!(cluster.write(0, put("b", "2")), Response::Success(true)));
    assert_eq!(cluster.nodes[0].commit_index(), 2);
    cluster.cut_off[3] = false;
    cluster.cut_off[4] = false;

    // A node that lacks the entries asks for votes and gets none that count.
    cluster.cut_off[0] = true;
    cluster.time_out(4);
    cluster.time_out(4);
    assert_eq!(cluster.nodes[4].role(), NodeRole::Candidate);
    assert!(cluster.commands(4).is_empty());

    // A node that holds them is elected, in a later term.
    cluster.time_out(2);
    cluster.time_out(2);
    assert_eq!(cluster.nodes[2].role(), NodeRole::Leader);
    assert!(cluster.nodes[2].current_term() > 1);
    assert_eq!(cluster.commands(2), vec!["SET a 1", "SET b 2"]);
    assert_eq!(cluster.leaders(), vec![0, 2]);
    assert!(cluster.nodes[0].current_term() < cluster.nodes[2].current_term());
}
