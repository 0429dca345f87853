//! The role state machine of a node: elections, the leader's side of log
//! replication, the commit rule and the hand-over of committed commands.
//!
//! Nothing here waits or sends. Each function takes what happened (a
//! timer ran out, a message arrived) and returns what to send, so that
//! the caller owns the sockets and the clocks.

use crate::raft::rpc::{
    AppendEntries,
    AppendEntriesResponse,
    AppendEntriesView,
    RequestVote,
    VoteResponse,
    after_vote_request,
    vote_granted,
};
use crate::raft::state::{
    LogEntry,
    LogEntryView,
    RaftState,
    RaftStateView,
    after_append_entries,
    append_entries_accepted,
};
use vstd::prelude::*;

verus! {

/// The shortest election timeout, in milliseconds.
pub const ELECTION_TIMEOUT_MIN_MS: u64 = 150;

/// The longest election timeout, in milliseconds.
pub const ELECTION_TIMEOUT_MAX_MS: u64 = 300;

/// The time between two heartbeats of a leader, in milliseconds.
pub const HEARTBEAT_INTERVAL_MS: u64 = 50;

/// The time after which an unanswered request is given up, in milliseconds.
pub const RPC_DEADLINE_MS: u64 = 150;

#[derive(Debug, Clone, Copy, PartialEq, Eq, Structural)]
pub enum NodeRole {
    Follower,
    Candidate,
    Leader,
}

/// The election timeout that a random draw selects: the shortest
/// timeout and the remainder of the draw by 151, which is one of the 151
/// values from the shortest to the longest timeout.
pub open spec fn election_timeout_of(draw: u64) -> u64 {
    (ELECTION_TIMEOUT_MIN_MS + draw % 151) as u64
}

/// Maps a random draw to an election timeout in milliseconds.
pub fn election_timeout_from(draw: u64) -> (timeout: u64)
    ensures
        timeout == election_timeout_of(draw),
        ELECTION_TIMEOUT_MIN_MS <= timeout <= ELECTION_TIMEOUT_MAX_MS,
        HEARTBEAT_INTERVAL_MS < timeout,
{
    ELECTION_TIMEOUT_MIN_MS + draw % 151
}

/// `rand::random::<u64>()`: a value from the thread's random number
/// generator. Nothing is claimed of it: every `u64` may come back.
#[verifier::external_body]
fn random_draw() -> (draw: u64) {
    rand::random::<u64>()
}

/// How many of the flags are set.
pub open spec fn count_true(flags: Seq<bool>) -> nat
    decreases flags.len(),
{
    if flags.len() == 0 {
        0
    } else {
        count_true(flags.drop_last()) + if flags.last() {
            1nat
        } else {
            0nat
        }
    }
}

/// How many of the indices are at least `n`.
pub open spec fn count_at_least(indices: Seq<u64>, n: int) -> nat
    decreases indices.len(),
{
    if indices.len() == 0 {
        0
    } else {
        count_at_least(indices.drop_last(), n) + if indices.last() >= n {
            1nat
        } else {
            0nat
        }
    }
}

/// `supporters` nodes, the node itself among them, are a strict majority
/// of a cluster of `peers` other nodes and the node itself.
pub open spec fn is_majority(supporters: nat, peers: nat) -> bool {
    2 * supporters > peers + 1
}

/// A node of the cluster.
pub struct RaftNode {
    id: u64,
    state: RaftState,
    election_timeout: u64,
    role: NodeRole,
    peers: Vec<String>,
    votes: Vec<bool>,
    prev_index: Vec<u64>,
    match_index: Vec<u64>,
    heard_from_leader: bool,
    leader_id: Option<u64>,
}

/// A node as mathematical values.
pub struct RaftNodeView {
    pub id: u64,
    pub state: RaftStateView,
    /// In milliseconds.
    pub election_timeout: u64,
    pub role: NodeRole,
    /// The addresses of the other nodes.
    pub peers: Seq<Seq<char>>,
    /// For a candidate: which peers granted their vote in the current term.
    pub votes: Seq<bool>,
    /// For a leader: the index of the entry before the next one to send
    /// to each peer, which is one less than that peer's `next_index`.
    pub prev_index: Seq<u64>,
    /// For a leader: the highest index known to be stored on each peer.
    pub match_index: Seq<u64>,
    /// A valid leader was heard since the election timer last ran out.
    pub heard_from_leader: bool,
    /// The leader last heard of.
    pub leader_id: Option<u64>,
}

impl RaftNodeView {
    pub open spec fn wf(self) -> bool {
        &&& self.state.wf()
        &&& ELECTION_TIMEOUT_MIN_MS <= self.election_timeout <= ELECTION_TIMEOUT_MAX_MS
        &&& self.votes.len() == self.peers.len()
        &&& self.prev_index.len() == self.peers.len()
        &&& self.match_index.len() == self.peers.len()
        &&& self.role != NodeRole::Follower ==> self.state.voted_for == Some(self.id)
        &&& self.role == NodeRole::Leader ==> forall|i: int|
            #![trigger self.prev_index[i]]
            #![trigger self.match_index[i]]
            0 <= i < self.peers.len() ==> {
                &&& self.prev_index[i] <= self.state.log.len()
                &&& self.match_index[i] <= self.state.log.len()
            }
    }

    /// The votes that a candidate holds, its own among them.
    pub open spec fn votes_held(self) -> nat {
        count_true(self.votes) + 1
    }

    /// The index of the next entry to send to peer `i`.
    pub open spec fn next_index(self, i: int) -> int {
        self.prev_index[i] + 1
    }

    /// The node after it saw a message of term `term`: a higher term is
    /// adopted, which ends a candidacy or a leadership and leaves the
    /// leader unknown.
    pub open spec fn observe_term(self, term: u64) -> RaftNodeView {
        if term > self.state.current_term {
            RaftNodeView {
                state: self.state.observe_term(term),
                role: NodeRole::Follower,
                leader_id: None,
                ..self
            }
        } else {
            self
        }
    }

    /// The node after it started an election: it enters the next term
    /// as a candidate with a fresh timeout and its own vote, and wins at
    /// once where it has no peers. In the last term that a `u64` can
    /// count, no election starts.
    pub open spec fn after_start_election(self, draw: u64) -> RaftNodeView {
        if self.state.current_term == u64::MAX {
            self
        } else {
            RaftNodeView {
                state: RaftStateView {
                    current_term: (self.state.current_term + 1) as u64,
                    voted_for: Some(self.id),
                    ..self.state
                },
                election_timeout: election_timeout_of(draw),
                role: if self.peers.len() == 0 {
                    NodeRole::Leader
                } else {
                    NodeRole::Candidate
                },
                votes: Seq::new(self.peers.len(), |i: int| false),
                heard_from_leader: false,
                leader_id: if self.peers.len() == 0 {
                    Some(self.id)
                } else {
                    None
                },
                ..self
            }
        }
    }

    /// The request that a node sends to every peer when it has started
    /// an election.
    pub open spec fn vote_request(self) -> RequestVote {
        RequestVote {
            term: self.state.current_term,
            candidate_id: self.id,
            last_log_index: self.state.last_log_index() as u64,
            last_log_term: self.state.last_log_term(),
        }
    }

    /// The node after its election timer ran out. A leader has no use
    /// for the timer. A follower that heard a valid leader since the
    /// timer last ran out stays a follower and listens again. Any other
    /// node starts an election.
    pub open spec fn after_election_timeout(self, draw: u64) -> RaftNodeView {
        if self.role == NodeRole::Leader {
            self
        } else if self.role == NodeRole::Follower && self.heard_from_leader {
            RaftNodeView { heard_from_leader: false, ..self }
        } else {
            self.after_start_election(draw)
        }
    }

    /// The election timer running out starts an election.
    pub open spec fn timeout_starts_election(self) -> bool {
        &&& self.role != NodeRole::Leader
        &&& !(self.role == NodeRole::Follower && self.heard_from_leader)
        &&& self.state.current_term < u64::MAX
    }

    /// The request that a leader sends to peer `i`: every entry from the
    /// peer's next index on, and the index and term of the entry before.
    pub open spec fn append_entries_for(self, i: int) -> AppendEntriesView {
        let prev = self.prev_index[i];
        AppendEntriesView {
            term: self.state.current_term,
            leader_id: self.id,
            prev_log_index: prev,
            prev_log_term: if prev == 0 {
                0
            } else {
                self.state.log[prev - 1].term
            },
            entries: self.state.log.subrange(prev as int, self.state.log.len() as int),
            leader_commit: self.state.commit_index,
        }
    }

    /// The node after a peer asked for its vote.
    pub open spec fn after_vote_request(self, req: RequestVote) -> RaftNodeView {
        RaftNodeView {
            state: after_vote_request(self.state, req),
            ..self.observe_term(req.term)
        }
    }

    /// A leader does not take entries from another node in its own term.
    pub open spec fn refuses_as_leader(self, req: AppendEntriesView) -> bool {
        self.role == NodeRole::Leader && req.term == self.state.current_term
    }

    /// The node after an `AppendEntries` request. A request of a stale
    /// term, or one that reaches the leader of its own term, changes
    /// nothing. Any other comes from the valid leader: the node follows
    /// it and lets its state take the entries.
    pub open spec fn after_append_entries(self, req: AppendEntriesView) -> RaftNodeView {
        if req.term < self.state.current_term || self.refuses_as_leader(req) {
            self
        } else {
            RaftNodeView {
                state: after_append_entries(self.state, req),
                role: NodeRole::Follower,
                heard_from_leader: true,
                leader_id: Some(req.leader_id),
                ..self
            }
        }
    }

    /// The answer of peer `from` counts as a vote: the node is a
    /// candidate, and the vote was granted in its current term.
    pub open spec fn counts_vote(self, from: int, resp: VoteResponse) -> bool {
        &&& self.role == NodeRole::Candidate
        &&& resp.term == self.state.current_term
        &&& resp.vote_granted
        &&& 0 <= from < self.peers.len()
    }

    /// The answer of peer `from` gives the node a strict majority of
    /// the cluster's votes.
    pub open spec fn wins_election(self, from: int, resp: VoteResponse) -> bool {
        &&& self.counts_vote(from, resp)
        &&& is_majority(count_true(self.votes.update(from, true)) + 1, self.peers.len())
    }

    /// The node after peer `from` answered a vote request. A higher term
    /// in the answer ends the candidacy. A vote that counts is recorded,
    /// and with a strict majority of the cluster's votes the candidate
    /// becomes leader: every peer's next index is then the one behind
    /// the leader's log, and no entry is known to be stored on any peer.
    pub open spec fn after_vote_response(self, from: int, resp: VoteResponse) -> RaftNodeView {
        if resp.term > self.state.current_term {
            self.observe_term(resp.term)
        } else if !self.counts_vote(from, resp) {
            self
        } else if !self.wins_election(from, resp) {
            RaftNodeView { votes: self.votes.update(from, true), ..self }
        } else {
            RaftNodeView {
                votes: self.votes.update(from, true),
                role: NodeRole::Leader,
                prev_index: Seq::new(self.peers.len(), |i: int| self.state.log.len() as u64),
                match_index: Seq::new(self.peers.len(), |i: int| 0u64),
                leader_id: Some(self.id),
                ..self
            }
        }
    }

    /// Entry `n` is stored on a strict majority of the cluster, the
    /// leader itself counted.
    pub open spec fn replicated_on_majority(self, n: int) -> bool {
        is_majority(count_at_least(self.match_index, n) + 1, self.peers.len())
    }

    /// The leader may commit up to index `n`: the index lies behind the
    /// commit index and inside the log, the entry is of the current
    /// term, and a strict majority of the cluster stores it.
    pub open spec fn can_commit(self, n: int) -> bool {
        &&& self.state.commit_index < n <= self.state.log.len()
        &&& self.state.log[n - 1].term == self.state.current_term
        &&& self.replicated_on_majority(n)
    }

    /// `n` is the commit index that the commit rule gives: the highest
    /// index that the leader may commit, or the present commit index
    /// where there is none.
    pub open spec fn is_commit_target(self, n: int) -> bool {
        &&& n == self.state.commit_index || self.can_commit(n)
        &&& forall|m: int| n < m ==> !self.can_commit(m)
    }

    /// The answer of peer `from` is one that a leader acts on.
    pub open spec fn heeds_append_response(self, from: int, resp: AppendEntriesResponse) -> bool {
        &&& self.role == NodeRole::Leader
        &&& resp.term == self.state.current_term
        &&& 0 <= from < self.peers.len()
    }

    /// The node after peer `from` answered a request that had carried
    /// `sent` entries behind index `prev_log_index`, before the commit
    /// rule is applied. A higher term in the answer ends the leadership.
    /// On success the peer is known to store the entries up to the last
    /// one sent, and the next to send is the one behind them. On failure
    /// the next index steps back by one, if it can.
    pub open spec fn after_append_response(
        self,
        from: int,
        prev_log_index: u64,
        sent: u64,
        resp: AppendEntriesResponse,
    ) -> RaftNodeView {
        if resp.term > self.state.current_term {
            self.observe_term(resp.term)
        } else if !self.heeds_append_response(from, resp) {
            self
        } else if resp.success {
            if prev_log_index + sent <= self.state.log.len() {
                let stored = if prev_log_index + sent > self.match_index[from] {
                    (prev_log_index + sent) as u64
                } else {
                    self.match_index[from]
                };
                RaftNodeView {
                    match_index: self.match_index.update(from, stored),
                    prev_index: self.prev_index.update(from, stored),
                    ..self
                }
            } else {
                self
            }
        } else if self.prev_index[from] > 0 {
            RaftNodeView {
                prev_index: self.prev_index.update(from, (self.prev_index[from] - 1) as u64),
                ..self
            }
        } else {
            self
        }
    }

    /// The node with its commit index set to `n`.
    pub open spec fn with_commit_index(self, n: int) -> RaftNodeView {
        RaftNodeView { state: RaftStateView { commit_index: n as u64, ..self.state }, ..self }
    }

    /// The node with `command` appended to its log in the current term.
    pub open spec fn with_proposal(self, command: Seq<char>) -> RaftNodeView {
        RaftNodeView {
            state: RaftStateView {
                log: self.state.log.push(
                    LogEntryView { term: self.state.current_term, command },
                ),
                ..self.state
            },
            ..self
        }
    }

    /// There is a committed entry that is not applied yet.
    pub open spec fn has_unapplied(self) -> bool {
        self.state.last_applied < self.state.commit_index
    }
}

impl View for RaftNode {
    type V = RaftNodeView;

    closed spec fn view(&self) -> RaftNodeView {
        RaftNodeView {
            id: self.id,
            state: self.state@,
            election_timeout: self.election_timeout,
            role: self.role,
            peers: self.peers.deep_view(),
            votes: self.votes@,
            prev_index: self.prev_index@,
            match_index: self.match_index@,
            heard_from_leader: self.heard_from_leader,
            leader_id: self.leader_id,
        }
    }
}

/// The node that `with_timeout` builds.
pub open spec fn initial_node(id: u64, peers: Seq<Seq<char>>, draw: u64) -> RaftNodeView {
    RaftNodeView {
        id,
        state: RaftStateView {
            current_term: 0,
            voted_for: None,
            log: Seq::empty(),
            commit_index: 0,
            last_applied: 0,
        },
        election_timeout: election_timeout_of(draw),
        role: NodeRole::Follower,
        peers,
        votes: Seq::new(peers.len(), |i: int| false),
        prev_index: Seq::new(peers.len(), |i: int| 0u64),
        match_index: Seq::new(peers.len(), |i: int| 0u64),
        heard_from_leader: false,
        leader_id: None,
    }
}

/// A vector of `n` copies of `value`.
fn filled<T: Copy>(n: usize, value: T) -> (v: Vec<T>)
    ensures
        v@ == Seq::new(n as nat, |i: int| value),
{
    let mut v: Vec<T> = Vec::new();
    let mut i: usize = 0;
    while i < n
        invariant
            i <= n,
            v@ == Seq::new(i as nat, |j: int| value),
        decreases n - i,
    {
        v.push(value);
        assert(v@ =~= Seq::new((i + 1) as nat, |j: int| value));
        i += 1;
    }
    v
}

impl RaftNode {
    /// See [`RaftNodeView::wf`].
    pub open spec fn wf(&self) -> bool {
        self@.wf()
    }

    /// A follower of term 0 with an empty log, whose election timeout is
    /// drawn at random. `peers` are the addresses of the other nodes.
    pub fn new(id: u64, peers: Vec<String>) -> (node: Self)
        ensures
            node.wf(),
            exists|draw: u64| node@ == initial_node(id, peers.deep_view(), draw),
    {
        let draw = random_draw();
        Self::with_timeout(id, peers, draw)
    }

    /// A follower of term 0 with an empty log, whose election timeout is
    /// the one that `draw` selects.
    pub fn with_timeout(id: u64, peers: Vec<String>, draw: u64) -> (node: Self)
        ensures
            node.wf(),
            node@ == initial_node(id, peers.deep_view(), draw),
    {
        let n = peers.len();
        let node = RaftNode {
            id,
            state: RaftState::new(),
            election_timeout: election_timeout_from(draw),
            role: NodeRole::Follower,
            peers,
            votes: filled(n, false),
            prev_index: filled(n, 0u64),
            match_index: filled(n, 0u64),
            heard_from_leader: false,
            leader_id: None,
        };
        assert(node.state.log.deep_view() =~= Seq::<LogEntryView>::empty());
        node
    }

    /// A node that starts again as a follower with the state that it had
    /// made durable. The entries up to index `applied`, as far as the log
    /// holds them, count as committed and applied: they are the ones that
    /// the storage engine has carried out.
    pub fn restore(id: u64, peers: Vec<String>, draw: u64, state: RaftState, applied: u64) -> (node:
        Self)
        ensures
            node.wf(),
            node@ == (RaftNodeView {
                state: RaftStateView {
                    commit_index: if applied <= state@.log.len() {
                        applied
                    } else {
                        state@.log.len() as u64
                    },
                    last_applied: if applied <= state@.log.len() {
                        applied
                    } else {
                        state@.log.len() as u64
                    },
                    ..state@
                },
                ..initial_node(id, peers.deep_view(), draw)
            }),
    {
        let n = peers.len();
        let mut state = state;
        let held = state.last_log_index();
        let reached = if applied <= held {
            applied
        } else {
            held
        };
        state.commit_index = reached;
        state.last_applied = reached;
        RaftNode {
            id,
            state,
            election_timeout: election_timeout_from(draw),
            role: NodeRole::Follower,
            peers,
            votes: filled(n, false),
            prev_index: filled(n, 0u64),
            match_index: filled(n, 0u64),
            heard_from_leader: false,
            leader_id: None,
        }
    }

    /// Gives up a candidacy or a leadership, as a node does that cannot
    /// make its state durable. The term and the vote stay.
    pub fn step_down(&mut self)
        requires
            old(self).wf(),
        ensures
            final(self).wf(),
            final(self)@ == (RaftNodeView { role: NodeRole::Follower, ..old(self)@ }),
    {
        self.role = NodeRole::Follower;
    }

    pub fn id(&self) -> (id: u64)
        ensures
            id == self@.id,
    {
        self.id
    }

    pub fn role(&self) -> (role: NodeRole)
        ensures
            role == self@.role,
    {
        self.role
    }

    pub fn current_term(&self) -> (term: u64)
        ensures
            term == self@.state.current_term,
    {
        self.state.current_term
    }

    /// The election timeout of the current term, in milliseconds.
    pub fn election_timeout(&self) -> (timeout: u64)
        ensures
            timeout == self@.election_timeout,
    {
        self.election_timeout
    }

    /// The leader last heard of, if any.
    pub fn leader_id(&self) -> (leader: Option<u64>)
        ensures
            leader == self@.leader_id,
    {
        self.leader_id
    }

    /// The consensus state of the node.
    pub fn state(&self) -> (state: &RaftState)
        ensures
            state@ == self@.state,
    {
        &self.state
    }

    /// The number of other nodes in the cluster.
    pub fn peer_count(&self) -> (count: usize)
        ensures
            count == self@.peers.len(),
    {
        self.peers.len()
    }

    /// The address of peer number `peer`, if there is such a peer.
    pub fn peer_address(&self, peer: usize) -> (address: Option<&String>)
        ensures
            match address {
                Some(a) => peer < self@.peers.len() && a@ == self@.peers[peer as int],
                None => peer >= self@.peers.len(),
            },
    {
        if peer < self.peers.len() {
            Some(&self.peers[peer])
        } else {
            None
        }
    }

    pub fn commit_index(&self) -> (index: u64)
        ensures
            index == self@.state.commit_index,
    {
        self.state.commit_index
    }

    pub fn last_applied(&self) -> (index: u64)
        ensures
            index == self@.state.last_applied,
    {
        self.state.last_applied
    }
}

/// What a node asks its caller to do when a timer ran out.
#[derive(Debug)]
pub enum Action {
    /// Nothing is to be done.
    Idle,
    /// Send the request to every peer.
    RequestVotes(RequestVote),
    /// Send the i-th request to the i-th peer.
    Replicate(Vec<AppendEntries>),
}

/// What one node asks of another.
#[derive(Debug)]
pub enum PeerRequest {
    Vote(RequestVote),
    Append(AppendEntries),
}

/// What a node answers to another.
#[derive(Debug)]
pub enum PeerResponse {
    Vote(VoteResponse),
    Append(AppendEntriesResponse),
}

/// The number of set flags.
fn count_votes(votes: &Vec<bool>) -> (count: usize)
    ensures
        count == count_true(votes@),
        count <= votes.len(),
{
    let mut count: usize = 0;
    let mut i: usize = 0;
    while i < votes.len()
        invariant
            i <= votes.len(),
            count <= i,
            count == count_true(votes@.subrange(0, i as int)),
        decreases votes.len() - i,
    {
        assert(votes@.subrange(0, i + 1).drop_last() =~= votes@.subrange(0, i as int));
        if votes[i] {
            count += 1;
        }
        i += 1;
    }
    assert(votes@.subrange(0, i as int) =~= votes@);
    count
}

/// The number of indices that are at least `n`.
fn count_reached(indices: &Vec<u64>, n: u64) -> (count: usize)
    ensures
        count == count_at_least(indices@, n as int),
        count <= indices.len(),
{
    let mut count: usize = 0;
    let mut i: usize = 0;
    while i < indices.len()
        invariant
            i <= indices.len(),
            count <= i,
            count == count_at_least(indices@.subrange(0, i as int), n as int),
        decreases indices.len() - i,
    {
        assert(indices@.subrange(0, i + 1).drop_last() =~= indices@.subrange(0, i as int));
        if indices[i] >= n {
            count += 1;
        }
        i += 1;
    }
    assert(indices@.subrange(0, i as int) =~= indices@);
    count
}

/// Whether `granted` peers and the node itself are a strict majority of
/// a cluster of `peers` other nodes and the node itself.
fn majority_with(granted: usize, peers: usize) -> (yes: bool)
    requires
        granted <= peers,
    ensures
        yes == is_majority((granted + 1) as nat, peers as nat),
{
    granted >= peers - granted
}

/// A copy of the entries of `log` from position `start` on.
fn copy_entries_from(log: &Vec<LogEntry>, start: usize) -> (entries: Vec<LogEntry>)
    requires
        start <= log.len(),
    ensures
        entries.deep_view() == log.deep_view().subrange(start as int, log.len() as int),
{
    let mut entries: Vec<LogEntry> = Vec::new();
    let mut i: usize = start;
    while i < log.len()
        invariant
            start <= i <= log.len(),
            entries.len() == i - start,
            forall|j: int| 0 <= j < entries.len() ==> entries[j]@ == log[start + j]@,
        decreases log.len() - i,
    {
        entries.push(log[i].clone());
        i += 1;
    }
    assert(entries.deep_view() =~= log.deep_view().subrange(start as int, log.len() as int));
    entries
}

impl RaftNode {
    /// Adopts a higher term.
    fn observe_term(&mut self, term: u64)
        requires
            old(self).wf(),
        ensures
            final(self).wf(),
            final(self)@ == old(self)@.observe_term(term),
    {
        if term > self.state.current_term {
            self.state.current_term = term;
            self.state.voted_for = None;
            self.role = NodeRole::Follower;
            self.leader_id = None;
        }
    }

    /// Starts an election, with the election timeout that `draw`
    /// selects for the new term. Returns the request to send to every
    /// peer; none in the last term that a `u64` can count, where nothing
    /// changes.
    pub fn start_election(&mut self, draw: u64) -> (request: Option<RequestVote>)
        requires
            old(self).wf(),
        ensures
            final(self).wf(),
            final(self)@ == old(self)@.after_start_election(draw),
            request == if old(self)@.state.current_term < u64::MAX {
                Some(final(self)@.vote_request())
            } else {
                None
            },
    {
        if self.state.current_term == u64::MAX {
            return None;
        }
        let n = self.peers.len();
        self.state.current_term = self.state.current_term + 1;
        self.state.voted_for = Some(self.id);
        self.election_timeout = election_timeout_from(draw);
        self.votes = filled(n, false);
        self.heard_from_leader = false;
        if n == 0 {
            self.role = NodeRole::Leader;
            self.leader_id = Some(self.id);
        } else {
            self.role = NodeRole::Candidate;
            self.leader_id = None;
        }
        Some(
            RequestVote {
                term: self.state.current_term,
                candidate_id: self.id,
                last_log_index: self.state.last_log_index(),
                last_log_term: self.state.last_log_term(),
            },
        )
    }

    /// The election timer ran out. Returns the vote request to send to
    /// every peer where that starts an election.
    pub fn check_election_timeout(&mut self, draw: u64) -> (request: Option<RequestVote>)
        requires
            old(self).wf(),
        ensures
            final(self).wf(),
            final(self)@ == old(self)@.after_election_timeout(draw),
            request == if old(self)@.timeout_starts_election() {
                Some(final(self)@.vote_request())
            } else {
                None
            },
    {
        match self.role {
            NodeRole::Leader => None,
            NodeRole::Follower => {
                if self.heard_from_leader {
                    self.heard_from_leader = false;
                    None
                } else {
                    self.start_election(draw)
                }
            },
            NodeRole::Candidate => self.start_election(draw),
        }
    }

    /// The requests that a leader sends on a heartbeat or after a
    /// proposal, the i-th of them to the i-th peer. A node that is no
    /// leader sends none.
    pub fn send_heartbeats(&self) -> (requests: Vec<AppendEntries>)
        requires
            self.wf(),
        ensures
            self@.role != NodeRole::Leader ==> requests.len() == 0,
            self@.role == NodeRole::Leader ==> requests.len() == self@.peers.len(),
            forall|i: int|
                0 <= i < requests.len() ==> (#[trigger] requests[i])@ == self@.append_entries_for(i),
    {
        let mut requests: Vec<AppendEntries> = Vec::new();
        if self.role != NodeRole::Leader {
            return requests;
        }
        let mut i: usize = 0;
        while i < self.peers.len()
            invariant
                self.wf(),
                self.role == NodeRole::Leader,
                i <= self.peers.len(),
                requests.len() == i,
                forall|j: int|
                    0 <= j < i ==> (#[trigger] requests[j])@ == self@.append_entries_for(j),
            decreases self.peers.len() - i,
        {
            let prev = self.prev_index[i];
            assert(self@.prev_index[i as int] <= self@.state.log.len());
            let prev_term = if prev == 0 {
                0
            } else {
                self.state.log[(prev - 1) as usize].term
            };
            let request = AppendEntries {
                term: self.state.current_term,
                leader_id: self.id,
                prev_log_index: prev,
                prev_log_term: prev_term,
                entries: copy_entries_from(&self.state.log, prev as usize),
                leader_commit: self.state.commit_index,
            };
            requests.push(request);
            i += 1;
        }
        requests
    }

    /// One tick of the node's timer: a leader sends its heartbeats, any
    /// other node finds its election timer run out. `draw` selects the
    /// election timeout of the term that an election would start.
    pub fn run(&mut self, draw: u64) -> (action: Action)
        requires
            old(self).wf(),
        ensures
            final(self).wf(),
            final(self)@ == old(self)@.after_election_timeout(draw),
            match action {
                Action::Replicate(requests) => {
                    &&& old(self)@.role == NodeRole::Leader
                    &&& requests.len() == old(self)@.peers.len()
                    &&& forall|i: int|
                        0 <= i < requests.len() ==> (#[trigger] requests[i])@
                            == old(self)@.append_entries_for(i)
                },
                Action::RequestVotes(request) => {
                    &&& old(self)@.timeout_starts_election()
                    &&& request == final(self)@.vote_request()
                },
                Action::Idle => {
                    &&& old(self)@.role != NodeRole::Leader
                    &&& !old(self)@.timeout_starts_election()
                },
            },
    {
        if self.role == NodeRole::Leader {
            Action::Replicate(self.send_heartbeats())
        } else {
            match self.check_election_timeout(draw) {
                Some(request) => Action::RequestVotes(request),
                None => Action::Idle,
            }
        }
    }

    /// A peer asks for this node's vote.
    pub fn handle_vote_request(&mut self, req: RequestVote) -> (resp: VoteResponse)
        requires
            old(self).wf(),
        ensures
            final(self).wf(),
            final(self)@ == old(self)@.after_vote_request(req),
            resp.term == final(self)@.state.current_term,
            resp.vote_granted == vote_granted(old(self)@.state, req),
    {
        self.observe_term(req.term);
        self.state.handle_vote_request(req)
    }

    /// A peer sends entries or a heartbeat.
    pub fn handle_append_entries(&mut self, req: AppendEntries) -> (resp: AppendEntriesResponse)
        requires
            old(self).wf(),
        ensures
            final(self).wf(),
            final(self)@ == old(self)@.after_append_entries(req@),
            resp.term == final(self)@.state.current_term,
            resp.success == (!old(self)@.refuses_as_leader(req@) && append_entries_accepted(
                old(self)@.state,
                req@,
            )),
    {
        if req.term < self.state.current_term || (self.role == NodeRole::Leader && req.term
            == self.state.current_term) {
            return AppendEntriesResponse { term: self.state.current_term, success: false };
        }
        self.role = NodeRole::Follower;
        self.heard_from_leader = true;
        self.leader_id = Some(req.leader_id);
        self.state.handle_append_entries(req)
    }

    /// A peer's request, handed to the handler of its kind.
    pub fn handle_request(&mut self, request: PeerRequest) -> (response: PeerResponse)
        requires
            old(self).wf(),
        ensures
            final(self).wf(),
            match request {
                PeerRequest::Vote(req) => {
                    &&& final(self)@ == old(self)@.after_vote_request(req)
                    &&& response matches PeerResponse::Vote(resp)
                    &&& resp.term == final(self)@.state.current_term
                    &&& resp.vote_granted == vote_granted(old(self)@.state, req)
                },
                PeerRequest::Append(req) => {
                    &&& final(self)@ == old(self)@.after_append_entries(req@)
                    &&& response matches PeerResponse::Append(resp)
                    &&& resp.term == final(self)@.state.current_term
                    &&& resp.success == (!old(self)@.refuses_as_leader(req@)
                        && append_entries_accepted(old(self)@.state, req@))
                },
            },
    {
        match request {
            PeerRequest::Vote(req) => PeerResponse::Vote(self.handle_vote_request(req)),
            PeerRequest::Append(req) => PeerResponse::Append(self.handle_append_entries(req)),
        }
    }

    /// Peer number `from` answered a vote request. Says whether the
    /// answer made this node the leader.
    pub fn handle_vote_response(&mut self, from: usize, resp: VoteResponse) -> (elected: bool)
        requires
            old(self).wf(),
        ensures
            final(self).wf(),
            final(self)@ == old(self)@.after_vote_response(from as int, resp),
            elected == (resp.term <= old(self)@.state.current_term && old(self)@.wins_election(
                from as int,
                resp,
            )),
    {
        if resp.term > self.state.current_term {
            self.observe_term(resp.term);
            return false;
        }
        if !(self.role == NodeRole::Candidate && resp.term == self.state.current_term
            && resp.vote_granted && from < self.peers.len()) {
            return false;
        }
        self.votes[from] = true;
        let granted = count_votes(&self.votes);
        let n = self.peers.len();
        if majority_with(granted, n) {
            self.role = NodeRole::Leader;
            self.prev_index = filled(n, self.state.last_log_index());
            self.match_index = filled(n, 0u64);
            self.leader_id = Some(self.id);
            true
        } else {
            false
        }
    }

    /// The commit rule: the commit index advances to the highest index
    /// that a leader may commit. A node that is no leader commits
    /// nothing this way.
    pub fn advance_commit(&mut self)
        requires
            old(self).wf(),
        ensures
            final(self).wf(),
            old(self)@.role != NodeRole::Leader ==> final(self)@ == old(self)@,
            old(self)@.role == NodeRole::Leader ==> {
                &&& old(self)@.is_commit_target(final(self)@.state.commit_index as int)
                &&& final(self)@ == old(self)@.with_commit_index(
                    final(self)@.state.commit_index as int,
                )
            },
    {
        if self.role != NodeRole::Leader {
            return ;
        }
        let n = self.peers.len();
        let mut candidate: usize = self.state.log.len();
        while candidate as u64 > self.state.commit_index
            invariant
                self.wf(),
                self@ == old(self)@,
                self.role == NodeRole::Leader,
                n == self.peers.len(),
                candidate <= self.state.log.len(),
                forall|m: int| candidate < m ==> !self@.can_commit(m),
            decreases candidate,
        {
            if self.state.log[candidate - 1].term == self.state.current_term {
                let stored = count_reached(&self.match_index, candidate as u64);
                if majority_with(stored, n) {
                    assert(self@.can_commit(candidate as int));
                    self.state.commit_index = candidate as u64;
                    assert(self@ == old(self)@.with_commit_index(candidate as int));
                    return ;
                }
            }
            candidate -= 1;
        }
        assert(self@ == old(self)@.with_commit_index(self@.state.commit_index as int));
    }

    /// Peer number `from` answered an `AppendEntries` request that had
    /// carried `sent` entries behind index `prev_log_index`. The leader
    /// records what the answer tells of the peer's log and applies the
    /// commit rule.
    pub fn handle_append_response(
        &mut self,
        from: usize,
        prev_log_index: u64,
        sent: u64,
        resp: AppendEntriesResponse,
    )
        requires
            old(self).wf(),
        ensures
            final(self).wf(),
            ({
                let recorded = old(self)@.after_append_response(
                    from as int,
                    prev_log_index,
                    sent,
                    resp,
                );
                if recorded.role == NodeRole::Leader {
                    &&& recorded.is_commit_target(final(self)@.state.commit_index as int)
                    &&& final(self)@ == recorded.with_commit_index(
                        final(self)@.state.commit_index as int,
                    )
                } else {
                    final(self)@ == recorded
                }
            }),
    {
        if resp.term > self.state.current_term {
            self.observe_term(resp.term);
            return ;
        }
        if self.role == NodeRole::Leader && resp.term == self.state.current_term && from
            < self.peers.len() {
            if resp.success {
                let log_len = self.state.last_log_index();
                if prev_log_index <= log_len && sent <= log_len - prev_log_index {
                    let reached = prev_log_index + sent;
                    let stored = if reached > self.match_index[from] {
                        reached
                    } else {
                        self.match_index[from]
                    };
                    self.match_index[from] = stored;
                    self.prev_index[from] = stored;
                }
            } else if self.prev_index[from] > 0 {
                let back = self.prev_index[from] - 1;
                self.prev_index[from] = back;
            }
        }
        self.advance_commit();
    }

    /// A client's write. A leader appends the command to its log in the
    /// current term and returns the entry's index; where it has no peers,
    /// the entry is committed at once. Any other node returns `None` and
    /// stays as it is.
    pub fn propose(&mut self, command: String) -> (index: Option<u64>)
        requires
            old(self).wf(),
        ensures
            final(self).wf(),
            old(self)@.role != NodeRole::Leader ==> index is None && final(self)@ == old(self)@,
            old(self)@.role == NodeRole::Leader ==> {
                let proposed = old(self)@.with_proposal(command@);
                &&& index == Some(proposed.state.log.len() as u64)
                &&& proposed.is_commit_target(final(self)@.state.commit_index as int)
                &&& final(self)@ == proposed.with_commit_index(
                    final(self)@.state.commit_index as int,
                )
            },
    {
        if self.role != NodeRole::Leader {
            return None;
        }
        let entry = LogEntry { term: self.state.current_term, command };
        self.state.append_entry(entry);
        self.advance_commit();
        Some(self.state.last_log_index())
    }

    /// The next committed entry to apply, with its index, if there is
    /// one.
    pub fn next_to_apply(&self) -> (next: Option<(u64, LogEntry)>)
        requires
            self.wf(),
        ensures
            match next {
                Some((index, entry)) => {
                    &&& self@.has_unapplied()
                    &&& index == self@.state.last_applied + 1
                    &&& entry@ == self@.state.log[index - 1]
                },
                None => !self@.has_unapplied(),
            },
    {
        if self.state.last_applied < self.state.commit_index {
            let index = self.state.last_applied + 1;
            assert(self@.state.log.len() == self.state.log.len());
            let position = (index - 1) as usize;
            assert(self@.state.log[position as int] == self.state.log[position as int]@);
            Some((index, self.state.log[position].clone()))
        } else {
            None
        }
    }

    /// The next committed entry was applied. Where all committed entries
    /// are applied already, nothing changes.
    pub fn mark_applied(&mut self)
        requires
            old(self).wf(),
        ensures
            final(self).wf(),
            final(self)@ == (RaftNodeView {
                state: RaftStateView {
                    last_applied: if old(self)@.has_unapplied() {
                        (old(self)@.state.last_applied + 1) as u64
                    } else {
                        old(self)@.state.last_applied
                    },
                    ..old(self)@.state
                },
                ..old(self)@
            }),
    {
        if self.state.last_applied < self.state.commit_index {
            self.state.last_applied = self.state.last_applied + 1;
        }
    }
}

} // verus!
