//! A cluster of nodes as a mathematical model, and the proof that no
//! term has two leaders.
//!
//! The nodes of the model move by the same steps as the nodes that run:
//! each event applies one of the transitions that the functions of a node
//! are proved to make. The network is free to delay, drop, repeat and
//! reorder: a request may hold anything at all, and an answer that grants
//! a vote may arrive whenever, and as often as, the network likes, as long
//! as the voter did grant that vote.

use crate::raft::node::{NodeRole, RaftNodeView, count_true, initial_node, is_majority};
use crate::raft::rpc::{
    AppendEntriesResponse,
    AppendEntriesView,
    RequestVote,
    VoteResponse,
    lemma_vote_request_keeps_the_past,
    vote_granted,
};
use crate::raft::state::{RaftStateView, lemma_append_entries_keeps_the_past};
use vstd::prelude::*;

verus! {

/// A vote that was granted: who voted, in which term, for which
/// candidate.
pub struct Vote {
    /// The position of the voter in the cluster.
    pub voter: int,
    pub term: u64,
    /// The id of the candidate.
    pub candidate: u64,
}

/// The nodes of a cluster, and every vote that one of them has granted.
pub struct Cluster {
    pub nodes: Seq<RaftNodeView>,
    pub granted: Set<Vote>,
}

/// What can happen in a cluster.
pub enum Event {
    /// The election timer of a node runs out.
    Timeout { node: int, draw: u64 },
    /// A node starts an election, whatever its role.
    Stood { node: int, draw: u64 },
    /// A vote request reaches a node.
    VoteRequested { node: int, vote_request: RequestVote },
    /// The answer of a peer to a vote request reaches a node.
    VoteAnswered { node: int, peer: int, vote: VoteResponse },
    /// An `AppendEntries` request reaches a node.
    EntriesSent { node: int, request: AppendEntriesView },
    /// The answer of a peer to an `AppendEntries` request reaches a
    /// node, which then commits up to `commit`.
    EntriesAnswered {
        node: int,
        peer: int,
        prev_log_index: u64,
        sent: u64,
        response: AppendEntriesResponse,
        commit: int,
    },
    /// A client's write reaches a node, which then commits up to
    /// `commit`.
    Proposed { node: int, command: Seq<char>, commit: int },
    /// A node applies its next committed entry.
    Applied { node: int },
    /// A node gives up a candidacy or a leadership.
    SteppedDown { node: int },
    /// A node stops and starts again with its term, its vote and its
    /// log, and with the entries up to `applied` as the applied ones.
    Restarted { node: int, timeout_draw: u64, applied: u64 },
}

/// The position in the cluster of peer number `peer` of the node at
/// position `node`: the peers of a node are the other nodes in their
/// order.
pub open spec fn peer_node(node: int, peer: int) -> int {
    if peer < node {
        peer
    } else {
        peer + 1
    }
}

/// How many of the numbers below `n` have the property.
pub open spec fn count_where(n: nat, property: spec_fn(int) -> bool) -> nat
    decreases n,
{
    if n == 0 {
        0
    } else {
        count_where((n - 1) as nat, property) + if property(n - 1) {
            1nat
        } else {
            0nat
        }
    }
}

impl Event {
    /// The position of the node that the event happens to.
    pub open spec fn node(self) -> int {
        match self {
            Event::Timeout { node, .. } => node,
            Event::Stood { node, .. } => node,
            Event::VoteRequested { node, .. } => node,
            Event::VoteAnswered { node, .. } => node,
            Event::EntriesSent { node, .. } => node,
            Event::EntriesAnswered { node, .. } => node,
            Event::Proposed { node, .. } => node,
            Event::Applied { node } => node,
            Event::SteppedDown { node } => node,
            Event::Restarted { node, .. } => node,
        }
    }
}

impl Cluster {
    /// A cluster of nodes that have seen nothing yet.
    pub open spec fn initial(self) -> bool {
        &&& self.granted == Set::<Vote>::empty()
        &&& forall|i: int|
            0 <= i < self.nodes.len() ==> exists|draw: u64|
                #[trigger] self.nodes[i] == initial_node(
                    self.nodes[i].id,
                    self.nodes[i].peers,
                    draw,
                )
    }

    /// Every node is well formed, with a log that a machine can hold, and
    /// has every other node as a peer; and no two nodes share an id.
    pub open spec fn configured(self) -> bool {
        &&& forall|i: int|
            0 <= i < self.nodes.len() ==> (#[trigger] self.nodes[i]).wf() && self.nodes[i].peers.len()
                == self.nodes.len() - 1 && self.nodes[i].state.log.len() <= u64::MAX
        &&& forall|i: int, j: int|
            0 <= i < self.nodes.len() && 0 <= j < self.nodes.len() && i != j
                ==> (#[trigger] self.nodes[i]).id != (#[trigger] self.nodes[j]).id
    }

    /// The voter at position `voter` granted its vote of term `term` to
    /// the candidate of id `candidate`.
    pub open spec fn voted(self, voter: int, term: u64, candidate: u64) -> bool {
        self.granted.contains(Vote { voter, term, candidate })
    }

    /// A voter remembers each vote it granted for as long as it is in the
    /// vote's term, and it is never in an earlier term.
    pub open spec fn votes_remembered(self) -> bool {
        forall|voter: int, term: u64, candidate: u64| #[trigger]
            self.voted(voter, term, candidate) ==> {
                &&& 0 <= voter < self.nodes.len()
                &&& self.nodes[voter].state.current_term >= term
                &&& self.nodes[voter].state.current_term == term
                    ==> self.nodes[voter].state.voted_for == Some(candidate)
            }
    }

    /// No voter granted its vote of one term to two candidates.
    pub open spec fn one_vote_each(self) -> bool {
        forall|voter: int, term: u64, first: u64, second: u64|
            #![trigger self.voted(voter, term, first), self.voted(voter, term, second)]
            self.voted(voter, term, first) && self.voted(voter, term, second) ==> first == second
    }

    /// Every vote that a candidate or a leader counts was granted to it
    /// in its term, its own vote among them.
    pub open spec fn votes_counted_were_granted(self) -> bool {
        &&& forall|i: int|
            0 <= i < self.nodes.len() && (#[trigger] self.nodes[i]).role != NodeRole::Follower
                ==> self.voted(i, self.nodes[i].state.current_term, self.nodes[i].id)
        &&& forall|i: int, p: int|
            0 <= i < self.nodes.len() && self.nodes[i].role != NodeRole::Follower && 0 <= p
                < self.nodes[i].votes.len() && #[trigger] self.nodes[i].votes[p] ==> self.voted(
                peer_node(i, p),
                self.nodes[i].state.current_term,
                self.nodes[i].id,
            )
    }

    /// Every leader counts the votes of a strict majority of the cluster.
    pub open spec fn leaders_have_majorities(self) -> bool {
        forall|i: int|
            0 <= i < self.nodes.len() && (#[trigger] self.nodes[i]).role == NodeRole::Leader
                ==> is_majority(self.nodes[i].votes_held(), self.nodes[i].peers.len())
    }

    /// What holds of a cluster at every moment.
    pub open spec fn consistent(self) -> bool {
        &&& self.configured()
        &&& self.votes_remembered()
        &&& self.one_vote_each()
        &&& self.votes_counted_were_granted()
        &&& self.leaders_have_majorities()
    }

    /// The event can happen: it names a node of the cluster, and leaves
    /// it with a log that a machine can hold; an answer that grants a
    /// vote repeats a vote that the peer did grant; and the commit index
    /// that is reached is the one that the commit rule gives.
    pub open spec fn possible(self, event: Event) -> bool {
        &&& 0 <= event.node() < self.nodes.len()
        &&& self.node_after(event).state.log.len() <= u64::MAX
        &&& match event {
            Event::VoteAnswered { node, peer, vote } => vote.vote_granted ==> self.voted(
                peer_node(node, peer),
                vote.term,
                self.nodes[node].id,
            ),
            Event::EntriesAnswered { node, peer, prev_log_index, sent, response, commit } => {
                let recorded = self.nodes[node].after_append_response(
                    peer,
                    prev_log_index,
                    sent,
                    response,
                );
                recorded.role == NodeRole::Leader ==> recorded.is_commit_target(commit)
            },
            Event::Proposed { node, command, commit } => self.nodes[node].role == NodeRole::Leader
                ==> self.nodes[node].with_proposal(command).is_commit_target(commit),
            _ => true,
        }
    }

    /// The node that the event leaves behind.
    pub open spec fn node_after(self, event: Event) -> RaftNodeView {
        let before = self.nodes[event.node()];
        match event {
            Event::Timeout { draw, .. } => before.after_election_timeout(draw),
            Event::Stood { draw, .. } => before.after_start_election(draw),
            Event::VoteRequested { vote_request, .. } => before.after_vote_request(vote_request),
            Event::VoteAnswered { peer, vote, .. } => before.after_vote_response(peer, vote),
            Event::EntriesSent { request, .. } => before.after_append_entries(request),
            Event::EntriesAnswered { peer, prev_log_index, sent, response, commit, .. } => {
                let recorded = before.after_append_response(peer, prev_log_index, sent, response);
                if recorded.role == NodeRole::Leader {
                    recorded.with_commit_index(commit)
                } else {
                    recorded
                }
            },
            Event::Proposed { command, commit, .. } => if before.role == NodeRole::Leader {
                before.with_proposal(command).with_commit_index(commit)
            } else {
                before
            },
            Event::Applied { .. } => if before.has_unapplied() {
                RaftNodeView {
                    state: RaftStateView {
                        last_applied: (before.state.last_applied + 1) as u64,
                        ..before.state
                    },
                    ..before
                }
            } else {
                before
            },
            Event::SteppedDown { .. } => RaftNodeView { role: NodeRole::Follower, ..before },
            Event::Restarted { timeout_draw, applied, .. } => {
                let reached = if applied <= before.state.log.len() {
                    applied
                } else {
                    before.state.log.len() as u64
                };
                RaftNodeView {
                    state: RaftStateView {
                        commit_index: reached,
                        last_applied: reached,
                        ..before.state
                    },
                    ..initial_node(before.id, before.peers, timeout_draw)
                }
            },
        }
    }

    /// The votes after the event: a node that starts an election grants
    /// its vote to itself, and a node that grants a request its vote
    /// grants it to the request's candidate.
    pub open spec fn granted_after(self, event: Event) -> Set<Vote> {
        let before = self.nodes[event.node()];
        match event {
            Event::Timeout { node, .. } => if before.timeout_starts_election() {
                self.granted.insert(
                    Vote {
                        voter: node,
                        term: (before.state.current_term + 1) as u64,
                        candidate: before.id,
                    },
                )
            } else {
                self.granted
            },
            Event::Stood { node, .. } => if before.state.current_term < u64::MAX {
                self.granted.insert(
                    Vote {
                        voter: node,
                        term: (before.state.current_term + 1) as u64,
                        candidate: before.id,
                    },
                )
            } else {
                self.granted
            },
            Event::VoteRequested { node, vote_request } => if vote_granted(
                before.state,
                vote_request,
            ) {
                self.granted.insert(
                    Vote {
                        voter: node,
                        term: vote_request.term,
                        candidate: vote_request.candidate_id,
                    },
                )
            } else {
                self.granted
            },
            _ => self.granted,
        }
    }

    /// The cluster after the event.
    pub open spec fn after(self, event: Event) -> Cluster {
        Cluster {
            nodes: self.nodes.update(event.node(), self.node_after(event)),
            granted: self.granted_after(event),
        }
    }

    /// The cluster after the events, first to last.
    pub open spec fn after_all(self, events: Seq<Event>) -> Cluster
        decreases events.len(),
    {
        if events.len() == 0 {
            self
        } else {
            self.after_all(events.drop_last()).after(events.last())
        }
    }

    /// Each event can happen when its turn comes.
    pub open spec fn all_possible(self, events: Seq<Event>) -> bool
        decreases events.len(),
    {
        events.len() > 0 ==> self.all_possible(events.drop_last()) && self.after_all(
            events.drop_last(),
        ).possible(events.last())
    }
}

/// What every event leaves of a node: it stays well formed; its id and
/// its peers stay; its term does not fall; and within a term a vote that
/// it cast stays with its candidate.
pub proof fn lemma_event_keeps_the_node(cluster: Cluster, event: Event)
    requires
        cluster.configured(),
        cluster.possible(event),
    ensures
        ({
            let before = cluster.nodes[event.node()];
            let after = cluster.node_after(event);
            &&& after.wf()
            &&& after.id == before.id
            &&& after.peers == before.peers
            &&& after.state.current_term >= before.state.current_term
            &&& after.state.current_term == before.state.current_term
                && before.state.voted_for is Some ==> after.state.voted_for
                == before.state.voted_for
        }),
{
    let before = cluster.nodes[event.node()];
    assert(before.wf());
    match event {
        Event::VoteRequested { vote_request, .. } => {
            lemma_vote_request_keeps_the_past(before.state, vote_request);
            lemma_vote_request_keeps_the_past(
                before.observe_term(vote_request.term).state,
                vote_request,
            );
        },
        Event::EntriesSent { request, .. } => {
            lemma_append_entries_keeps_the_past(before.state, request);
        },
        _ => {},
    }
}

/// An event leaves a cluster configured as it was.
pub proof fn lemma_event_keeps_the_configuration(cluster: Cluster, event: Event)
    requires
        cluster.configured(),
        cluster.possible(event),
    ensures
        cluster.after(event).configured(),
        cluster.after(event).nodes.len() == cluster.nodes.len(),
{
    lemma_event_keeps_the_node(cluster, event);
    let after = cluster.after(event);
    assert forall|i: int| 0 <= i < after.nodes.len() implies (#[trigger] after.nodes[i]).wf()
        && after.nodes[i].peers.len() == after.nodes.len() - 1 && after.nodes[i].state.log.len()
        <= u64::MAX by {
        assert(cluster.nodes[i].wf());
    }
    assert forall|i: int, j: int|
        0 <= i < after.nodes.len() && 0 <= j < after.nodes.len() && i != j implies (
    #[trigger] after.nodes[i]).id != (#[trigger] after.nodes[j]).id by {
        assert(cluster.nodes[i].id != cluster.nodes[j].id);
    }
}

/// An event leaves every vote remembered, and no voter with two votes in
/// one term.
pub proof fn lemma_event_keeps_the_votes(cluster: Cluster, event: Event)
    requires
        cluster.consistent(),
        cluster.possible(event),
    ensures
        cluster.after(event).votes_remembered(),
        cluster.after(event).one_vote_each(),
{
    lemma_event_keeps_the_node(cluster, event);
    let after = cluster.after(event);
    let node = event.node();
    let before_node = cluster.nodes[node];
    let after_node = cluster.node_after(event);
    match event {
        Event::VoteRequested { vote_request, .. } => {
            lemma_vote_request_keeps_the_past(before_node.state, vote_request);
        },
        _ => {},
    }
    assert forall|voter: int, term: u64, candidate: u64| #[trigger]
        after.voted(voter, term, candidate) implies {
        &&& 0 <= voter < after.nodes.len()
        &&& after.nodes[voter].state.current_term >= term
        &&& after.nodes[voter].state.current_term == term ==> after.nodes[voter].state.voted_for
            == Some(candidate)
    } by {
        if cluster.voted(voter, term, candidate) {
            if voter == node && after_node.state.current_term == term {
                assert(before_node.state.voted_for == Some(candidate));
            }
        }
    }
    assert forall|voter: int, term: u64, first: u64, second: u64|
        #![trigger after.voted(voter, term, first), after.voted(voter, term, second)]
        after.voted(voter, term, first) && after.voted(voter, term, second) implies first
        == second by {
        if !cluster.voted(voter, term, first) || !cluster.voted(voter, term, second) {
            // One of the two votes is new: the other is of the voter's
            // term before the event, where its vote is remembered.
            if cluster.voted(voter, term, first) {
                assert(before_node.state.current_term >= term);
            }
            if cluster.voted(voter, term, second) {
                assert(before_node.state.current_term >= term);
            }
        }
    }
}

/// An event leaves every counted vote a granted one, and every leader
/// with a majority.
pub proof fn lemma_event_keeps_the_counts(cluster: Cluster, event: Event)
    requires
        cluster.consistent(),
        cluster.possible(event),
    ensures
        cluster.after(event).votes_counted_were_granted(),
        cluster.after(event).leaders_have_majorities(),
{
    lemma_event_keeps_the_node(cluster, event);
    let after = cluster.after(event);
    let node = event.node();
    let before_node = cluster.nodes[node];
    let after_node = cluster.node_after(event);
    assert(before_node.wf());
    assert forall|i: int|
        0 <= i < after.nodes.len() && (#[trigger] after.nodes[i]).role
            != NodeRole::Follower implies after.voted(
        i,
        after.nodes[i].state.current_term,
        after.nodes[i].id,
    ) by {
        if i != node {
            assert(cluster.nodes[i].role != NodeRole::Follower);
            assert(cluster.voted(i, cluster.nodes[i].state.current_term, cluster.nodes[i].id));
        } else if before_node.role != NodeRole::Follower {
            assert(cluster.voted(node, before_node.state.current_term, before_node.id));
        }
    }
    assert forall|i: int, p: int|
        0 <= i < after.nodes.len() && after.nodes[i].role != NodeRole::Follower && 0 <= p
            < after.nodes[i].votes.len() && #[trigger] after.nodes[i].votes[p] implies after.voted(
        peer_node(i, p),
        after.nodes[i].state.current_term,
        after.nodes[i].id,
    ) by {
        if i != node {
            assert(cluster.nodes[i].votes[p]);
            assert(cluster.voted(
                peer_node(i, p),
                cluster.nodes[i].state.current_term,
                cluster.nodes[i].id,
            ));
        } else if before_node.role != NodeRole::Follower && before_node.votes[p]
            && before_node.state.current_term == after_node.state.current_term {
            assert(cluster.voted(
                peer_node(node, p),
                before_node.state.current_term,
                before_node.id,
            ));
        }
    }
    assert forall|i: int|
        0 <= i < after.nodes.len() && (#[trigger] after.nodes[i]).role
            == NodeRole::Leader implies is_majority(
        after.nodes[i].votes_held(),
        after.nodes[i].peers.len(),
    ) by {
        if i != node {
            assert(cluster.nodes[i].role == NodeRole::Leader);
        } else if before_node.role == NodeRole::Leader {
            assert(is_majority(before_node.votes_held(), before_node.peers.len()));
        } else {
            match event {
                Event::Timeout { .. } => {
                    assert(after_node.votes =~= Seq::<bool>::empty());
                },
                Event::Stood { .. } => {
                    assert(after_node.votes =~= Seq::<bool>::empty());
                },
                _ => {},
            }
        }
    }
}

/// What holds of a cluster holds after every event that can happen.
pub proof fn lemma_event_keeps_consistency(cluster: Cluster, event: Event)
    requires
        cluster.consistent(),
        cluster.possible(event),
    ensures
        cluster.after(event).consistent(),
{
    lemma_event_keeps_the_configuration(cluster, event);
    lemma_event_keeps_the_votes(cluster, event);
    lemma_event_keeps_the_counts(cluster, event);
}

/// A cluster of nodes that have seen nothing yet is consistent.
pub proof fn lemma_initial_cluster_is_consistent(cluster: Cluster)
    requires
        cluster.initial(),
        cluster.configured(),
    ensures
        cluster.consistent(),
{
    assert forall|i: int|
        0 <= i < cluster.nodes.len() implies (#[trigger] cluster.nodes[i]).role
        == NodeRole::Follower by {
        let draw = choose|draw: u64|
            cluster.nodes[i] == initial_node(cluster.nodes[i].id, cluster.nodes[i].peers, draw);
    }
}

/// What holds of a cluster at the start holds after any run of events.
pub proof fn lemma_run_keeps_consistency(cluster: Cluster, events: Seq<Event>)
    requires
        cluster.consistent(),
        cluster.all_possible(events),
    ensures
        cluster.after_all(events).consistent(),
    decreases events.len(),
{
    if events.len() > 0 {
        lemma_run_keeps_consistency(cluster, events.drop_last());
        lemma_event_keeps_consistency(cluster.after_all(events.drop_last()), events.last());
    }
}

/// A property that follows from another holds of no fewer numbers.
pub proof fn lemma_count_where_implied(
    n: nat,
    narrow: spec_fn(int) -> bool,
    wide: spec_fn(int) -> bool,
)
    requires
        forall|v: int| 0 <= v < n && #[trigger] narrow(v) ==> wide(v),
    ensures
        count_where(n, narrow) <= count_where(n, wide),
    decreases n,
{
    if n > 0 {
        lemma_count_where_implied((n - 1) as nat, narrow, wide);
    }
}

/// Two properties that together hold of more numbers below `n` than
/// there are both hold of one of them.
pub proof fn lemma_majorities_meet(n: nat, first: spec_fn(int) -> bool, second: spec_fn(int) -> bool)
    requires
        count_where(n, first) + count_where(n, second) > n,
    ensures
        exists|v: int| 0 <= v < n && #[trigger] first(v) && second(v),
    decreases n,
{
    if n > 0 {
        if !(first(n - 1) && second(n - 1)) {
            lemma_majorities_meet((n - 1) as nat, first, second);
            let v = choose|v: int| 0 <= v < n - 1 && #[trigger] first(v) && second(v);
            assert(0 <= v < n && first(v) && second(v));
        }
    }
}

/// The node at position `v` supports the node at position `node`: it is
/// that node itself, or a peer whose vote the node counts.
pub open spec fn supports(node: int, votes: Seq<bool>, v: int) -> bool {
    v == node || (v < node && votes[v]) || (v > node && votes[v - 1])
}

/// Among the first `n` nodes of a cluster, a node has as many supporters
/// as it counts votes of the peers among them, and itself if it is among
/// them.
pub proof fn lemma_supporters_counted(node: int, votes: Seq<bool>, n: nat)
    requires
        0 <= node <= votes.len(),
        n <= votes.len() + 1,
    ensures
        count_where(n, |v: int| supports(node, votes, v)) == if n <= node {
            count_true(votes.subrange(0, n as int))
        } else {
            count_true(votes.subrange(0, n - 1)) + 1
        },
    decreases n,
{
    if n > 0 {
        lemma_supporters_counted(node, votes, (n - 1) as nat);
        let last = n - 1;
        if last < node {
            assert(votes.subrange(0, n as int).drop_last() =~= votes.subrange(0, last));
        } else if last > node {
            assert(votes.subrange(0, n - 1).drop_last() =~= votes.subrange(0, last - 1));
        }
    } else {
        assert(votes.subrange(0, 0) =~= Seq::<bool>::empty());
    }
}

impl Cluster {
    /// A strict majority of the cluster granted its vote of term `term`
    /// to the candidate of id `candidate`.
    pub open spec fn elected(self, term: u64, candidate: u64) -> bool {
        2 * count_where(self.nodes.len(), |v: int| self.voted(v, term, candidate))
            > self.nodes.len()
    }
}

/// A leader was elected in its term: a strict majority of the cluster
/// granted it its vote.
pub proof fn lemma_leaders_were_elected(cluster: Cluster, leader: int)
    requires
        cluster.consistent(),
        0 <= leader < cluster.nodes.len(),
        cluster.nodes[leader].role == NodeRole::Leader,
    ensures
        cluster.elected(cluster.nodes[leader].state.current_term, cluster.nodes[leader].id),
{
    let n = cluster.nodes.len();
    let node = cluster.nodes[leader];
    let term = node.state.current_term;
    assert(node.wf());
    let supporting = |v: int| supports(leader, node.votes, v);
    let voting = |v: int| cluster.voted(v, term, node.id);
    lemma_supporters_counted(leader, node.votes, n);
    assert(node.votes.subrange(0, n - 1) =~= node.votes);
    assert forall|v: int| 0 <= v < n && #[trigger] supporting(v) implies voting(v) by {
        if v < leader {
            assert(node.votes[v]);
            assert(peer_node(leader, v) == v);
        } else if v > leader {
            assert(node.votes[v - 1]);
            assert(peer_node(leader, v - 1) == v);
        }
    }
    lemma_count_where_implied(n, supporting, voting);
    assert(is_majority(node.votes_held(), node.peers.len()));
}

/// No term elects two candidates.
pub proof fn lemma_one_elected_in_a_term(cluster: Cluster, term: u64, first: u64, second: u64)
    requires
        cluster.consistent(),
        cluster.elected(term, first),
        cluster.elected(term, second),
    ensures
        first == second,
{
    let n = cluster.nodes.len();
    let voting_first = |v: int| cluster.voted(v, term, first);
    let voting_second = |v: int| cluster.voted(v, term, second);
    lemma_majorities_meet(n, voting_first, voting_second);
    let v = choose|v: int| 0 <= v < n && #[trigger] voting_first(v) && voting_second(v);
    assert(cluster.voted(v, term, first) && cluster.voted(v, term, second));
}

/// In a consistent cluster no term has two leaders.
pub proof fn lemma_one_leader_in_a_term(cluster: Cluster, first: int, second: int)
    requires
        cluster.consistent(),
        0 <= first < cluster.nodes.len(),
        0 <= second < cluster.nodes.len(),
        cluster.nodes[first].role == NodeRole::Leader,
        cluster.nodes[second].role == NodeRole::Leader,
        cluster.nodes[first].state.current_term == cluster.nodes[second].state.current_term,
    ensures
        first == second,
{
    lemma_leaders_were_elected(cluster, first);
    lemma_leaders_were_elected(cluster, second);
    lemma_one_elected_in_a_term(
        cluster,
        cluster.nodes[first].state.current_term,
        cluster.nodes[first].id,
        cluster.nodes[second].id,
    );
}

/// However the events of a cluster run, from nodes that have seen
/// nothing yet, no term has two leaders.
pub proof fn lemma_election_safety(start: Cluster, events: Seq<Event>, first: int, second: int)
    requires
        start.initial(),
        start.configured(),
        start.all_possible(events),
        0 <= first < start.after_all(events).nodes.len(),
        0 <= second < start.after_all(events).nodes.len(),
        start.after_all(events).nodes[first].role == NodeRole::Leader,
        start.after_all(events).nodes[second].role == NodeRole::Leader,
        start.after_all(events).nodes[first].state.current_term == start.after_all(
            events,
        ).nodes[second].state.current_term,
    ensures
        first == second,
{
    lemma_initial_cluster_is_consistent(start);
    lemma_run_keeps_consistency(start, events);
    lemma_one_leader_in_a_term(start.after_all(events), first, second);
}

} // verus!
