//! The logs of a cluster, and the proof that they match: where two logs
//! hold entries of one term at one index, they are the same up to that
//! index.
//!
//! The model adds to the cluster what its history owes to each term: the
//! log of the term's leader. A leader only appends to its log, and the
//! entries that a node takes are cut from the log of the leader of the
//! request's term, whenever they were sent.

use crate::raft::cluster::{
    Cluster,
    Event,
    count_where,
    lemma_count_where_implied,
    lemma_event_keeps_consistency,
    lemma_event_keeps_the_node,
    lemma_initial_cluster_is_consistent,
    lemma_leaders_were_elected,
    lemma_one_elected_in_a_term,
};
use crate::raft::node::{NodeRole, RaftNodeView, initial_node};
use crate::raft::rpc::AppendEntriesView;
use crate::raft::state::{
    LogEntryView,
    after_append_entries,
    agreeing_prefix,
    append_entries_accepted,
    lemma_agreeing_prefix,
    merged_log,
};
use vstd::prelude::*;

verus! {

/// A cluster with the log of the leader of each term.
pub struct Replication {
    pub cluster: Cluster,
    /// For each term that had a leader: the log of that leader, as it
    /// was when it last led.
    pub leader_logs: Map<u64, Seq<LogEntryView>>,
    /// For each term that had a leader: the position of that leader.
    pub leader_of: Map<u64, int>,
}

/// The first `n` entries of two logs are the same.
pub open spec fn same_up_to(a: Seq<LogEntryView>, b: Seq<LogEntryView>, n: int) -> bool {
    &&& n <= a.len()
    &&& n <= b.len()
    &&& forall|j: int| 0 <= j < n ==> #[trigger] a[j] == b[j]
}

impl Replication {
    /// The entry at position `i` of `log` is one of the leader of its
    /// term, and the log is that leader's up to the entry; the term is at
    /// most `limit`.
    pub open spec fn known(self, log: Seq<LogEntryView>, i: int, limit: u64) -> bool {
        &&& self.leader_logs.contains_key(log[i].term)
        &&& same_up_to(log, self.leader_logs[log[i].term], i + 1)
        &&& log[i].term <= limit
    }

    /// Every entry of the node at position `n` is known.
    pub open spec fn node_known(self, n: int) -> bool {
        forall|i: int|
            0 <= i < self.cluster.nodes[n].state.log.len() ==> #[trigger] self.known(
                self.cluster.nodes[n].state.log,
                i,
                self.cluster.nodes[n].state.current_term,
            )
    }

    /// Every entry of the leader of term `term` is known.
    pub open spec fn leader_known(self, term: u64) -> bool {
        forall|i: int|
            0 <= i < self.leader_logs[term].len() ==> #[trigger] self.known(
                self.leader_logs[term],
                i,
                term,
            )
    }

    /// The request is one that the leader of its term sent at some time:
    /// its entries stand in that leader's log behind `prev_log_index`,
    /// and `prev_log_term` is the term of the entry before them.
    pub open spec fn genuine(self, request: AppendEntriesView) -> bool {
        &&& self.leader_logs.contains_key(request.term)
        &&& request.prev_log_index + request.entries.len() <= self.leader_logs[request.term].len()
        &&& request.prev_log_index > 0 ==> request.prev_log_term
            == self.leader_logs[request.term][request.prev_log_index - 1].term
        &&& request.entries == self.leader_logs[request.term].subrange(
            request.prev_log_index as int,
            request.prev_log_index + request.entries.len(),
        )
    }

    /// The event can happen: it can happen in the cluster, and entries
    /// that reach a node were sent by the leader of their term.
    pub open spec fn possible(self, event: Event) -> bool {
        &&& self.cluster.possible(event)
        &&& event matches Event::EntriesSent { request, .. } ==> self.genuine(request)
    }

    /// The event makes its node a leader.
    pub open spec fn elects(self, event: Event) -> bool {
        &&& self.cluster.nodes[event.node()].role != NodeRole::Leader
        &&& self.cluster.node_after(event).role == NodeRole::Leader
    }

    /// The replication after the event: where the event leaves a leader,
    /// that leader's log is the log of its term.
    pub open spec fn after(self, event: Event) -> Replication {
        let node = self.cluster.node_after(event);
        if node.role == NodeRole::Leader {
            Replication {
                cluster: self.cluster.after(event),
                leader_logs: self.leader_logs.insert(node.state.current_term, node.state.log),
                leader_of: self.leader_of.insert(node.state.current_term, event.node()),
            }
        } else {
            Replication { cluster: self.cluster.after(event), ..self }
        }
    }

    /// The replication after the events, first to last.
    pub open spec fn after_all(self, events: Seq<Event>) -> Replication
        decreases events.len(),
    {
        if events.len() == 0 {
            self
        } else {
            self.after_all(events.drop_last()).after(events.last())
        }
    }

    /// Each event can happen when its turn comes.
    pub open spec fn all_possible(self, events: Seq<Event>) -> bool
        decreases events.len(),
    {
        events.len() > 0 ==> self.all_possible(events.drop_last()) && self.after_all(
            events.drop_last(),
        ).possible(events.last())
    }

    /// A cluster of nodes that have seen nothing yet, in which no term
    /// has had a leader.
    pub open spec fn initial(self) -> bool {
        &&& self.cluster.initial()
        &&& self.cluster.configured()
        &&& self.leader_logs == Map::<u64, Seq<LogEntryView>>::empty()
        &&& self.leader_of == Map::<u64, int>::empty()
    }

    /// The terms that had a leader: each leader is a node that was
    /// elected in its term and has not fallen back behind it, and that is
    /// no candidate while it is in it.
    pub open spec fn leaders_recorded(self) -> bool {
        &&& self.leader_logs.dom() == self.leader_of.dom()
        &&& forall|term: u64| #[trigger]
            self.leader_of.contains_key(term) ==> {
                let leader = self.leader_of[term];
                &&& 0 <= leader < self.cluster.nodes.len()
                &&& self.cluster.elected(term, self.cluster.nodes[leader].id)
                &&& self.cluster.nodes[leader].state.current_term >= term
                &&& self.cluster.nodes[leader].state.current_term == term
                    ==> self.cluster.nodes[leader].role != NodeRole::Candidate
            }
    }

    /// The log of each leader is the log of its term.
    pub open spec fn leaders_hold_their_logs(self) -> bool {
        forall|n: int|
            0 <= n < self.cluster.nodes.len() && (#[trigger] self.cluster.nodes[n]).role
                == NodeRole::Leader ==> {
                &&& self.leader_of.contains_key(self.cluster.nodes[n].state.current_term)
                &&& self.leader_of[self.cluster.nodes[n].state.current_term] == n
                &&& self.leader_logs[self.cluster.nodes[n].state.current_term]
                    == self.cluster.nodes[n].state.log
            }
    }

    /// Every entry of every node and of every leader is known.
    pub open spec fn entries_known(self) -> bool {
        &&& forall|n: int| 0 <= n < self.cluster.nodes.len() ==> #[trigger] self.node_known(n)
        &&& forall|term: u64| #[trigger]
            self.leader_logs.contains_key(term) ==> self.leader_known(term)
    }

    /// What holds of a replication at every moment.
    pub open spec fn consistent(self) -> bool {
        &&& self.cluster.consistent()
        &&& self.leaders_recorded()
        &&& self.leaders_hold_their_logs()
        &&& self.entries_known()
    }
}

/// A candidate that was elected stays elected: votes are not taken
/// back.
pub proof fn lemma_event_keeps_the_elected(cluster: Cluster, event: Event, term: u64, candidate: u64)
    requires
        cluster.possible(event),
        cluster.elected(term, candidate),
    ensures
        cluster.after(event).elected(term, candidate),
{
    let after = cluster.after(event);
    lemma_count_where_implied(
        cluster.nodes.len(),
        |v: int| cluster.voted(v, term, candidate),
        |v: int| after.voted(v, term, candidate),
    );
}

/// An event that makes a node the leader of a term finds no leader
/// recorded for that term.
pub proof fn lemma_elected_in_a_new_term(replication: Replication, event: Event)
    requires
        replication.consistent(),
        replication.possible(event),
        replication.elects(event),
    ensures
        !replication.leader_of.contains_key(replication.cluster.node_after(event).state.current_term),
{
    let cluster = replication.cluster;
    let after = cluster.after(event);
    let node = event.node();
    let term = cluster.node_after(event).state.current_term;
    lemma_event_keeps_consistency(cluster, event);
    lemma_event_keeps_the_node(cluster, event);
    if replication.leader_of.contains_key(term) {
        let leader = replication.leader_of[term];
        lemma_event_keeps_the_elected(cluster, event, term, cluster.nodes[leader].id);
        lemma_leaders_were_elected(after, node);
        lemma_one_elected_in_a_term(after, term, cluster.nodes[leader].id, after.nodes[node].id);
        assert(cluster.nodes[leader].id == cluster.nodes[node].id);
        assert(leader == node);
        assert(cluster.nodes[node].wf());
    }
}

/// An event leaves the leaders recorded, each with the log of its term.
pub proof fn lemma_event_keeps_the_leaders(replication: Replication, event: Event)
    requires
        replication.consistent(),
        replication.possible(event),
    ensures
        replication.after(event).leaders_recorded(),
        replication.after(event).leaders_hold_their_logs(),
{
    let cluster = replication.cluster;
    let after = replication.after(event);
    let node = event.node();
    let before_node = cluster.nodes[node];
    let after_node = cluster.node_after(event);
    lemma_event_keeps_consistency(cluster, event);
    lemma_event_keeps_the_node(cluster, event);
    assert(before_node.wf());
    assert(after.leader_logs.dom() =~= after.leader_of.dom());
    assert forall|term: u64| #[trigger] after.leader_of.contains_key(term) implies {
        let leader = after.leader_of[term];
        &&& 0 <= leader < after.cluster.nodes.len()
        &&& after.cluster.elected(term, after.cluster.nodes[leader].id)
        &&& after.cluster.nodes[leader].state.current_term >= term
        &&& after.cluster.nodes[leader].state.current_term == term
            ==> after.cluster.nodes[leader].role != NodeRole::Candidate
    } by {
        if after_node.role == NodeRole::Leader && term == after_node.state.current_term {
            lemma_leaders_were_elected(after.cluster, node);
        } else {
            assert(replication.leader_of.contains_key(term));
            let leader = replication.leader_of[term];
            lemma_event_keeps_the_elected(cluster, event, term, cluster.nodes[leader].id);
        }
    }
    assert forall|n: int|
        0 <= n < after.cluster.nodes.len() && (#[trigger] after.cluster.nodes[n]).role
            == NodeRole::Leader implies {
        &&& after.leader_of.contains_key(after.cluster.nodes[n].state.current_term)
        &&& after.leader_of[after.cluster.nodes[n].state.current_term] == n
        &&& after.leader_logs[after.cluster.nodes[n].state.current_term]
            == after.cluster.nodes[n].state.log
    } by {
        if n != node {
            assert(cluster.nodes[n].role == NodeRole::Leader);
            if after_node.role == NodeRole::Leader && after_node.state.current_term
                == cluster.nodes[n].state.current_term {
                crate::raft::cluster::lemma_one_leader_in_a_term(after.cluster, n, node);
            }
        }
    }
}

/// The logs of the leaders after an event: every log that was there is
/// still there, with every entry it had.
pub proof fn lemma_leader_logs_only_grow(replication: Replication, event: Event, term: u64)
    requires
        replication.consistent(),
        replication.possible(event),
        replication.leader_logs.contains_key(term),
    ensures
        replication.after(event).leader_logs.contains_key(term),
        same_up_to(
            replication.leader_logs[term],
            replication.after(event).leader_logs[term],
            replication.leader_logs[term].len() as int,
        ),
{
    let cluster = replication.cluster;
    let node = event.node();
    let before_node = cluster.nodes[node];
    let after_node = cluster.node_after(event);
    assert(before_node.wf());
    if after_node.role == NodeRole::Leader && after_node.state.current_term == term {
        if before_node.role == NodeRole::Leader {
            lemma_event_keeps_the_node(cluster, event);
            assert(replication.leader_logs[term] == before_node.state.log);
        } else {
            lemma_elected_in_a_new_term(replication, event);
        }
    }
}

/// An entry that is known stays known when the logs of the leaders grow
/// and the limit on its term does not fall.
pub proof fn lemma_known_stays_known(
    before: Replication,
    after: Replication,
    log: Seq<LogEntryView>,
    i: int,
    limit: u64,
    new_limit: u64,
)
    requires
        0 <= i < log.len(),
        before.known(log, i, limit),
        limit <= new_limit,
        after.leader_logs.contains_key(log[i].term),
        same_up_to(
            before.leader_logs[log[i].term],
            after.leader_logs[log[i].term],
            before.leader_logs[log[i].term].len() as int,
        ),
    ensures
        after.known(log, i, new_limit),
{
    let old_leader = before.leader_logs[log[i].term];
    let new_leader = after.leader_logs[log[i].term];
    assert forall|j: int| 0 <= j < i + 1 implies #[trigger] log[j] == new_leader[j] by {
        assert(log[j] == old_leader[j]);
        assert(old_leader[j] == new_leader[j]);
    }
}

/// A log whose last entries are known is known up to them, when it
/// shares all entries before with a log that is known.
pub proof fn lemma_known_by_prefix(
    replication: Replication,
    log: Seq<LogEntryView>,
    other: Seq<LogEntryView>,
    i: int,
    limit: u64,
    other_limit: u64,
)
    requires
        0 <= i < log.len(),
        same_up_to(log, other, i + 1),
        replication.known(other, i, other_limit),
        other_limit <= limit,
    ensures
        replication.known(log, i, limit),
{
    let leader = replication.leader_logs[other[i].term];
    assert(log[i] == other[i]);
    assert forall|j: int| 0 <= j < i + 1 implies #[trigger] log[j] == leader[j] by {
        assert(log[j] == other[j]);
        assert(other[j] == leader[j]);
    }
}

/// Two known logs with entries of one term at one position are the same
/// up to that position.
pub proof fn lemma_known_logs_match(
    replication: Replication,
    a: Seq<LogEntryView>,
    b: Seq<LogEntryView>,
    i: int,
    a_limit: u64,
    b_limit: u64,
)
    requires
        0 <= i < a.len(),
        i < b.len(),
        a[i].term == b[i].term,
        replication.known(a, i, a_limit),
        replication.known(b, i, b_limit),
    ensures
        same_up_to(a, b, i + 1),
{
    let leader = replication.leader_logs[a[i].term];
    assert forall|j: int| 0 <= j < i + 1 implies #[trigger] a[j] == b[j] by {
        assert(a[j] == leader[j]);
        assert(b[j] == leader[j]);
    }
}

/// The log that a node holds after it took genuine entries is known.
pub proof fn lemma_taken_entries_are_known(
    replication: Replication,
    node: RaftNodeView,
    request: AppendEntriesView,
    i: int,
)
    requires
        replication.genuine(request),
        replication.leader_known(request.term),
        node.wf(),
        forall|j: int|
            0 <= j < node.state.log.len() ==> #[trigger] replication.known(
                node.state.log,
                j,
                node.state.current_term,
            ),
        request.term >= node.state.current_term,
        append_entries_accepted(node.state, request),
        0 <= i < after_append_entries(node.state, request).log.len(),
    ensures
        replication.known(
            after_append_entries(node.state, request).log,
            i,
            after_append_entries(node.state, request).current_term,
        ),
{
    let log = node.state.log;
    let after = after_append_entries(node.state, request);
    let leader = replication.leader_logs[request.term];
    let prev = request.prev_log_index as int;
    let agree = agreeing_prefix(log, prev, request.entries) as int;
    lemma_agreeing_prefix(log, prev, request.entries);
    assert(after.log == merged_log(log, request.prev_log_index, request.entries));
    if agree == request.entries.len() || i < prev + agree {
        // The entry was there before.
        assert(after.log[i] == log[i]);
        assert(replication.known(log, i, node.state.current_term));
        assert forall|j: int| 0 <= j < i + 1 implies #[trigger] after.log[j] == log[j] by {}
        lemma_known_by_prefix(
            replication,
            after.log,
            log,
            i,
            after.current_term,
            node.state.current_term,
        );
    } else {
        // The entry is the leader's. Up to the last entry that agreed in
        // term, the log was the leader's already.
        let same = prev + agree;
        assert(same <= log.len() && same <= leader.len());
        if same > 0 {
            let last = same - 1;
            if agree > 0 {
                assert(log[prev + (agree - 1)].term == request.entries[agree - 1].term);
                assert(request.entries[agree - 1] == leader[last]);
            }
            assert(log[last].term == leader[last].term);
            assert(replication.known(log, last, node.state.current_term));
            assert(replication.known(leader, last, request.term));
            lemma_known_logs_match(
                replication,
                log,
                leader,
                last,
                node.state.current_term,
                request.term,
            );
        }
        assert forall|j: int| 0 <= j < i + 1 implies #[trigger] after.log[j] == leader[j] by {
            if j < same {
                assert(after.log[j] == log[j]);
                assert(log[j] == leader[j]);
            } else {
                assert(after.log[j] == request.entries[j - prev]);
                assert(request.entries[j - prev] == leader[j]);
            }
        }
        assert(replication.known(leader, i, request.term));
        lemma_known_by_prefix(replication, after.log, leader, i, after.current_term, request.term);
    }
}

/// An event leaves every entry of every leader known.
pub proof fn lemma_event_keeps_leader_entries_known(
    replication: Replication,
    event: Event,
    term: u64,
)
    requires
        replication.consistent(),
        replication.possible(event),
        replication.after(event).leader_logs.contains_key(term),
    ensures
        replication.after(event).leader_known(term),
{
    let cluster = replication.cluster;
    let after = replication.after(event);
    let node = event.node();
    let before_node = cluster.nodes[node];
    let after_node = cluster.node_after(event);
    let log = after.leader_logs[term];
    assert(before_node.wf());
    assert(replication.node_known(node));
    lemma_event_keeps_the_node(cluster, event);
    assert forall|i: int| 0 <= i < log.len() implies #[trigger] after.known(log, i, term) by {
        if after_node.role == NodeRole::Leader && term == after_node.state.current_term {
            // The log is the one of the node that the event happened to.
            if i < before_node.state.log.len() && before_node.state.log[i] == log[i] && same_up_to(
                before_node.state.log,
                log,
                i + 1,
            ) {
                assert(replication.known(
                    before_node.state.log,
                    i,
                    before_node.state.current_term,
                ));
                if log[i].term == term {
                    assert forall|j: int| 0 <= j < i + 1 implies #[trigger] log[j]
                        == after.leader_logs[term][j] by {}
                } else {
                    lemma_leader_logs_only_grow(replication, event, log[i].term);
                    lemma_known_stays_known(
                        replication,
                        after,
                        before_node.state.log,
                        i,
                        before_node.state.current_term,
                        term,
                    );
                    lemma_known_by_prefix(after, log, before_node.state.log, i, term, term);
                }
            } else {
                // The entry is the one that the leader has just appended.
                assert(log[i].term == term);
            }
        } else {
            assert(replication.leader_logs.contains_key(term));
            assert(replication.leader_known(term));
            assert(replication.known(log, i, term));
            lemma_leader_logs_only_grow(replication, event, log[i].term);
            lemma_known_stays_known(replication, after, log, i, term, term);
        }
    }
}

/// An event leaves every entry of every node known.
pub proof fn lemma_event_keeps_node_entries_known(replication: Replication, event: Event, n: int)
    requires
        replication.consistent(),
        replication.possible(event),
        0 <= n < replication.cluster.nodes.len(),
    ensures
        replication.after(event).node_known(n),
{
    let cluster = replication.cluster;
    let after = replication.after(event);
    let node = event.node();
    let before_node = cluster.nodes[node];
    let after_node = cluster.node_after(event);
    assert(before_node.wf());
    assert(replication.node_known(node));
    assert(replication.node_known(n));
    lemma_event_keeps_the_node(cluster, event);
    let log = after.cluster.nodes[n].state.log;
    let limit = after.cluster.nodes[n].state.current_term;
    assert forall|i: int| 0 <= i < log.len() implies #[trigger] after.known(log, i, limit) by {
        if n != node {
            assert(replication.known(log, i, limit));
            lemma_leader_logs_only_grow(replication, event, log[i].term);
            lemma_known_stays_known(replication, after, log, i, limit, limit);
        } else {
            match event {
                Event::EntriesSent { request, .. } => {
                    if request.term >= before_node.state.current_term
                        && !before_node.refuses_as_leader(request) && append_entries_accepted(
                        before_node.state,
                        request,
                    ) {
                        assert(replication.leader_known(request.term));
                        lemma_taken_entries_are_known(replication, before_node, request, i);
                        assert(after == Replication { cluster: after.cluster, ..replication });
                    } else {
                        assert(log == before_node.state.log);
                        assert(replication.known(log, i, before_node.state.current_term));
                        lemma_leader_logs_only_grow(replication, event, log[i].term);
                        lemma_known_stays_known(
                            replication,
                            after,
                            log,
                            i,
                            before_node.state.current_term,
                            limit,
                        );
                    }
                },
                Event::Proposed { command, .. } => {
                    if before_node.role == NodeRole::Leader {
                        lemma_event_keeps_leader_entries_known(replication, event, limit);
                        assert(after.leader_logs[limit] == log);
                        assert(after.known(log, i, limit));
                    } else {
                        assert(replication.known(log, i, before_node.state.current_term));
                        lemma_leader_logs_only_grow(replication, event, log[i].term);
                        lemma_known_stays_known(
                            replication,
                            after,
                            log,
                            i,
                            before_node.state.current_term,
                            limit,
                        );
                    }
                },
                _ => {
                    assert(log == before_node.state.log);
                    assert(replication.known(log, i, before_node.state.current_term));
                    lemma_leader_logs_only_grow(replication, event, log[i].term);
                    lemma_known_stays_known(
                        replication,
                        after,
                        log,
                        i,
                        before_node.state.current_term,
                        limit,
                    );
                },
            }
        }
    }
}

/// What holds of a replication holds after every event that can happen.
pub proof fn lemma_event_keeps_replication(replication: Replication, event: Event)
    requires
        replication.consistent(),
        replication.possible(event),
    ensures
        replication.after(event).consistent(),
{
    let after = replication.after(event);
    lemma_event_keeps_consistency(replication.cluster, event);
    lemma_event_keeps_the_leaders(replication, event);
    assert forall|n: int| 0 <= n < after.cluster.nodes.len() implies #[trigger] after.node_known(
        n,
    ) by {
        lemma_event_keeps_node_entries_known(replication, event, n);
    }
    assert forall|term: u64| #[trigger]
        after.leader_logs.contains_key(term) implies after.leader_known(term) by {
        lemma_event_keeps_leader_entries_known(replication, event, term);
    }
}

/// A cluster of nodes that have seen nothing yet is a consistent
/// replication.
pub proof fn lemma_initial_replication_is_consistent(replication: Replication)
    requires
        replication.initial(),
    ensures
        replication.consistent(),
{
    let cluster = replication.cluster;
    lemma_initial_cluster_is_consistent(cluster);
    assert forall|n: int| 0 <= n < cluster.nodes.len() implies (#[trigger] cluster.nodes[n]).role
        == NodeRole::Follower && cluster.nodes[n].state.log.len() == 0 by {
        let draw = choose|draw: u64|
            cluster.nodes[n] == initial_node(cluster.nodes[n].id, cluster.nodes[n].peers, draw);
    }
    assert forall|n: int| 0 <= n < cluster.nodes.len() implies #[trigger] replication.node_known(
        n,
    ) by {
        assert(cluster.nodes[n].state.log.len() == 0);
    }
}

/// What holds of a replication at the start holds after any run of
/// events.
pub proof fn lemma_run_keeps_replication(replication: Replication, events: Seq<Event>)
    requires
        replication.consistent(),
        replication.all_possible(events),
    ensures
        replication.after_all(events).consistent(),
    decreases events.len(),
{
    if events.len() > 0 {
        lemma_run_keeps_replication(replication, events.drop_last());
        lemma_event_keeps_replication(replication.after_all(events.drop_last()), events.last());
    }
}

/// The logs of a consistent replication match: two nodes that hold
/// entries of one term at one index hold the same entries up to that
/// index.
pub proof fn lemma_logs_match(replication: Replication, a: int, b: int, index: int)
    requires
        replication.consistent(),
        0 <= a < replication.cluster.nodes.len(),
        0 <= b < replication.cluster.nodes.len(),
        1 <= index <= replication.cluster.nodes[a].state.log.len(),
        index <= replication.cluster.nodes[b].state.log.len(),
        replication.cluster.nodes[a].state.log[index - 1].term
            == replication.cluster.nodes[b].state.log[index - 1].term,
    ensures
        replication.cluster.nodes[a].state.log.subrange(0, index)
            == replication.cluster.nodes[b].state.log.subrange(0, index),
{
    let log_a = replication.cluster.nodes[a].state.log;
    let log_b = replication.cluster.nodes[b].state.log;
    assert(replication.node_known(a));
    assert(replication.node_known(b));
    assert(replication.known(log_a, index - 1, replication.cluster.nodes[a].state.current_term));
    assert(replication.known(log_b, index - 1, replication.cluster.nodes[b].state.current_term));
    lemma_known_logs_match(
        replication,
        log_a,
        log_b,
        index - 1,
        replication.cluster.nodes[a].state.current_term,
        replication.cluster.nodes[b].state.current_term,
    );
    assert(log_a.subrange(0, index) =~= log_b.subrange(0, index));
}

/// However the events of a cluster run, from nodes that have seen
/// nothing yet, the logs match: two nodes that hold entries of one term
/// at one index hold the same entries up to that index.
pub proof fn lemma_log_matching(
    start: Replication,
    events: Seq<Event>,
    a: int,
    b: int,
    index: int,
)
    requires
        start.initial(),
        start.all_possible(events),
        0 <= a < start.after_all(events).cluster.nodes.len(),
        0 <= b < start.after_all(events).cluster.nodes.len(),
        1 <= index <= start.after_all(events).cluster.nodes[a].state.log.len(),
        index <= start.after_all(events).cluster.nodes[b].state.log.len(),
        start.after_all(events).cluster.nodes[a].state.log[index - 1].term == start.after_all(
            events,
        ).cluster.nodes[b].state.log[index - 1].term,
    ensures
        start.after_all(events).cluster.nodes[a].state.log.subrange(0, index) == start.after_all(
            events,
        ).cluster.nodes[b].state.log.subrange(0, index),
{
    lemma_initial_replication_is_consistent(start);
    lemma_run_keeps_replication(start, events);
    lemma_logs_match(start.after_all(events), a, b, index);
}

} // verus!
