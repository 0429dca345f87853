//! What a cluster has committed, and the proof that it stays: an entry
//! that is committed stands in the log of every later leader, and no two
//! nodes apply different entries at one index.
//!
//! The model adds to the replication what the proof owes to the past:
//! which entries each node has taken from which leader, the log of each
//! candidate when it stood for election, the log of each voter when it
//! voted, and the commitment that stands behind each commit index.

use crate::raft::cluster::{
    Event,
    count_where,
    lemma_count_where_implied,
    lemma_event_keeps_the_node,
    lemma_leaders_were_elected,
    lemma_majorities_meet,
    lemma_supporters_counted,
    peer_node,
    supports,
};
use crate::raft::node::{NodeRole, RaftNodeView, count_at_least, count_true};
use crate::raft::replication::{
    Replication,
    lemma_elected_in_a_new_term,
    lemma_event_keeps_replication,
    lemma_known_stays_known,
    lemma_leader_logs_only_grow,
    same_up_to,
};
use crate::raft::rpc::AppendEntriesView;
use crate::raft::state::{
    LogEntryView,
    after_append_entries,
    agreeing_prefix,
    append_entries_accepted,
    lemma_agreeing_prefix,
    lemma_append_entries_keeps_the_past,
};
use vstd::prelude::*;

verus! {

/// A node holds the entry of an index as the leader of a term wrote it.
pub struct Ack {
    /// The position of the node in the cluster.
    pub node: int,
    pub term: u64,
    pub index: int,
}

/// A commitment: the entries up to `index` of the leader of `term`.
pub struct Backing {
    pub term: u64,
    pub index: int,
}

/// A vote with the log that the voter had when it cast it.
pub struct VoteCast {
    /// The id of the candidate.
    pub candidate: u64,
    pub log: Seq<LogEntryView>,
}

/// A replication with its past.
pub struct History {
    pub replication: Replication,
    /// What each node has taken from each leader, and what each leader
    /// has written itself.
    pub stored: Set<Ack>,
    /// By term and candidate id: the log of the candidate when it stood.
    pub candidate_logs: Map<(u64, u64), Seq<LogEntryView>>,
    /// By voter and term: the vote, as it was cast before the term had a
    /// leader.
    pub vote_logs: Map<(int, u64), VoteCast>,
    /// For each node: the commitment behind its commit index.
    pub backing: Seq<Backing>,
    /// By term and commit index: the commitment behind the commit index
    /// that the leader of the term had.
    pub announced: Map<(u64, u64), Backing>,
}

/// The term of the last entry of a log, or 0 for an empty log.
pub open spec fn last_term(log: Seq<LogEntryView>) -> u64 {
    if log.len() == 0 {
        0
    } else {
        log.last().term
    }
}

/// The first log is at least as up to date as the second.
pub open spec fn up_to_date(first: Seq<LogEntryView>, second: Seq<LogEntryView>) -> bool {
    last_term(first) > last_term(second) || (last_term(first) == last_term(second) && first.len()
        >= second.len())
}

impl History {
    pub open spec fn nodes(self) -> Seq<RaftNodeView> {
        self.replication.cluster.nodes
    }

    /// The term had a leader.
    pub open spec fn has_leader(self, term: u64) -> bool {
        self.replication.leader_logs.contains_key(term)
    }

    /// The log of the leader of the term.
    pub open spec fn leader_log(self, term: u64) -> Seq<LogEntryView> {
        self.replication.leader_logs[term]
    }

    /// The node at position `node` holds the entry of index `index` as
    /// the leader of `term` wrote it.
    pub open spec fn stored_at(self, node: int, term: u64, index: int) -> bool {
        self.stored.contains(Ack { node, term, index })
    }

    /// The entries up to `index` of the leader of `term` are committed:
    /// the entry at `index` is of that term, and a strict majority of the
    /// cluster holds it as the leader wrote it.
    pub open spec fn committed(self, term: u64, index: int) -> bool {
        &&& self.has_leader(term)
        &&& 1 <= index <= self.leader_log(term).len()
        &&& self.leader_log(term)[index - 1].term == term
        &&& 2 * count_where(self.nodes().len(), |v: int| self.stored_at(v, term, index))
            > self.nodes().len()
    }

    /// The leader of `later` does not hold the first `index` entries of
    /// the leader of `term`.
    pub open spec fn differs(self, term: u64, index: int, later: u64) -> bool {
        &&& self.has_leader(later)
        &&& term < later
        &&& !same_up_to(self.leader_log(term), self.leader_log(later), index)
    }

    /// Some leader of a term behind `term` and up to `limit` does not
    /// hold the first `index` entries of the leader of `term`.
    pub open spec fn diverged(self, term: u64, index: int, limit: int) -> bool {
        exists|later: u64| later <= limit && #[trigger] self.differs(term, index, later)
    }

    /// The event makes its node take the entries of a request.
    pub open spec fn takes(self, event: Event) -> bool {
        event matches Event::EntriesSent { node, request } && {
            &&& request.term >= self.nodes()[node].state.current_term
            &&& !self.nodes()[node].refuses_as_leader(request)
            &&& append_entries_accepted(self.nodes()[node].state, request)
        }
    }

    /// The event can happen: it can happen in the replication; a vote
    /// request is one that its candidate sent; the commit index of a
    /// request is one that the leader of its term had; an answer that
    /// reports success repeats what the peer did take; and a node that
    /// starts again brings no more as applied than it had committed.
    pub open spec fn possible(self, event: Event) -> bool {
        &&& self.replication.possible(event)
        &&& match event {
            Event::VoteRequested { vote_request, .. } => {
                &&& self.candidate_logs.contains_key(
                    (vote_request.term, vote_request.candidate_id),
                )
                &&& vote_request.last_log_index == self.candidate_logs[(
                    vote_request.term,
                    vote_request.candidate_id,
                )].len()
                &&& vote_request.last_log_term == last_term(
                    self.candidate_logs[(vote_request.term, vote_request.candidate_id)],
                )
            },
            Event::EntriesSent { request, .. } => request.leader_commit > 0
                ==> self.announced.contains_key((request.term, request.leader_commit)),
            Event::EntriesAnswered { node, peer, prev_log_index, sent, response, .. } => {
                response.success && prev_log_index + sent >= 1 ==> self.stored_at(
                    peer_node(node, peer),
                    response.term,
                    prev_log_index + sent,
                )
            },
            Event::Restarted { node, applied, .. } => applied
                <= self.nodes()[node].state.commit_index,
            _ => true,
        }
    }

    /// What is stored after the event: a node that takes the entries of
    /// a request holds them as the leader of the request's term wrote
    /// them, and a leader holds its own log.
    pub open spec fn stored_after(self, event: Event) -> Set<Ack> {
        let node = self.replication.cluster.node_after(event);
        Set::new(
            |ack: Ack|
                {
                    ||| self.stored.contains(ack)
                    ||| {
                        &&& self.takes(event)
                        &&& event matches Event::EntriesSent { request, .. }
                        &&& ack.node == event.node()
                        &&& ack.term == request.term
                        &&& 1 <= ack.index <= request.prev_log_index + request.entries.len()
                    }
                    ||| {
                        &&& node.role == NodeRole::Leader
                        &&& ack.node == event.node()
                        &&& ack.term == node.state.current_term
                        &&& 1 <= ack.index <= node.state.log.len()
                    }
                },
        )
    }

    /// The event makes its node a candidate of a new term.
    pub open spec fn stands(self, event: Event) -> bool {
        match event {
            Event::Timeout { node, .. } => self.nodes()[node].timeout_starts_election(),
            Event::Stood { node, .. } => self.nodes()[node].state.current_term < u64::MAX,
            _ => false,
        }
    }

    /// The logs of the candidates after the event.
    pub open spec fn candidate_logs_after(self, event: Event) -> Map<(u64, u64), Seq<LogEntryView>> {
        let before = self.nodes()[event.node()];
        if self.stands(event) {
            self.candidate_logs.insert(
                ((before.state.current_term + 1) as u64, before.id),
                before.state.log,
            )
        } else {
            self.candidate_logs
        }
    }

    /// The votes with their logs after the event: a candidate votes for
    /// itself, and a vote that is granted before its term has a leader is
    /// kept with the voter's log.
    pub open spec fn vote_logs_after(self, event: Event) -> Map<(int, u64), VoteCast> {
        let before = self.nodes()[event.node()];
        if self.stands(event) {
            self.vote_logs.insert(
                (event.node(), (before.state.current_term + 1) as u64),
                VoteCast { candidate: before.id, log: before.state.log },
            )
        } else {
            match event {
                Event::VoteRequested { node, vote_request } => if crate::raft::rpc::vote_granted(
                    before.state,
                    vote_request,
                ) && !self.has_leader(vote_request.term) {
                    self.vote_logs.insert(
                        (node, vote_request.term),
                        VoteCast { candidate: vote_request.candidate_id, log: before.state.log },
                    )
                } else {
                    self.vote_logs
                },
                _ => self.vote_logs,
            }
        }
    }

    /// The commitment behind the commit index of the event's node after
    /// the event: that of the commit index that a request brought, or the
    /// one that a leader reached by the commit rule; else the one that
    /// was there.
    pub open spec fn backing_after(self, event: Event) -> Backing {
        let before = self.nodes()[event.node()];
        let after = self.replication.cluster.node_after(event);
        if after.state.commit_index <= before.state.commit_index {
            self.backing[event.node()]
        } else {
            match event {
                Event::EntriesSent { request, .. } => self.announced[(
                    request.term,
                    request.leader_commit,
                )],
                _ => Backing {
                    term: after.state.current_term,
                    index: after.state.commit_index as int,
                },
            }
        }
    }

    /// The commitments behind the commit indices of the leaders after
    /// the event.
    pub open spec fn announced_after(self, event: Event) -> Map<(u64, u64), Backing> {
        let after = self.replication.cluster.node_after(event);
        if after.role == NodeRole::Leader && after.state.commit_index > 0 {
            self.announced.insert(
                (after.state.current_term, after.state.commit_index),
                self.backing_after(event),
            )
        } else {
            self.announced
        }
    }

    /// The history after the event.
    pub open spec fn after(self, event: Event) -> History {
        History {
            replication: self.replication.after(event),
            stored: self.stored_after(event),
            candidate_logs: self.candidate_logs_after(event),
            vote_logs: self.vote_logs_after(event),
            backing: self.backing.update(event.node(), self.backing_after(event)),
            announced: self.announced_after(event),
        }
    }

    /// The history after the events, first to last.
    pub open spec fn after_all(self, events: Seq<Event>) -> History
        decreases events.len(),
    {
        if events.len() == 0 {
            self
        } else {
            self.after_all(events.drop_last()).after(events.last())
        }
    }

    /// Each event can happen when its turn comes.
    pub open spec fn all_possible(self, events: Seq<Event>) -> bool
        decreases events.len(),
    {
        events.len() > 0 ==> self.all_possible(events.drop_last()) && self.after_all(
            events.drop_last(),
        ).possible(events.last())
    }

    /// A cluster of nodes that have seen nothing yet, without a past.
    pub open spec fn initial(self) -> bool {
        &&& self.replication.initial()
        &&& self.stored == Set::<Ack>::empty()
        &&& self.candidate_logs == Map::<(u64, u64), Seq<LogEntryView>>::empty()
        &&& self.vote_logs == Map::<(int, u64), VoteCast>::empty()
        &&& self.backing.len() == self.nodes().len()
        &&& self.announced == Map::<(u64, u64), Backing>::empty()
    }
}

/// Every entry of the log is known, with terms up to `limit`.
pub open spec fn log_known(replication: Replication, log: Seq<LogEntryView>, limit: u64) -> bool {
    forall|i: int| 0 <= i < log.len() ==> #[trigger] replication.known(log, i, limit)
}

impl History {
    /// The id of the leader of the term.
    pub open spec fn leader_id(self, term: u64) -> u64 {
        self.nodes()[self.replication.leader_of[term]].id
    }

    /// What is stored is stored on a node of the cluster, in a term that
    /// the node has reached, and is an entry of the leader of that term.
    pub open spec fn acks_in_range(self) -> bool {
        forall|v: int, term: u64, index: int| #[trigger]
            self.stored_at(v, term, index) ==> {
                &&& 0 <= v < self.nodes().len()
                &&& self.has_leader(term)
                &&& 1 <= index <= self.leader_log(term).len()
                &&& self.nodes()[v].state.current_term >= term
            }
    }

    /// A node that holds an entry as a leader wrote it holds every entry
    /// before it so.
    pub open spec fn acks_reach_down(self) -> bool {
        forall|v: int, term: u64, index: int, lower: int|
            #![trigger self.stored_at(v, term, index), self.stored_at(v, term, lower)]
            self.stored_at(v, term, index) && 1 <= lower <= index ==> self.stored_at(
                v,
                term,
                lower,
            )
    }

    /// The node at position `v` still holds the first `index` entries of
    /// the leader of `term`, unless a later leader that it has heard of
    /// did not hold them.
    pub open spec fn holds(self, v: int, term: u64, index: int) -> bool {
        same_up_to(self.leader_log(term), self.nodes()[v].state.log, index) || self.diverged(
            term,
            index,
            self.nodes()[v].state.current_term as int,
        )
    }

    /// Every node holds what it has stored, in the sense of `holds`.
    pub open spec fn acks_hold(self) -> bool {
        forall|v: int, term: u64, index: int| #[trigger]
            self.stored_at(v, term, index) ==> self.holds(v, term, index)
    }

    /// A vote for which the term has no leader yet is kept with its log.
    pub open spec fn votes_logged(self) -> bool {
        forall|v: int, term: u64, candidate: u64| #[trigger]
            self.replication.cluster.voted(v, term, candidate) && !self.has_leader(term)
                ==> self.vote_logs.contains_key((v, term))
    }

    /// A vote that is kept was granted; its candidate stood with a log
    /// that was at least as up to date as the voter's; and the voter's
    /// log was known.
    pub open spec fn vote_logs_sound(self) -> bool {
        forall|v: int, upper: u64| #[trigger]
            self.vote_logs.contains_key((v, upper)) ==> {
                let cast = self.vote_logs[(v, upper)];
                &&& 0 <= v < self.nodes().len()
                &&& self.nodes()[v].state.current_term >= upper
                &&& self.replication.cluster.voted(v, upper, cast.candidate)
                &&& self.candidate_logs.contains_key((upper, cast.candidate))
                &&& up_to_date(self.candidate_logs[(upper, cast.candidate)], cast.log)
                &&& log_known(self.replication, cast.log, upper)
            }
    }

    /// When the voter at position `v` voted in term `upper`, it held the
    /// first `index` entries of the leader of `term`, unless a leader
    /// between the two terms did not hold them.
    pub open spec fn vote_holds(self, v: int, upper: u64, term: u64, index: int) -> bool {
        same_up_to(self.leader_log(term), self.vote_logs[(v, upper)].log, index) || self.diverged(
            term,
            index,
            upper - 1,
        )
    }

    /// Every voter held, when it voted, what it had stored before, in
    /// the sense of `vote_holds`.
    pub open spec fn votes_hold(self) -> bool {
        forall|v: int, upper: u64, term: u64, index: int|
            #![trigger self.vote_logs.contains_key((v, upper)), self.stored_at(v, term, index)]
            self.vote_logs.contains_key((v, upper)) && self.stored_at(v, term, index) && term
                < upper ==> self.vote_holds(v, upper, term, index)
    }

    /// The log of a candidate was known when it stood, with terms before
    /// the term of the election; and the candidate has reached that term.
    pub open spec fn candidate_logs_sound(self) -> bool {
        &&& forall|term: u64, candidate: u64| #[trigger]
            self.candidate_logs.contains_key((term, candidate)) ==> term >= 1 && log_known(
                self.replication,
                self.candidate_logs[(term, candidate)],
                (term - 1) as u64,
            )
        &&& forall|n: int, term: u64|
            0 <= n < self.nodes().len() && #[trigger] self.candidate_logs.contains_key(
                (term, self.nodes()[n].id),
            ) ==> self.nodes()[n].state.current_term >= term
    }

    /// A candidate has the log with which it stood.
    pub open spec fn candidates_keep_their_logs(self) -> bool {
        forall|n: int|
            0 <= n < self.nodes().len() && (#[trigger] self.nodes()[n]).role
                == NodeRole::Candidate ==> {
                &&& self.candidate_logs.contains_key(
                    (self.nodes()[n].state.current_term, self.nodes()[n].id),
                )
                &&& self.candidate_logs[(self.nodes()[n].state.current_term, self.nodes()[n].id)]
                    == self.nodes()[n].state.log
            }
    }

    /// The log of a leader begins with the log with which it stood.
    pub open spec fn leaders_began_as_candidates(self) -> bool {
        forall|term: u64| #[trigger]
            self.has_leader(term) ==> {
                &&& self.candidate_logs.contains_key((term, self.leader_id(term)))
                &&& same_up_to(
                    self.candidate_logs[(term, self.leader_id(term))],
                    self.leader_log(term),
                    self.candidate_logs[(term, self.leader_id(term))].len() as int,
                )
            }
    }

    /// The vote of the voter at position `v` in `term` is kept, and went
    /// to `candidate`.
    pub open spec fn early_vote(self, v: int, term: u64, candidate: u64) -> bool {
        self.vote_logs.contains_key((v, term)) && self.vote_logs[(v, term)].candidate
            == candidate
    }

    /// A strict majority of the cluster voted for each leader before its
    /// term had a leader.
    pub open spec fn leaders_elected_early(self) -> bool {
        forall|term: u64| #[trigger]
            self.has_leader(term) ==> 2 * count_where(
                self.nodes().len(),
                |v: int| self.early_vote(v, term, self.leader_id(term)),
            ) > self.nodes().len()
    }

    /// A leader knows of a peer only what the peer has stored, and has
    /// stored its own log.
    pub open spec fn leaders_count_what_is_stored(self) -> bool {
        &&& forall|n: int, p: int|
            0 <= n < self.nodes().len() && self.nodes()[n].role == NodeRole::Leader && 0 <= p
                < self.nodes()[n].match_index.len() && #[trigger] self.nodes()[n].match_index[p]
                >= 1 ==> self.stored_at(
                peer_node(n, p),
                self.nodes()[n].state.current_term,
                self.nodes()[n].match_index[p] as int,
            )
        &&& forall|n: int, index: int|
            0 <= n < self.nodes().len() && self.nodes()[n].role == NodeRole::Leader && 1 <= index
                <= self.nodes()[n].state.log.len() ==> #[trigger] self.stored_at(
                n,
                self.nodes()[n].state.current_term,
                index,
            )
    }

    /// A commit index stands on a commitment: the log up to the commit
    /// index is the log of the commitment's leader, and the commitment
    /// reaches at least as far.
    pub open spec fn backed(self, log: Seq<LogEntryView>, commit: int, backing: Backing) -> bool {
        commit > 0 ==> {
            &&& self.committed(backing.term, backing.index)
            &&& commit <= backing.index
            &&& same_up_to(log, self.leader_log(backing.term), commit)
        }
    }

    /// The commit index of every node stands on a commitment.
    pub open spec fn commits_backed(self) -> bool {
        &&& self.backing.len() == self.nodes().len()
        &&& forall|n: int|
            0 <= n < self.nodes().len() ==> #[trigger] self.backed(
                self.nodes()[n].state.log,
                self.nodes()[n].state.commit_index as int,
                self.backing[n],
            )
    }

    /// Every commit index that a leader had stands on a commitment.
    pub open spec fn announcements_backed(self) -> bool {
        forall|term: u64, commit: u64| #[trigger]
            self.announced.contains_key((term, commit)) ==> self.has_leader(term) && self.backed(
                self.leader_log(term),
                commit as int,
                self.announced[(term, commit)],
            )
    }

    /// What holds of a history at every moment.
    pub open spec fn consistent(self) -> bool {
        &&& self.replication.consistent()
        &&& self.acks_in_range()
        &&& self.acks_reach_down()
        &&& self.acks_hold()
        &&& self.votes_logged()
        &&& self.vote_logs_sound()
        &&& self.votes_hold()
        &&& self.candidate_logs_sound()
        &&& self.candidates_keep_their_logs()
        &&& self.leaders_began_as_candidates()
        &&& self.leaders_elected_early()
        &&& self.leaders_count_what_is_stored()
        &&& self.commits_backed()
        &&& self.announcements_backed()
    }
}

/// In a known log the terms do not fall.
pub proof fn lemma_known_terms_rise(
    replication: Replication,
    log: Seq<LogEntryView>,
    limit: u64,
    i: int,
    j: int,
)
    requires
        replication.entries_known(),
        log_known(replication, log, limit),
        0 <= i <= j < log.len(),
    ensures
        log[i].term <= log[j].term,
{
    assert(replication.known(log, j, limit));
    let term = log[j].term;
    let leader = replication.leader_logs[term];
    assert(replication.leader_known(term));
    assert(log[i] == leader[i]);
    assert(replication.known(leader, i, term));
}

/// A known log is the log of the leader of its last term, as far as it
/// goes.
pub proof fn lemma_known_log_is_its_leaders(
    replication: Replication,
    log: Seq<LogEntryView>,
    limit: u64,
)
    requires
        log_known(replication, log, limit),
        log.len() > 0,
    ensures
        replication.leader_logs.contains_key(last_term(log)),
        last_term(log) <= limit,
        same_up_to(log, replication.leader_logs[last_term(log)], log.len() as int),
{
    assert(replication.known(log, log.len() - 1, limit));
}

/// A log that is at least as up to date as one that holds the first
/// `index` entries of the leader of `term`, the last of them of that
/// term, holds them too, if every leader between `term` and the limit of
/// the log's terms holds them.
pub proof fn lemma_up_to_date_log_holds_entries(
    history: History,
    candidate: Seq<LogEntryView>,
    limit: u64,
    voter: Seq<LogEntryView>,
    voter_limit: u64,
    term: u64,
    index: int,
)
    requires
        history.replication.entries_known(),
        log_known(history.replication, candidate, limit),
        log_known(history.replication, voter, voter_limit),
        up_to_date(candidate, voter),
        history.has_leader(term),
        1 <= index <= history.leader_log(term).len(),
        history.leader_log(term)[index - 1].term == term,
        same_up_to(history.leader_log(term), voter, index),
        forall|between: u64|
            term < between <= limit && #[trigger] history.has_leader(between) ==> same_up_to(
                history.leader_log(term),
                history.leader_log(between),
                index,
            ),
    ensures
        same_up_to(history.leader_log(term), candidate, index),
{
    let replication = history.replication;
    let log = history.leader_log(term);
    // The voter's last term is at least `term`.
    assert(voter[index - 1] == log[index - 1]);
    lemma_known_terms_rise(replication, voter, voter_limit, index - 1, voter.len() - 1);
    assert(last_term(voter) >= term);
    assert(candidate.len() > 0);
    lemma_known_log_is_its_leaders(replication, candidate, limit);
    lemma_known_log_is_its_leaders(replication, voter, voter_limit);
    let last = last_term(candidate);
    let leader = replication.leader_logs[last];
    if last == last_term(voter) {
        // Both logs are the log of one leader, the candidate's no shorter.
        assert forall|j: int| 0 <= j < index implies #[trigger] log[j] == candidate[j] by {
            assert(log[j] == voter[j]);
            assert(voter[j] == leader[j]);
            assert(candidate[j] == leader[j]);
        }
    } else if last == term {
        assert(false);
    } else {
        // The candidate's log is the log of a later leader, which holds
        // the entries and whose last entry lies behind them.
        assert(term < last <= limit);
        assert(history.has_leader(last));
        assert(same_up_to(log, leader, index));
        assert(replication.leader_known(last));
        if candidate.len() < index {
            let end = candidate.len() - 1;
            assert(candidate[end] == leader[end]);
            assert(leader[index - 1] == log[index - 1]);
            assert(log_known(replication, leader, last));
            lemma_known_terms_rise(replication, leader, last, end, index - 1);
            assert(false);
        }
        assert forall|j: int| 0 <= j < index implies #[trigger] log[j] == candidate[j] by {
            assert(log[j] == leader[j]);
            assert(candidate[j] == leader[j]);
        }
    }
}

/// Leader completeness: the entries that are committed in a term stand
/// in the log of the leader of every later term.
pub proof fn lemma_leader_completeness(history: History, term: u64, index: int, later: u64)
    requires
        history.consistent(),
        history.committed(term, index),
        term < later,
        history.has_leader(later),
    ensures
        same_up_to(history.leader_log(term), history.leader_log(later), index),
    decreases later,
{
    let n = history.nodes().len();
    let candidate = history.leader_id(later);
    let storing = |v: int| history.stored_at(v, term, index);
    let voting = |v: int| history.early_vote(v, later, candidate);
    assert(history.leaders_elected_early());
    lemma_majorities_meet(n, storing, voting);
    let v = choose|v: int| 0 <= v < n && #[trigger] storing(v) && voting(v);
    assert(history.stored_at(v, term, index));
    assert(history.vote_logs.contains_key((v, later)));
    let cast = history.vote_logs[(v, later)];
    let stood = history.candidate_logs[(later, candidate)];
    assert(history.vote_holds(v, later, term, index));
    if history.diverged(term, index, later - 1) {
        let between = choose|between: u64|
            between <= later - 1 && #[trigger] history.differs(term, index, between);
        lemma_leader_completeness(history, term, index, between);
        assert(false);
    }
    assert forall|between: u64|
        term < between <= (later - 1) as u64 && #[trigger] history.has_leader(
            between,
        ) implies same_up_to(
        history.leader_log(term),
        history.leader_log(between),
        index,
    ) by {
        lemma_leader_completeness(history, term, index, between);
    }
    assert(history.candidate_logs.contains_key((later, candidate)));
    lemma_up_to_date_log_holds_entries(
        history,
        stood,
        (later - 1) as u64,
        cast.log,
        later,
        term,
        index,
    );
    assert(history.has_leader(later));
    assert forall|j: int| 0 <= j < index implies #[trigger] history.leader_log(term)[j]
        == history.leader_log(later)[j] by {
        assert(history.leader_log(term)[j] == stood[j]);
        assert(stood[j] == history.leader_log(later)[j]);
    }
}

/// An entry that is committed stands in the log of every leader of a
/// later term.
pub proof fn lemma_leaders_hold_what_is_committed(
    history: History,
    term: u64,
    index: int,
    leader: int,
)
    requires
        history.consistent(),
        history.committed(term, index),
        0 <= leader < history.nodes().len(),
        history.nodes()[leader].role == NodeRole::Leader,
        history.nodes()[leader].state.current_term > term,
    ensures
        history.nodes()[leader].state.log.len() >= index,
        history.nodes()[leader].state.log.subrange(0, index) == history.leader_log(term).subrange(
            0,
            index,
        ),
{
    let later = history.nodes()[leader].state.current_term;
    assert(history.replication.leaders_hold_their_logs());
    assert(history.has_leader(later));
    lemma_leader_completeness(history, term, index, later);
    assert(history.nodes()[leader].state.log.subrange(0, index) =~= history.leader_log(
        term,
    ).subrange(0, index));
}

/// Two nodes have the same entries up to the smaller of their commit
/// indices.
pub proof fn lemma_committed_entries_agree(history: History, a: int, b: int, index: int)
    requires
        history.consistent(),
        0 <= a < history.nodes().len(),
        0 <= b < history.nodes().len(),
        1 <= index <= history.nodes()[a].state.commit_index,
        index <= history.nodes()[b].state.commit_index,
    ensures
        history.nodes()[a].state.log[index - 1] == history.nodes()[b].state.log[index - 1],
{
    let first = history.backing[a];
    let second = history.backing[b];
    assert(history.backed(
        history.nodes()[a].state.log,
        history.nodes()[a].state.commit_index as int,
        first,
    ));
    assert(history.backed(
        history.nodes()[b].state.log,
        history.nodes()[b].state.commit_index as int,
        second,
    ));
    assert(history.nodes()[a].state.log[index - 1] == history.leader_log(first.term)[index - 1]);
    assert(history.nodes()[b].state.log[index - 1] == history.leader_log(second.term)[index - 1]);
    if first.term < second.term {
        lemma_leader_completeness(history, first.term, first.index, second.term);
        assert(history.leader_log(first.term)[index - 1] == history.leader_log(
            second.term,
        )[index - 1]);
    } else if second.term < first.term {
        lemma_leader_completeness(history, second.term, second.index, first.term);
        assert(history.leader_log(second.term)[index - 1] == history.leader_log(
            first.term,
        )[index - 1]);
    }
}

/// State machine safety: the entries that two nodes have applied are
/// the same, index by index.
pub proof fn lemma_applied_entries_agree(history: History, a: int, b: int, index: int)
    requires
        history.consistent(),
        0 <= a < history.nodes().len(),
        0 <= b < history.nodes().len(),
        1 <= index <= history.nodes()[a].state.last_applied,
        index <= history.nodes()[b].state.last_applied,
    ensures
        history.nodes()[a].state.log[index - 1] == history.nodes()[b].state.log[index - 1],
{
    assert(history.replication.cluster.configured());
    assert(history.nodes()[a].wf());
    assert(history.nodes()[b].wf());
    lemma_committed_entries_agree(history, a, b, index);
}

/// What an event leaves of the frame of a history: the replication
/// stays consistent, no node comes or goes, and of the event's node the
/// id, the peers and the well-formedness stay, and the term does not
/// fall.
pub proof fn lemma_event_keeps_the_frame(history: History, event: Event)
    requires
        history.consistent(),
        history.possible(event),
    ensures
        history.after(event).replication.consistent(),
        history.after(event).nodes().len() == history.nodes().len(),
        history.after(event).nodes()[event.node()] == history.replication.cluster.node_after(event),
        forall|n: int|
            0 <= n < history.nodes().len() && n != event.node() ==> #[trigger] history.after(
                event,
            ).nodes()[n] == history.nodes()[n],
        forall|n: int|
            0 <= n < history.nodes().len() ==> (#[trigger] history.after(event).nodes()[n]).id
                == history.nodes()[n].id && history.after(event).nodes()[n].state.current_term
                >= history.nodes()[n].state.current_term && history.nodes()[n].wf(),
{
    lemma_event_keeps_replication(history.replication, event);
    lemma_event_keeps_the_node(history.replication.cluster, event);
    assert forall|n: int| 0 <= n < history.nodes().len() implies history.nodes()[n].wf() by {
        assert(history.replication.cluster.configured());
    }
}

/// The log of a leader after an event is the log before, or the log
/// before with one more entry of the leader's term.
pub proof fn lemma_leader_log_grows_by_its_own(history: History, event: Event, term: u64)
    requires
        history.consistent(),
        history.possible(event),
        history.has_leader(term),
    ensures
        history.after(event).has_leader(term),
        history.after(event).leader_log(term) == history.leader_log(term) || (history.after(
            event,
        ).leader_log(term).len() == history.leader_log(term).len() + 1 && history.after(
            event,
        ).leader_log(term).last().term == term),
        same_up_to(
            history.leader_log(term),
            history.after(event).leader_log(term),
            history.leader_log(term).len() as int,
        ),
        history.after(event).replication.leader_of[term] == history.replication.leader_of[term],
{
    let replication = history.replication;
    let cluster = replication.cluster;
    let node = event.node();
    let before_node = cluster.nodes[node];
    let after_node = cluster.node_after(event);
    lemma_leader_logs_only_grow(replication, event, term);
    lemma_event_keeps_the_node(cluster, event);
    assert(before_node.wf());
    assert(replication.leaders_hold_their_logs());
    assert(replication.leaders_recorded());
    if after_node.role == NodeRole::Leader && after_node.state.current_term == term {
        if before_node.role == NodeRole::Leader {
            assert(replication.leader_logs[term] == before_node.state.log);
            assert(replication.leader_of[term] == node);
        } else {
            lemma_elected_in_a_new_term(replication, event);
        }
    }
}

/// A leader that does not hold the first entries of an earlier leader
/// will never hold them.
pub proof fn lemma_event_keeps_the_difference(
    history: History,
    event: Event,
    term: u64,
    index: int,
    later: u64,
)
    requires
        history.consistent(),
        history.possible(event),
        history.has_leader(term),
        1 <= index <= history.leader_log(term).len(),
        history.differs(term, index, later),
    ensures
        history.after(event).differs(term, index, later),
{
    let after = history.after(event);
    lemma_leader_log_grows_by_its_own(history, event, term);
    lemma_leader_log_grows_by_its_own(history, event, later);
    let first = history.leader_log(term);
    let second = history.leader_log(later);
    if same_up_to(after.leader_log(term), after.leader_log(later), index) {
        if index <= second.len() {
            assert forall|j: int| 0 <= j < index implies #[trigger] first[j] == second[j] by {
                assert(first[j] == after.leader_log(term)[j]);
                assert(second[j] == after.leader_log(later)[j]);
            }
            assert(false);
        } else {
            // The later log was too short, and has grown by an entry of
            // its own term, which the earlier log cannot hold.
            let end = second.len() as int;
            assert(after.leader_log(later)[end].term == later);
            assert(after.leader_log(term)[end] == first[end]);
            assert(history.replication.entries_known());
            assert(history.replication.leader_known(term));
            assert(history.replication.known(first, end, term));
            assert(false);
        }
    }
}

/// An event leaves a divergence a divergence.
pub proof fn lemma_event_keeps_the_divergence(
    history: History,
    event: Event,
    term: u64,
    index: int,
    limit: int,
    new_limit: int,
)
    requires
        history.consistent(),
        history.possible(event),
        history.has_leader(term),
        1 <= index <= history.leader_log(term).len(),
        history.diverged(term, index, limit),
        limit <= new_limit,
    ensures
        history.after(event).diverged(term, index, new_limit),
{
    let later = choose|later: u64| later <= limit && #[trigger] history.differs(term, index, later);
    lemma_event_keeps_the_difference(history, event, term, index, later);
    assert(later <= new_limit && history.after(event).differs(term, index, later));
}

/// An event leaves what is committed committed.
pub proof fn lemma_event_keeps_the_committed(history: History, event: Event, term: u64, index: int)
    requires
        history.consistent(),
        history.possible(event),
        history.committed(term, index),
    ensures
        history.after(event).committed(term, index),
{
    let after = history.after(event);
    lemma_event_keeps_the_frame(history, event);
    lemma_leader_log_grows_by_its_own(history, event, term);
    assert(after.leader_log(term)[index - 1] == history.leader_log(term)[index - 1]);
    lemma_count_where_implied(
        history.nodes().len(),
        |v: int| history.stored_at(v, term, index),
        |v: int| after.stored_at(v, term, index),
    );
}

/// The log of a node that has taken the entries of a genuine request is
/// the log of the request's leader up to the last of the entries.
pub proof fn lemma_taken_entries_are_the_leaders(
    history: History,
    node: RaftNodeView,
    request: AppendEntriesView,
)
    requires
        history.replication.entries_known(),
        history.replication.genuine(request),
        node.wf(),
        log_known(history.replication, node.state.log, node.state.current_term),
        append_entries_accepted(node.state, request),
    ensures
        same_up_to(
            history.leader_log(request.term),
            after_append_entries(node.state, request).log,
            request.prev_log_index + request.entries.len(),
        ),
{
    let replication = history.replication;
    let log = node.state.log;
    let after = after_append_entries(node.state, request);
    let leader = history.leader_log(request.term);
    let prev = request.prev_log_index as int;
    let agree = agreeing_prefix(log, prev, request.entries) as int;
    lemma_agreeing_prefix(log, prev, request.entries);
    let same = prev + agree;
    assert(replication.leader_known(request.term));
    if same > 0 {
        let last = same - 1;
        if agree > 0 {
            assert(log[prev + (agree - 1)].term == request.entries[agree - 1].term);
            assert(request.entries[agree - 1] == leader[last]);
        }
        assert(log[last].term == leader[last].term);
        assert(replication.known(log, last, node.state.current_term));
        assert(replication.known(leader, last, request.term));
        crate::raft::replication::lemma_known_logs_match(
            replication,
            log,
            leader,
            last,
            node.state.current_term,
            request.term,
        );
    }
    assert forall|j: int| 0 <= j < prev + request.entries.len() implies #[trigger] leader[j]
        == after.log[j] by {
        if j < same {
            assert(after.log[j] == log[j]);
            assert(log[j] == leader[j]);
        } else {
            assert(after.log[j] == request.entries[j - prev]);
            assert(request.entries[j - prev] == leader[j]);
        }
    }
}

/// An event leaves what is stored in range, and reaching down.
pub proof fn lemma_event_keeps_acks_in_range(history: History, event: Event)
    requires
        history.consistent(),
        history.possible(event),
    ensures
        history.after(event).acks_in_range(),
        history.after(event).acks_reach_down(),
{
    let after = history.after(event);
    let node = event.node();
    let before_node = history.nodes()[node];
    let after_node = history.replication.cluster.node_after(event);
    lemma_event_keeps_the_frame(history, event);
    assert forall|v: int, term: u64, index: int| #[trigger]
        after.stored_at(v, term, index) implies {
        &&& 0 <= v < after.nodes().len()
        &&& after.has_leader(term)
        &&& 1 <= index <= after.leader_log(term).len()
        &&& after.nodes()[v].state.current_term >= term
    } by {
        if history.stored_at(v, term, index) {
            lemma_leader_log_grows_by_its_own(history, event, term);
        } else if after_node.role == NodeRole::Leader && term == after_node.state.current_term
            && index <= after_node.state.log.len() {
            assert(after.replication.leaders_hold_their_logs());
            assert(after.nodes()[node].role == NodeRole::Leader);
        } else {
            assert(history.takes(event));
            match event {
                Event::EntriesSent { request, .. } => {
                    lemma_leader_log_grows_by_its_own(history, event, request.term);
                    lemma_append_entries_keeps_the_past(before_node.state, request);
                },
                _ => {},
            }
        }
    }
    assert forall|v: int, term: u64, index: int, lower: int|
        #![trigger after.stored_at(v, term, index), after.stored_at(v, term, lower)]
        after.stored_at(v, term, index) && 1 <= lower <= index implies after.stored_at(
        v,
        term,
        lower,
    ) by {
        if history.stored_at(v, term, index) {
            assert(history.stored_at(v, term, lower));
        }
    }
}

/// An event leaves the leaders counting only what is stored.
pub proof fn lemma_event_keeps_the_counts_stored(history: History, event: Event)
    requires
        history.consistent(),
        history.possible(event),
    ensures
        history.after(event).leaders_count_what_is_stored(),
{
    let after = history.after(event);
    let node = event.node();
    let before_node = history.nodes()[node];
    let after_node = history.replication.cluster.node_after(event);
    lemma_event_keeps_the_frame(history, event);
    assert(before_node.wf());
    assert forall|n: int, p: int|
        0 <= n < after.nodes().len() && after.nodes()[n].role == NodeRole::Leader && 0 <= p
            < after.nodes()[n].match_index.len() && #[trigger] after.nodes()[n].match_index[p]
            >= 1 implies after.stored_at(
        peer_node(n, p),
        after.nodes()[n].state.current_term,
        after.nodes()[n].match_index[p] as int,
    ) by {
        if n != node {
            assert(history.nodes()[n].match_index[p] >= 1);
            assert(history.stored_at(
                peer_node(n, p),
                history.nodes()[n].state.current_term,
                history.nodes()[n].match_index[p] as int,
            ));
        } else if before_node.role == NodeRole::Leader && before_node.match_index[p]
            == after_node.match_index[p] {
            assert(history.stored_at(
                peer_node(n, p),
                before_node.state.current_term,
                before_node.match_index[p] as int,
            ));
        }
    }
    assert forall|n: int, index: int|
        0 <= n < after.nodes().len() && after.nodes()[n].role == NodeRole::Leader && 1 <= index
            <= after.nodes()[n].state.log.len() implies #[trigger] after.stored_at(
        n,
        after.nodes()[n].state.current_term,
        index,
    ) by {
        if n != node {
            assert(history.stored_at(n, history.nodes()[n].state.current_term, index));
        }
    }
}

/// A node that takes the entries of a genuine request keeps the first
/// entries of an earlier leader if the request's leader holds them.
pub proof fn lemma_taking_keeps_shared_entries(
    history: History,
    node: RaftNodeView,
    request: AppendEntriesView,
    term: u64,
    index: int,
)
    requires
        history.replication.entries_known(),
        history.replication.genuine(request),
        node.wf(),
        log_known(history.replication, node.state.log, node.state.current_term),
        append_entries_accepted(node.state, request),
        same_up_to(history.leader_log(term), node.state.log, index),
        same_up_to(history.leader_log(term), history.leader_log(request.term), index),
    ensures
        same_up_to(history.leader_log(term), after_append_entries(node.state, request).log, index),
{
    let log = node.state.log;
    let after = after_append_entries(node.state, request);
    let leader = history.leader_log(request.term);
    let earlier = history.leader_log(term);
    let prev = request.prev_log_index as int;
    let agree = agreeing_prefix(log, prev, request.entries) as int;
    lemma_agreeing_prefix(log, prev, request.entries);
    lemma_taken_entries_are_the_leaders(history, node, request);
    if agree < request.entries.len() && prev + agree < log.len() && prev + agree < index {
        // The first entry that differs would lie among the shared ones.
        let at = prev + agree;
        assert(log[at] == earlier[at]);
        assert(earlier[at] == leader[at]);
        assert(request.entries[agree] == leader[at]);
        assert(false);
    }
    assert forall|j: int| 0 <= j < index implies #[trigger] earlier[j] == after.log[j] by {
        if agree == request.entries.len() || j < prev + agree {
            assert(after.log[j] == log[j]);
            assert(earlier[j] == log[j]);
        } else {
            assert(j < prev + request.entries.len());
            assert(leader[j] == after.log[j]);
            assert(earlier[j] == leader[j]);
        }
    }
}

/// An event leaves every node holding what it has stored.
pub proof fn lemma_event_keeps_acks_holding(history: History, event: Event)
    requires
        history.consistent(),
        history.possible(event),
    ensures
        history.after(event).acks_hold(),
{
    let after = history.after(event);
    let node = event.node();
    let before_node = history.nodes()[node];
    let after_node = history.replication.cluster.node_after(event);
    lemma_event_keeps_the_frame(history, event);
    lemma_event_keeps_acks_in_range(history, event);
    assert(before_node.wf());
    assert(history.replication.entries_known());
    assert(history.replication.node_known(node));
    assert forall|v: int, term: u64, index: int| #[trigger]
        after.stored_at(v, term, index) implies after.holds(v, term, index) by {
        let limit = history.nodes()[v].state.current_term as int;
        let new_limit = after.nodes()[v].state.current_term as int;
        if history.stored_at(v, term, index) {
            assert(history.holds(v, term, index));
            lemma_leader_log_grows_by_its_own(history, event, term);
            if history.diverged(term, index, limit) {
                lemma_event_keeps_the_divergence(history, event, term, index, limit, new_limit);
            } else {
                let earlier = history.leader_log(term);
                let log = history.nodes()[v].state.log;
                assert(same_up_to(earlier, log, index));
                if v != node {
                    assert(same_up_to(after.leader_log(term), after.nodes()[v].state.log, index));
                } else if history.takes(event) {
                    match event {
                        Event::EntriesSent { request, .. } => {
                            lemma_leader_log_grows_by_its_own(history, event, request.term);
                            if same_up_to(earlier, history.leader_log(request.term), index) {
                                lemma_taking_keeps_shared_entries(
                                    history,
                                    before_node,
                                    request,
                                    term,
                                    index,
                                );
                                assert(same_up_to(
                                    after.leader_log(term),
                                    after.nodes()[v].state.log,
                                    index,
                                ));
                            } else {
                                assert(term != request.term);
                                assert(history.differs(term, index, request.term));
                                lemma_event_keeps_the_difference(
                                    history,
                                    event,
                                    term,
                                    index,
                                    request.term,
                                );
                                assert(request.term <= new_limit && after.differs(
                                    term,
                                    index,
                                    request.term,
                                ));
                            }
                        },
                        _ => {},
                    }
                } else {
                    // The log of the node is as it was, or longer.
                    assert(same_up_to(log, after_node.state.log, log.len() as int));
                    assert(same_up_to(after.leader_log(term), after_node.state.log, index));
                }
            }
        } else if after_node.role == NodeRole::Leader && v == node && term
            == after_node.state.current_term && index <= after_node.state.log.len() {
            assert(after.replication.leaders_hold_their_logs());
            assert(after.nodes()[node].role == NodeRole::Leader);
            assert(after.leader_log(term) == after_node.state.log);
        } else {
            assert(history.takes(event));
            match event {
                Event::EntriesSent { request, .. } => {
                    lemma_leader_log_grows_by_its_own(history, event, request.term);
                    lemma_taken_entries_are_the_leaders(history, before_node, request);
                },
                _ => {},
            }
        }
    }
}

/// For each index, whether it is at least `n`.
pub open spec fn reached(indices: Seq<u64>, n: int) -> Seq<bool> {
    Seq::new(indices.len(), |p: int| indices[p] >= n)
}

/// As many indices are at least `n` as there are flags that say so.
pub proof fn lemma_reached_counted(indices: Seq<u64>, n: int)
    ensures
        count_true(reached(indices, n)) == count_at_least(indices, n),
    decreases indices.len(),
{
    if indices.len() > 0 {
        lemma_reached_counted(indices.drop_last(), n);
        assert(reached(indices, n).drop_last() =~= reached(indices.drop_last(), n));
    }
}

/// An entry of a leader's term that the leader knows to be stored on a
/// strict majority of the cluster is committed.
pub proof fn lemma_commit_rule_commits(history: History, leader: int, index: int)
    requires
        history.replication.consistent(),
        history.acks_reach_down(),
        history.leaders_count_what_is_stored(),
        0 <= leader < history.nodes().len(),
        history.nodes()[leader].role == NodeRole::Leader,
        1 <= index <= history.nodes()[leader].state.log.len(),
        history.nodes()[leader].state.log[index - 1].term
            == history.nodes()[leader].state.current_term,
        history.nodes()[leader].replicated_on_majority(index),
    ensures
        history.committed(history.nodes()[leader].state.current_term, index),
{
    let n = history.nodes().len();
    let node = history.nodes()[leader];
    let term = node.state.current_term;
    assert(history.replication.cluster.configured());
    assert(node.wf());
    assert(history.replication.leaders_hold_their_logs());
    assert(history.leader_log(term) == node.state.log);
    let flags = reached(node.match_index, index);
    lemma_reached_counted(node.match_index, index);
    lemma_supporters_counted(leader, flags, n);
    assert(flags.subrange(0, n - 1) =~= flags);
    let supporting = |v: int| supports(leader, flags, v);
    let storing = |v: int| history.stored_at(v, term, index);
    assert forall|v: int| 0 <= v < n && #[trigger] supporting(v) implies storing(v) by {
        if v < leader {
            assert(flags[v]);
            assert(node.match_index[v] >= 1);
            assert(history.stored_at(peer_node(leader, v), term, node.match_index[v] as int));
        } else if v > leader {
            assert(flags[v - 1]);
            assert(node.match_index[v - 1] >= 1);
            assert(history.stored_at(
                peer_node(leader, v - 1),
                term,
                node.match_index[v - 1] as int,
            ));
        } else {
            assert(history.stored_at(leader, term, index));
        }
    }
    lemma_count_where_implied(n, supporting, storing);
}

/// An event leaves a commit index that stood on a commitment standing
/// on it, where the log up to the commit index is as it was.
pub proof fn lemma_event_keeps_the_backing(
    history: History,
    event: Event,
    log: Seq<LogEntryView>,
    commit: int,
    new_log: Seq<LogEntryView>,
    new_commit: int,
    backing: Backing,
)
    requires
        history.consistent(),
        history.possible(event),
        history.backed(log, commit, backing),
        new_commit <= commit,
        same_up_to(log, new_log, new_commit),
    ensures
        history.after(event).backed(new_log, new_commit, backing),
{
    if new_commit > 0 {
        let after = history.after(event);
        lemma_event_keeps_the_committed(history, event, backing.term, backing.index);
        lemma_leader_log_grows_by_its_own(history, event, backing.term);
        assert forall|j: int| 0 <= j < new_commit implies #[trigger] new_log[j]
            == after.leader_log(backing.term)[j] by {
            assert(new_log[j] == log[j]);
            assert(log[j] == history.leader_log(backing.term)[j]);
        }
    }
}

/// An event leaves the commit index of every node, and every commit
/// index that a leader had, standing on a commitment.
pub proof fn lemma_event_keeps_commits_backed(history: History, event: Event)
    requires
        history.consistent(),
        history.possible(event),
    ensures
        history.after(event).commits_backed(),
        history.after(event).announcements_backed(),
{
    let after = history.after(event);
    let node = event.node();
    let before_node = history.nodes()[node];
    let after_node = history.replication.cluster.node_after(event);
    lemma_event_keeps_the_frame(history, event);
    lemma_event_keeps_acks_in_range(history, event);
    lemma_event_keeps_the_counts_stored(history, event);
    assert(before_node.wf());
    assert(after_node.wf());
    assert(history.replication.entries_known());
    assert(history.replication.node_known(node));
    // The event's node.
    let commit = before_node.state.commit_index as int;
    let new_commit = after_node.state.commit_index as int;
    assert(history.backed(before_node.state.log, commit, history.backing[node]));
    assert(after.backed(after_node.state.log, new_commit, history.backing_after(event))) by {
        if new_commit <= commit {
            match event {
                Event::EntriesSent { request, .. } => {
                    lemma_append_entries_keeps_the_past(before_node.state, request);
                    assert forall|j: int| 0 <= j < new_commit implies #[trigger] before_node.state.log[j]
                        == after_node.state.log[j] by {
                        assert(before_node.state.log.subrange(0, commit)[j]
                            == before_node.state.log[j]);
                        assert(after_node.state.log.subrange(0, commit)[j]
                            == after_node.state.log[j]);
                    }
                },
                _ => {},
            }
            lemma_event_keeps_the_backing(
                history,
                event,
                before_node.state.log,
                commit,
                after_node.state.log,
                new_commit,
                history.backing[node],
            );
        } else {
            match event {
                Event::EntriesSent { request, .. } => {
                    assert(history.takes(event));
                    let brought = history.announced[(request.term, request.leader_commit)];
                    assert(history.announced.contains_key((request.term, request.leader_commit)));
                    assert(history.backed(
                        history.leader_log(request.term),
                        request.leader_commit as int,
                        brought,
                    ));
                    lemma_taken_entries_are_the_leaders(history, before_node, request);
                    assert forall|j: int| 0 <= j < new_commit implies #[trigger] history.leader_log(
                        request.term,
                    )[j] == after_node.state.log[j] by {}
                    lemma_event_keeps_the_backing(
                        history,
                        event,
                        history.leader_log(request.term),
                        request.leader_commit as int,
                        after_node.state.log,
                        new_commit,
                        brought,
                    );
                },
                _ => {
                    assert(after_node.role == NodeRole::Leader);
                    assert(after_node.replicated_on_majority(new_commit));
                    lemma_commit_rule_commits(after, node, new_commit);
                    assert(after.replication.leaders_hold_their_logs());
                    assert(after.nodes()[node].role == NodeRole::Leader);
                },
            }
        }
    }
    assert forall|n: int| 0 <= n < after.nodes().len() implies #[trigger] after.backed(
        after.nodes()[n].state.log,
        after.nodes()[n].state.commit_index as int,
        after.backing[n],
    ) by {
        if n != node {
            let other = history.nodes()[n];
            assert(history.backed(
                other.state.log,
                other.state.commit_index as int,
                history.backing[n],
            ));
            lemma_event_keeps_the_backing(
                history,
                event,
                other.state.log,
                other.state.commit_index as int,
                other.state.log,
                other.state.commit_index as int,
                history.backing[n],
            );
        }
    }
    assert forall|term: u64, commit: u64| #[trigger]
        after.announced.contains_key((term, commit)) implies after.has_leader(term)
        && after.backed(after.leader_log(term), commit as int, after.announced[(term, commit)]) by {
        if after_node.role == NodeRole::Leader && after_node.state.commit_index > 0 && term
            == after_node.state.current_term && commit == after_node.state.commit_index {
            assert(after.replication.leaders_hold_their_logs());
            assert(after.nodes()[node].role == NodeRole::Leader);
            assert(after.leader_log(term) == after_node.state.log);
        } else {
            assert(history.announced.contains_key((term, commit)));
            lemma_leader_log_grows_by_its_own(history, event, term);
            lemma_event_keeps_the_backing(
                history,
                event,
                history.leader_log(term),
                commit as int,
                after.leader_log(term),
                commit as int,
                history.announced[(term, commit)],
            );
        }
    }
}

/// An event leaves a known log known, when the limit on its terms
/// does not fall.
pub proof fn lemma_event_keeps_a_log_known(
    history: History,
    event: Event,
    log: Seq<LogEntryView>,
    limit: u64,
    new_limit: u64,
)
    requires
        history.consistent(),
        history.possible(event),
        log_known(history.replication, log, limit),
        limit <= new_limit,
    ensures
        log_known(history.after(event).replication, log, new_limit),
{
    let after = history.after(event);
    assert forall|i: int| 0 <= i < log.len() implies #[trigger] after.replication.known(
        log,
        i,
        new_limit,
    ) by {
        assert(history.replication.known(log, i, limit));
        lemma_leader_logs_only_grow(history.replication, event, log[i].term);
        lemma_known_stays_known(history.replication, after.replication, log, i, limit, new_limit);
    }
}

/// A node that stands for election has not stood in the new term before.
pub proof fn lemma_standing_is_new(history: History, event: Event)
    requires
        history.consistent(),
        history.possible(event),
        history.stands(event),
    ensures
        !history.candidate_logs.contains_key(
            (
                (history.nodes()[event.node()].state.current_term + 1) as u64,
                history.nodes()[event.node()].id,
            ),
        ),
        !history.vote_logs.contains_key(
            (event.node(), (history.nodes()[event.node()].state.current_term + 1) as u64),
        ),
{
    let node = event.node();
    let term = (history.nodes()[node].state.current_term + 1) as u64;
    assert(history.replication.cluster.configured());
    if history.candidate_logs.contains_key((term, history.nodes()[node].id)) {
        assert(history.nodes()[node].state.current_term >= term);
    }
    if history.vote_logs.contains_key((node, term)) {
        assert(history.nodes()[node].state.current_term >= term);
    }
}

/// An event leaves the logs of the candidates sound, and every candidate
/// with the log with which it stood.
pub proof fn lemma_event_keeps_candidate_logs(history: History, event: Event)
    requires
        history.consistent(),
        history.possible(event),
    ensures
        history.after(event).candidate_logs_sound(),
        history.after(event).candidates_keep_their_logs(),
        forall|term: u64, candidate: u64| #[trigger]
            history.candidate_logs.contains_key((term, candidate)) ==> history.after(
                event,
            ).candidate_logs.contains_key((term, candidate)) && history.after(
                event,
            ).candidate_logs[(term, candidate)] == history.candidate_logs[(term, candidate)],
{
    let after = history.after(event);
    let node = event.node();
    let before_node = history.nodes()[node];
    let after_node = history.replication.cluster.node_after(event);
    lemma_event_keeps_the_frame(history, event);
    assert(before_node.wf());
    assert(history.replication.cluster.configured());
    assert(history.replication.entries_known());
    assert(history.replication.node_known(node));
    if history.stands(event) {
        lemma_standing_is_new(history, event);
    }
    assert forall|term: u64, candidate: u64| #[trigger]
        after.candidate_logs.contains_key((term, candidate)) implies term >= 1 && log_known(
        after.replication,
        after.candidate_logs[(term, candidate)],
        (term - 1) as u64,
    ) by {
        if history.candidate_logs.contains_key((term, candidate)) {
            lemma_event_keeps_a_log_known(
                history,
                event,
                history.candidate_logs[(term, candidate)],
                (term - 1) as u64,
                (term - 1) as u64,
            );
        } else {
            lemma_event_keeps_a_log_known(
                history,
                event,
                before_node.state.log,
                before_node.state.current_term,
                before_node.state.current_term,
            );
        }
    }
    assert forall|n: int, term: u64|
        0 <= n < after.nodes().len() && #[trigger] after.candidate_logs.contains_key(
            (term, after.nodes()[n].id),
        ) implies after.nodes()[n].state.current_term >= term by {
        if history.candidate_logs.contains_key((term, history.nodes()[n].id)) {
            assert(history.nodes()[n].state.current_term >= term);
        } else {
            assert(history.nodes()[n].id == before_node.id);
            assert(n == node);
        }
    }
    assert forall|n: int|
        0 <= n < after.nodes().len() && (#[trigger] after.nodes()[n]).role
            == NodeRole::Candidate implies {
        &&& after.candidate_logs.contains_key(
            (after.nodes()[n].state.current_term, after.nodes()[n].id),
        )
        &&& after.candidate_logs[(after.nodes()[n].state.current_term, after.nodes()[n].id)]
            == after.nodes()[n].state.log
    } by {
        if n != node {
            assert(history.nodes()[n].role == NodeRole::Candidate);
            assert(history.nodes()[n].id != before_node.id);
        } else if !history.stands(event) {
            assert(before_node.role == NodeRole::Candidate);
        }
    }
}

/// An event leaves the votes of the terms without a leader kept, and
/// the kept votes sound.
pub proof fn lemma_event_keeps_vote_logs(history: History, event: Event)
    requires
        history.consistent(),
        history.possible(event),
    ensures
        history.after(event).votes_logged(),
        history.after(event).vote_logs_sound(),
{
    let after = history.after(event);
    let node = event.node();
    let before_node = history.nodes()[node];
    let after_node = history.replication.cluster.node_after(event);
    lemma_event_keeps_the_frame(history, event);
    lemma_event_keeps_candidate_logs(history, event);
    assert(before_node.wf());
    assert(history.replication.entries_known());
    assert(history.replication.node_known(node));
    if history.stands(event) {
        lemma_standing_is_new(history, event);
    }
    assert forall|v: int, term: u64, candidate: u64| #[trigger]
        after.replication.cluster.voted(v, term, candidate) && !after.has_leader(
            term,
        ) implies after.vote_logs.contains_key((v, term)) by {
        if history.has_leader(term) {
            lemma_leader_log_grows_by_its_own(history, event, term);
        }
        if history.replication.cluster.voted(v, term, candidate) {
            assert(history.vote_logs.contains_key((v, term)));
        }
    }
    assert forall|v: int, upper: u64| #[trigger]
        after.vote_logs.contains_key((v, upper)) implies {
        let cast = after.vote_logs[(v, upper)];
        &&& 0 <= v < after.nodes().len()
        &&& after.nodes()[v].state.current_term >= upper
        &&& after.replication.cluster.voted(v, upper, cast.candidate)
        &&& after.candidate_logs.contains_key((upper, cast.candidate))
        &&& up_to_date(after.candidate_logs[(upper, cast.candidate)], cast.log)
        &&& log_known(after.replication, cast.log, upper)
    } by {
        let cast = after.vote_logs[(v, upper)];
        if history.vote_logs.contains_key((v, upper)) && history.vote_logs[(v, upper)] == cast {
            assert(history.replication.cluster.voted(v, upper, cast.candidate));
            assert(history.candidate_logs.contains_key((upper, cast.candidate)));
            lemma_event_keeps_a_log_known(history, event, cast.log, upper, upper);
        } else {
            // The vote is cast by this event, with the log of its node.
            assert(v == node);
            assert(cast.log == before_node.state.log);
            lemma_event_keeps_a_log_known(
                history,
                event,
                before_node.state.log,
                before_node.state.current_term,
                upper,
            );
            match event {
                Event::VoteRequested { vote_request, .. } => {
                    assert(history.candidate_logs.contains_key(
                        (vote_request.term, vote_request.candidate_id),
                    ));
                },
                _ => {},
            }
        }
    }
}

/// An event leaves every voter having held, when it voted, what it had
/// stored before.
pub proof fn lemma_event_keeps_votes_holding(history: History, event: Event)
    requires
        history.consistent(),
        history.possible(event),
    ensures
        history.after(event).votes_hold(),
{
    let after = history.after(event);
    let node = event.node();
    let before_node = history.nodes()[node];
    let after_node = history.replication.cluster.node_after(event);
    lemma_event_keeps_the_frame(history, event);
    lemma_event_keeps_acks_in_range(history, event);
    assert(before_node.wf());
    if history.stands(event) {
        lemma_standing_is_new(history, event);
    }
    assert forall|v: int, upper: u64, term: u64, index: int|
        #![trigger after.vote_logs.contains_key((v, upper)), after.stored_at(v, term, index)]
        after.vote_logs.contains_key((v, upper)) && after.stored_at(v, term, index) && term
            < upper implies after.vote_holds(v, upper, term, index) by {
        let cast = after.vote_logs[(v, upper)];
        if !history.stored_at(v, term, index) {
            // What is stored by this event is of the term that its node
            // is in after it, which is no term before one it voted in.
            assert(v == node);
            if history.vote_logs.contains_key((v, upper)) {
                assert(before_node.state.current_term >= upper);
            }
            match event {
                Event::EntriesSent { request, .. } => {
                    lemma_append_entries_keeps_the_past(before_node.state, request);
                },
                _ => {},
            }
            assert(false);
        }
        assert(history.has_leader(term) && 1 <= index <= history.leader_log(term).len());
        lemma_leader_log_grows_by_its_own(history, event, term);
        if history.vote_logs.contains_key((v, upper)) && history.vote_logs[(v, upper)] == cast {
            assert(history.vote_holds(v, upper, term, index));
            if history.diverged(term, index, upper - 1) {
                lemma_event_keeps_the_divergence(
                    history,
                    event,
                    term,
                    index,
                    upper - 1,
                    upper - 1,
                );
            }
        } else {
            // The vote is cast by this event, with the log of its node.
            assert(v == node);
            assert(cast.log == before_node.state.log);
            assert(history.holds(v, term, index));
            let limit = before_node.state.current_term as int;
            if history.diverged(term, index, limit) {
                let later = choose|later: u64|
                    later <= limit && #[trigger] history.differs(term, index, later);
                assert(history.has_leader(later));
                assert(later <= upper - 1);
                lemma_event_keeps_the_difference(history, event, term, index, later);
                assert(later <= upper - 1 && after.differs(term, index, later));
            }
        }
    }
}

/// An event leaves every leader's log beginning with the log with which
/// the leader stood, and every leader elected by votes that were cast
/// before its term had a leader.
pub proof fn lemma_event_keeps_the_elections(history: History, event: Event)
    requires
        history.consistent(),
        history.possible(event),
    ensures
        history.after(event).leaders_began_as_candidates(),
        history.after(event).leaders_elected_early(),
{
    let after = history.after(event);
    let node = event.node();
    let before_node = history.nodes()[node];
    let after_node = history.replication.cluster.node_after(event);
    let n = history.nodes().len();
    lemma_event_keeps_the_frame(history, event);
    lemma_event_keeps_candidate_logs(history, event);
    lemma_event_keeps_vote_logs(history, event);
    assert(before_node.wf());
    assert(history.replication.cluster.configured());
    if history.stands(event) {
        lemma_standing_is_new(history, event);
    }
    assert forall|term: u64| #[trigger] after.has_leader(term) implies {
        &&& after.candidate_logs.contains_key((term, after.leader_id(term)))
        &&& same_up_to(
            after.candidate_logs[(term, after.leader_id(term))],
            after.leader_log(term),
            after.candidate_logs[(term, after.leader_id(term))].len() as int,
        )
        &&& 2 * count_where(n, |v: int| after.early_vote(v, term, after.leader_id(term))) > n
    } by {
        if history.has_leader(term) {
            lemma_leader_log_grows_by_its_own(history, event, term);
            let candidate = history.leader_id(term);
            assert(history.replication.leaders_recorded());
            assert(history.replication.leader_of.contains_key(term));
            assert(after.leader_id(term) == candidate);
            let stood = history.candidate_logs[(term, candidate)];
            assert(history.candidate_logs.contains_key((term, candidate)));
            assert forall|j: int| 0 <= j < stood.len() implies #[trigger] stood[j]
                == after.leader_log(term)[j] by {
                assert(stood[j] == history.leader_log(term)[j]);
            }
            assert forall|v: int|
                0 <= v < n && #[trigger] history.early_vote(
                    v,
                    term,
                    candidate,
                ) implies after.early_vote(v, term, candidate) by {
                if after.vote_logs[(v, term)] != history.vote_logs[(v, term)] {
                    assert(v == node);
                    assert(history.nodes()[v].state.current_term >= term);
                }
            }
            lemma_count_where_implied(
                n,
                |v: int| history.early_vote(v, term, candidate),
                |v: int| after.early_vote(v, term, candidate),
            );
        } else {
            // The event has made its node the leader of the term.
            assert(after_node.role == NodeRole::Leader && after_node.state.current_term == term);
            assert(after.replication.leader_of[term] == node);
            let candidate = before_node.id;
            assert(after.leader_id(term) == candidate);
            assert(after.leader_log(term) == after_node.state.log);
            if !history.stands(event) {
                assert(before_node.role == NodeRole::Candidate);
                assert(before_node.state.current_term == term);
                assert(history.candidate_logs.contains_key((term, candidate)));
            }
            lemma_leaders_were_elected(after.replication.cluster, node);
            assert forall|v: int|
                0 <= v < n && #[trigger] after.replication.cluster.voted(
                    v,
                    term,
                    candidate,
                ) implies after.early_vote(v, term, candidate) by {
                if history.replication.cluster.voted(v, term, candidate) {
                    assert(history.vote_logs.contains_key((v, term)));
                    let cast = history.vote_logs[(v, term)];
                    assert(history.replication.cluster.voted(v, term, cast.candidate));
                    assert(history.replication.cluster.one_vote_each());
                }
            }
            lemma_count_where_implied(
                n,
                |v: int| after.replication.cluster.voted(v, term, candidate),
                |v: int| after.early_vote(v, term, candidate),
            );
        }
    }
}

/// What holds of a history holds after every event that can happen.
pub proof fn lemma_event_keeps_the_history(history: History, event: Event)
    requires
        history.consistent(),
        history.possible(event),
    ensures
        history.after(event).consistent(),
{
    lemma_event_keeps_the_frame(history, event);
    lemma_event_keeps_acks_in_range(history, event);
    lemma_event_keeps_acks_holding(history, event);
    lemma_event_keeps_vote_logs(history, event);
    lemma_event_keeps_votes_holding(history, event);
    lemma_event_keeps_candidate_logs(history, event);
    lemma_event_keeps_the_elections(history, event);
    lemma_event_keeps_the_counts_stored(history, event);
    lemma_event_keeps_commits_backed(history, event);
}

/// A cluster of nodes that have seen nothing yet is a consistent
/// history.
pub proof fn lemma_initial_history_is_consistent(history: History)
    requires
        history.initial(),
    ensures
        history.consistent(),
{
    crate::raft::replication::lemma_initial_replication_is_consistent(history.replication);
    let cluster = history.replication.cluster;
    assert forall|n: int| 0 <= n < cluster.nodes.len() implies (#[trigger] cluster.nodes[n]).role
        == NodeRole::Follower && cluster.nodes[n].state.commit_index == 0 by {
        let draw = choose|draw: u64|
            cluster.nodes[n] == crate::raft::node::initial_node(
                cluster.nodes[n].id,
                cluster.nodes[n].peers,
                draw,
            );
    }
    assert forall|n: int| 0 <= n < history.nodes().len() implies #[trigger] history.backed(
        history.nodes()[n].state.log,
        history.nodes()[n].state.commit_index as int,
        history.backing[n],
    ) by {
        assert(cluster.nodes[n].state.commit_index == 0);
    }
}

/// What holds of a history at the start holds after any run of events.
pub proof fn lemma_run_keeps_the_history(history: History, events: Seq<Event>)
    requires
        history.consistent(),
        history.all_possible(events),
    ensures
        history.after_all(events).consistent(),
    decreases events.len(),
{
    if events.len() > 0 {
        lemma_run_keeps_the_history(history, events.drop_last());
        lemma_event_keeps_the_history(history.after_all(events.drop_last()), events.last());
    }
}

/// However the events of a cluster run, from nodes that have seen
/// nothing yet: the entries that two nodes have applied are the same,
/// index by index, so that of the two sequences of applied commands one
/// begins with the other.
pub proof fn lemma_state_machine_safety(
    start: History,
    events: Seq<Event>,
    a: int,
    b: int,
    index: int,
)
    requires
        start.initial(),
        start.all_possible(events),
        0 <= a < start.after_all(events).nodes().len(),
        0 <= b < start.after_all(events).nodes().len(),
        1 <= index <= start.after_all(events).nodes()[a].state.last_applied,
        index <= start.after_all(events).nodes()[b].state.last_applied,
    ensures
        start.after_all(events).nodes()[a].state.log[index - 1] == start.after_all(
            events,
        ).nodes()[b].state.log[index - 1],
{
    lemma_initial_history_is_consistent(start);
    lemma_run_keeps_the_history(start, events);
    lemma_applied_entries_agree(start.after_all(events), a, b, index);
}

/// However the events of a cluster run, from nodes that have seen
/// nothing yet: the entries that are committed in a term stand in the
/// log of every leader of a later term.
pub proof fn lemma_committed_entries_stay(
    start: History,
    events: Seq<Event>,
    term: u64,
    index: int,
    leader: int,
)
    requires
        start.initial(),
        start.all_possible(events),
        start.after_all(events).committed(term, index),
        0 <= leader < start.after_all(events).nodes().len(),
        start.after_all(events).nodes()[leader].role == NodeRole::Leader,
        start.after_all(events).nodes()[leader].state.current_term > term,
    ensures
        start.after_all(events).nodes()[leader].state.log.len() >= index,
        start.after_all(events).nodes()[leader].state.log.subrange(0, index) == start.after_all(
            events,
        ).leader_log(term).subrange(0, index),
{
    lemma_initial_history_is_consistent(start);
    lemma_run_keeps_the_history(start, events);
    lemma_leaders_hold_what_is_committed(start.after_all(events), term, index, leader);
}

} // verus!
