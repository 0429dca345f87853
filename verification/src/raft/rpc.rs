//! The messages that nodes exchange, and the voter's side of an election.

use crate::raft::state::{LogEntry, LogEntryView, RaftState, RaftStateView};
use vstd::prelude::*;

verus! {

/// A candidate asks for a vote.
#[derive(Debug, Clone, Copy)]
pub struct RequestVote {
    pub term: u64,
    pub candidate_id: u64,
    pub last_log_index: u64,
    pub last_log_term: u64,
}

#[derive(Debug, Clone, Copy)]
pub struct VoteResponse {
    pub term: u64,
    pub vote_granted: bool,
}

/// A leader replicates entries, or, with none, asserts its leadership.
#[derive(Debug)]
pub struct AppendEntries {
    pub term: u64,
    pub leader_id: u64,
    pub prev_log_index: u64,
    pub prev_log_term: u64,
    pub entries: Vec<LogEntry>,
    pub leader_commit: u64,
}

/// An `AppendEntries` request as mathematical values.
pub struct AppendEntriesView {
    pub term: u64,
    pub leader_id: u64,
    pub prev_log_index: u64,
    pub prev_log_term: u64,
    pub entries: Seq<LogEntryView>,
    pub leader_commit: u64,
}

impl View for AppendEntries {
    type V = AppendEntriesView;

    open spec fn view(&self) -> AppendEntriesView {
        AppendEntriesView {
            term: self.term,
            leader_id: self.leader_id,
            prev_log_index: self.prev_log_index,
            prev_log_term: self.prev_log_term,
            entries: self.entries.deep_view(),
            leader_commit: self.leader_commit,
        }
    }
}

#[derive(Debug, Clone, Copy)]
pub struct AppendEntriesResponse {
    pub term: u64,
    pub success: bool,
}

/// The candidate's log is at least as up to date as the voter's: its
/// last entry is of a later term, or of the same term and no lower index.
pub open spec fn candidate_up_to_date(s: RaftStateView, req: RequestVote) -> bool {
    req.last_log_term > s.last_log_term() || (req.last_log_term == s.last_log_term()
        && req.last_log_index >= s.last_log_index())
}

/// The vote is granted: the request's term is not stale, the voter has
/// not voted for another candidate in that term, and the candidate's log
/// is at least as up to date as the voter's.
pub open spec fn vote_granted(s: RaftStateView, req: RequestVote) -> bool {
    &&& req.term >= s.current_term
    &&& (s.observe_term(req.term).voted_for is None || s.observe_term(req.term).voted_for == Some(
        req.candidate_id,
    ))
    &&& candidate_up_to_date(s, req)
}

/// The state that a vote request leaves behind.
pub open spec fn after_vote_request(s: RaftStateView, req: RequestVote) -> RaftStateView {
    if vote_granted(s, req) {
        RaftStateView { voted_for: Some(req.candidate_id), ..s.observe_term(req.term) }
    } else {
        s.observe_term(req.term)
    }
}

/// What a vote request cannot undo: the term does not fall, and within
/// a term a vote that was cast stays with its candidate. The log, the
/// commit index and what was applied are not touched.
pub proof fn lemma_vote_request_keeps_the_past(s: RaftStateView, req: RequestVote)
    ensures
        s.wf() ==> after_vote_request(s, req).wf(),
        after_vote_request(s, req).current_term >= s.current_term,
        after_vote_request(s, req).current_term == s.current_term && s.voted_for is Some
            ==> after_vote_request(s, req).voted_for == s.voted_for,
        after_vote_request(s, req).log == s.log,
        after_vote_request(s, req).commit_index == s.commit_index,
        after_vote_request(s, req).last_applied == s.last_applied,
        vote_granted(s, req) ==> after_vote_request(s, req).current_term == req.term
            && after_vote_request(s, req).voted_for == Some(req.candidate_id),
{
}

impl RaftState {
    /// The voter's side of an election.
    ///
    /// A higher term in the request is adopted first, which forgets the
    /// vote of the old term. The vote is granted if and only if the
    /// request's term is then the current one, no vote went to another
    /// candidate in it, and the candidate's log is at least as up to date
    /// as this one. A granted vote is recorded.
    pub fn handle_vote_request(&mut self, req: RequestVote) -> (resp: VoteResponse)
        ensures
            final(self)@ == after_vote_request(old(self)@, req),
            resp.term == final(self).current_term,
            resp.vote_granted == vote_granted(old(self)@, req),
            old(self).wf() ==> final(self).wf(),
    {
        if req.term > self.current_term {
            self.current_term = req.term;
            self.voted_for = None;
        }
        let mut granted = false;
        if req.term >= self.current_term {
            let free = match self.voted_for {
                None => true,
                Some(candidate) => candidate == req.candidate_id,
            };
            if free {
                let last_term = self.last_log_term();
                if req.last_log_term > last_term || (req.last_log_term == last_term
                    && req.last_log_index >= self.last_log_index()) {
                    self.voted_for = Some(req.candidate_id);
                    granted = true;
                }
            }
        }
        VoteResponse { term: self.current_term, vote_granted: granted }
    }
}

} // verus!
