//! The consensus state of one node and the follower's side of log
//! replication.

use crate::raft::rpc::{AppendEntries, AppendEntriesResponse, AppendEntriesView};
use vstd::prelude::*;

verus! {

/// One entry of the replicated log. Its index is its position in the
/// log, counted from 1.
#[derive(Debug)]
pub struct LogEntry {
    pub term: u64,
    pub command: String,
}

/// What a log entry holds, as mathematical values.
pub struct LogEntryView {
    pub term: u64,
    pub command: Seq<char>,
}

impl View for LogEntry {
    type V = LogEntryView;

    open spec fn view(&self) -> LogEntryView {
        LogEntryView { term: self.term, command: self.command@ }
    }
}

impl DeepView for LogEntry {
    type V = LogEntryView;

    open spec fn deep_view(&self) -> LogEntryView {
        self@
    }
}

impl Clone for LogEntry {
    fn clone(&self) -> (copy: Self)
        ensures
            copy@ == self@,
    {
        LogEntry { term: self.term, command: self.command.clone() }
    }
}

/// The persistent and volatile consensus state of a node.
#[derive(Debug)]
pub struct RaftState {
    pub current_term: u64,
    pub voted_for: Option<u64>,
    pub log: Vec<LogEntry>,
    pub commit_index: u64,
    pub last_applied: u64,
}

/// The consensus state as mathematical values.
pub struct RaftStateView {
    pub current_term: u64,
    pub voted_for: Option<u64>,
    pub log: Seq<LogEntryView>,
    pub commit_index: u64,
    pub last_applied: u64,
}

impl RaftStateView {
    /// Nothing is applied before it is committed, and nothing is
    /// committed that the log does not hold.
    pub open spec fn wf(self) -> bool {
        self.last_applied <= self.commit_index <= self.log.len()
    }

    /// The index of the last entry, or 0 for an empty log.
    pub open spec fn last_log_index(self) -> nat {
        self.log.len()
    }

    /// The term of the last entry, or 0 for an empty log.
    pub open spec fn last_log_term(self) -> u64 {
        if self.log.len() == 0 {
            0
        } else {
            self.log.last().term
        }
    }

    /// The state after a message of term `term` was seen: a higher term
    /// is adopted, and the vote cast in the old term is forgotten.
    pub open spec fn observe_term(self, term: u64) -> RaftStateView {
        if term > self.current_term {
            RaftStateView { current_term: term, voted_for: None, ..self }
        } else {
            self
        }
    }
}

/// The log holds an entry of term `prev_term` at index `prev_index`;
/// index 0 stands for the start of every log.
pub open spec fn prev_matches(log: Seq<LogEntryView>, prev_index: u64, prev_term: u64) -> bool {
    prev_index == 0 || (prev_index <= log.len() && log[prev_index - 1].term == prev_term)
}

/// How many leading `entries` the log already holds from position `at`
/// (counted from 0) on: the entries before the first one that lies past
/// the end of the log or differs in term from the local entry.
pub open spec fn agreeing_prefix(log: Seq<LogEntryView>, at: int, entries: Seq<LogEntryView>) -> nat
    decreases entries.len(),
{
    if entries.len() == 0 || at < 0 || at >= log.len() || log[at].term != entries[0].term {
        0
    } else {
        1 + agreeing_prefix(log, at + 1, entries.drop_first())
    }
}

/// The log after `entries` were laid over it behind index `prev_index`:
/// unchanged where all of them agree with it; else cut before the first
/// entry that does not, and continued with the entries from there on.
pub open spec fn merged_log(log: Seq<LogEntryView>, prev_index: u64, entries: Seq<LogEntryView>) -> Seq<
    LogEntryView,
> {
    let agree = agreeing_prefix(log, prev_index as int, entries);
    if agree == entries.len() {
        log
    } else {
        log.subrange(0, prev_index + agree) + entries.subrange(agree as int, entries.len() as int)
    }
}

/// Laying the request's entries over the log would replace an entry at
/// or below the commit index.
pub open spec fn rewrites_committed(s: RaftStateView, req: AppendEntriesView) -> bool {
    let agree = agreeing_prefix(s.log, req.prev_log_index as int, req.entries);
    agree < req.entries.len() && req.prev_log_index + agree < s.commit_index
}

/// The request is accepted: its term is not stale, the log holds the
/// entry that the new ones follow, and no committed entry would be
/// replaced.
pub open spec fn append_entries_accepted(s: RaftStateView, req: AppendEntriesView) -> bool {
    &&& req.term >= s.current_term
    &&& prev_matches(s.log, req.prev_log_index, req.prev_log_term)
    &&& !rewrites_committed(s, req)
}

/// The commit index after an accepted request: the smaller of the
/// leader's commit index and the index of the last new entry, where that
/// is an advance.
pub open spec fn advanced_commit(commit_index: u64, req: AppendEntriesView) -> int {
    let last_new = req.prev_log_index + req.entries.len();
    let target = if req.leader_commit <= last_new {
        req.leader_commit as int
    } else {
        last_new
    };
    if target > commit_index {
        target
    } else {
        commit_index as int
    }
}

/// The state that an `AppendEntries` request leaves behind.
pub open spec fn after_append_entries(s: RaftStateView, req: AppendEntriesView) -> RaftStateView {
    if req.term < s.current_term {
        s
    } else if !append_entries_accepted(s, req) {
        s.observe_term(req.term)
    } else {
        RaftStateView {
            log: merged_log(s.log, req.prev_log_index, req.entries),
            commit_index: advanced_commit(s.commit_index, req) as u64,
            ..s.observe_term(req.term)
        }
    }
}

/// The agreeing prefix is no longer than the entries and stays inside
/// the log; each entry in it has the term of the local entry, and the
/// entry behind it, if the log reaches that far, has not.
pub proof fn lemma_agreeing_prefix(log: Seq<LogEntryView>, at: int, entries: Seq<LogEntryView>)
    requires
        0 <= at,
    ensures
        agreeing_prefix(log, at, entries) <= entries.len(),
        agreeing_prefix(log, at, entries) > 0 ==> at + agreeing_prefix(log, at, entries) <= log.len(),
        forall|i: int|
            0 <= i < agreeing_prefix(log, at, entries) ==> (#[trigger] log[at + i]).term
                == entries[i].term,
        agreeing_prefix(log, at, entries) < entries.len() && at + agreeing_prefix(log, at, entries)
            < log.len() ==> log[at + agreeing_prefix(log, at, entries)].term
            != entries[agreeing_prefix(log, at, entries) as int].term,
    decreases entries.len(),
{
    if !(entries.len() == 0 || at >= log.len() || log[at].term != entries[0].term) {
        let rest = entries.drop_first();
        lemma_agreeing_prefix(log, at + 1, rest);
        let agree = agreeing_prefix(log, at, entries);
        assert forall|i: int| 0 <= i < agree implies (#[trigger] log[at + i]).term
            == entries[i].term by {
            if i > 0 {
                assert(log[(at + 1) + (i - 1)].term == rest[i - 1].term);
            }
        }
        if agree < entries.len() && at + agree < log.len() {
            assert(rest[agree - 1] == entries[agree as int]);
        }
    }
}

/// Counting the agreeing entries from the front: a count that covers
/// only agreeing entries, and that stops at the end of the entries, at
/// the end of the log or before a differing entry, is the agreeing
/// prefix.
pub proof fn lemma_agreeing_prefix_is(
    log: Seq<LogEntryView>,
    at: int,
    entries: Seq<LogEntryView>,
    count: nat,
)
    requires
        0 <= at,
        count <= entries.len(),
        at + count <= log.len(),
        forall|i: int| 0 <= i < count ==> (#[trigger] log[at + i]).term == entries[i].term,
        count == entries.len() || at + count == log.len() || log[at + count].term
            != entries[count as int].term,
    ensures
        agreeing_prefix(log, at, entries) == count,
    decreases entries.len(),
{
    if count > 0 {
        let rest = entries.drop_first();
        assert(log[at + 0].term == entries[0].term);
        assert forall|i: int| 0 <= i < count - 1 implies (#[trigger] log[(at + 1) + i]).term
            == rest[i].term by {
            assert(log[at + (i + 1)].term == entries[i + 1].term);
        }
        if count < entries.len() {
            assert(rest[count - 1] == entries[count as int]);
        }
        lemma_agreeing_prefix_is(log, at + 1, rest, (count - 1) as nat);
    }
}

/// What an `AppendEntries` request cannot undo: the term does not fall;
/// within a term the vote stays; the commit index does not fall; the
/// entries up to the old commit index stay as they are; and what was
/// applied stays applied.
pub proof fn lemma_append_entries_keeps_the_past(s: RaftStateView, req: AppendEntriesView)
    requires
        s.wf(),
    ensures
        after_append_entries(s, req).wf(),
        after_append_entries(s, req).current_term >= s.current_term,
        after_append_entries(s, req).current_term == s.current_term ==> after_append_entries(
            s,
            req,
        ).voted_for == s.voted_for,
        after_append_entries(s, req).commit_index >= s.commit_index,
        after_append_entries(s, req).log.len() >= s.commit_index,
        after_append_entries(s, req).log.subrange(0, s.commit_index as int) == s.log.subrange(
            0,
            s.commit_index as int,
        ),
        after_append_entries(s, req).last_applied == s.last_applied,
{
    let after = after_append_entries(s, req);
    if req.term >= s.current_term && append_entries_accepted(s, req) {
        lemma_agreeing_prefix(s.log, req.prev_log_index as int, req.entries);
        assert(after.log.subrange(0, s.commit_index as int) =~= s.log.subrange(
            0,
            s.commit_index as int,
        ));
    }
}

/// After an accepted request the log holds the request's entries behind
/// `prev_log_index`, term by term, and what stood before them is as it
/// was.
pub proof fn lemma_append_entries_stores_the_entries(s: RaftStateView, req: AppendEntriesView)
    requires
        s.wf(),
        append_entries_accepted(s, req),
    ensures
        after_append_entries(s, req).log.len() >= req.prev_log_index + req.entries.len(),
        after_append_entries(s, req).log.subrange(0, req.prev_log_index as int) == s.log.subrange(
            0,
            req.prev_log_index as int,
        ),
        forall|i: int|
            0 <= i < req.entries.len() ==> (#[trigger] after_append_entries(
                s,
                req,
            ).log[req.prev_log_index + i]).term == req.entries[i].term,
        forall|i: int|
            agreeing_prefix(s.log, req.prev_log_index as int, req.entries) <= i
                < req.entries.len() ==> #[trigger] after_append_entries(
                s,
                req,
            ).log[req.prev_log_index + i] == req.entries[i],
{
    let after = after_append_entries(s, req);
    lemma_agreeing_prefix(s.log, req.prev_log_index as int, req.entries);
    assert(after.log.subrange(0, req.prev_log_index as int) =~= s.log.subrange(
        0,
        req.prev_log_index as int,
    ));
}

impl View for RaftState {
    type V = RaftStateView;

    open spec fn view(&self) -> RaftStateView {
        RaftStateView {
            current_term: self.current_term,
            voted_for: self.voted_for,
            log: self.log.deep_view(),
            commit_index: self.commit_index,
            last_applied: self.last_applied,
        }
    }
}

impl RaftState {
    /// See [`RaftStateView::wf`].
    pub open spec fn wf(&self) -> bool {
        self@.wf()
    }

    /// The state of a node that has seen nothing yet.
    pub fn new() -> (state: Self)
        ensures
            state.wf(),
            state.current_term == 0,
            state.voted_for is None,
            state.log@.len() == 0,
            state.commit_index == 0,
            state.last_applied == 0,
    {
        Self { current_term: 0, voted_for: None, log: Vec::new(), commit_index: 0, last_applied: 0 }
    }

    /// The state of a node that starts again with what it had made
    /// durable: its term, its vote and its log. Nothing counts as
    /// committed or applied yet.
    pub fn restore(current_term: u64, voted_for: Option<u64>, log: Vec<LogEntry>) -> (state: Self)
        ensures
            state.wf(),
            state@ == (RaftStateView {
                current_term,
                voted_for,
                log: log.deep_view(),
                commit_index: 0,
                last_applied: 0,
            }),
    {
        Self { current_term, voted_for, log, commit_index: 0, last_applied: 0 }
    }

    /// Appends `entry` at the end of the log.
    pub fn append_entry(&mut self, entry: LogEntry)
        ensures
            final(self)@ == (RaftStateView { log: old(self)@.log.push(entry@), ..old(self)@ }),
            old(self).wf() ==> final(self).wf(),
    {
        self.log.push(entry);
        assert(self.log.deep_view() =~= old(self).log.deep_view().push(entry@));
    }

    pub fn last_log_index(&self) -> (index: u64)
        ensures
            index == self@.last_log_index(),
    {
        self.log.len() as u64
    }

    pub fn last_log_term(&self) -> (term: u64)
        ensures
            term == self@.last_log_term(),
    {
        let n = self.log.len();
        if n == 0 {
            0
        } else {
            self.log[n - 1].term
        }
    }

    /// The follower's side of log replication, which also serves as the
    /// heartbeat when the request carries no entries.
    ///
    /// A request of a stale term changes nothing. Any other request makes
    /// its term the current one. It is then refused if the log does not
    /// hold an entry of term `prev_log_term` at `prev_log_index`, or if one
    /// of its entries differs from an entry that is already committed.
    /// Otherwise the log is cut before the first entry that differs in
    /// term from the request's, the request's remaining entries are
    /// appended, and the commit index advances to the smaller of the
    /// leader's commit index and the index of the last new entry.
    pub fn handle_append_entries(&mut self, req: AppendEntries) -> (resp: AppendEntriesResponse)
        requires
            old(self).wf(),
        ensures
            final(self).wf(),
            final(self)@ == after_append_entries(old(self)@, req@),
            resp.term == final(self).current_term,
            resp.success == append_entries_accepted(old(self)@, req@),
    {
        if req.term < self.current_term {
            return AppendEntriesResponse { term: self.current_term, success: false };
        }
        if req.term > self.current_term {
            self.current_term = req.term;
            self.voted_for = None;
        }
        let local_len = self.log.len();
        if req.prev_log_index > 0 {
            if req.prev_log_index > local_len as u64 {
                return AppendEntriesResponse { term: self.current_term, success: false };
            }
            if self.log[(req.prev_log_index - 1) as usize].term != req.prev_log_term {
                return AppendEntriesResponse { term: self.current_term, success: false };
            }
        }
        let prev = req.prev_log_index as usize;
        let mut entries = req.entries;
        let ghost new_entries = entries.deep_view();
        let ghost old_log = self.log.deep_view();
        let total = entries.len();
        let mut agree: usize = 0;
        while agree < total && agree < local_len - prev && self.log[prev + agree].term
            == entries[agree].term
            invariant
                prev <= local_len == self.log.len(),
                total == entries.len(),
                agree <= total,
                prev + agree <= local_len,
                self.log.deep_view() == old_log,
                entries.deep_view() == new_entries,
                forall|i: int|
                    0 <= i < agree ==> (#[trigger] old_log[prev + i]).term == new_entries[i].term,
            decreases total - agree,
        {
            agree += 1;
        }
        proof {
            lemma_agreeing_prefix_is(old_log, prev as int, new_entries, agree as nat);
        }
        if agree < total {
            if prev + agree < local_len {
                if ((prev + agree) as u64) < self.commit_index {
                    return AppendEntriesResponse { term: self.current_term, success: false };
                }
                self.log.truncate(prev + agree);
            }
            let mut rest = entries.split_off(agree);
            self.log.append(&mut rest);
            assert(self.log.deep_view() =~= merged_log(old_log, req.prev_log_index, new_entries));
        }
        assert(self.log.deep_view() == merged_log(old_log, req.prev_log_index, new_entries));
        assert(prev + total <= self.log.len());
        let last_new = (prev + total) as u64;
        if req.leader_commit > self.commit_index {
            let target = if req.leader_commit <= last_new {
                req.leader_commit
            } else {
                last_new
            };
            if target > self.commit_index {
                self.commit_index = target;
            }
        }
        AppendEntriesResponse { term: self.current_term, success: true }
    }
}

} // verus!
