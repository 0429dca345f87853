//! The storage engine: the in-memory map and the append-only log, kept
//! in step so that the map is always what a restart would rebuild.
//!
//! The engine writes no file. Of each write the caller first makes the
//! record durable and then tells the engine; of each snapshot the engine
//! hands out the bytes, and the caller reports whether they reached the
//! disk. Between the two the engine accepts no write.

use crate::network::message::{Response, ResponseView};
use crate::storage::append_only_log::{
    AppendOnlyLog,
    Command,
    CommandView,
    all_lines,
    apply_line,
    delete_record,
    file_text,
    is_line,
    is_token,
    last_write,
    lemma_read_after_writes,
    lemma_record_is_line,
    lemma_record_round_trip,
    lemma_replay_concat,
    lemma_replay_idempotent,
    lemma_replay_push,
    lemma_state_records_replay,
    parse_record,
    record_command,
    recordable,
    replay,
    set_record,
    state_records,
    valid_token,
};
use crate::storage::in_memory_db::{
    InMemoryDB,
    distinct_keys,
    lemma_pairs_to_map_distinct,
    pairs_to_map,
};
use vstd::prelude::*;
use vstd::string::StringExecFns;

verus! {

/// The number of writes after which a snapshot is due, unless another is
/// chosen.
pub const DEFAULT_COMPACTION_THRESHOLD: usize = 5;

/// The number of writes after which a snapshot should be due where the
/// store carries real load.
pub const PRODUCTION_COMPACTION_THRESHOLD: usize = 10000;

/// `bincode::ErrorKind`, why `bincode` could not write or read a value.
/// Nothing is known of what it holds.
#[verifier::external_type_specification]
#[verifier::external_body]
pub struct ExBincodeErrorKind(bincode::ErrorKind);

/// The bytes that `bincode::serialize` gives for a state with the index
/// and the term of the last entry it reflects, or `None` where it fails.
pub uninterp spec fn snapshot_bytes(state: Seq<(Seq<char>, Seq<char>)>, index: u64, term: u64) -> Option<
    Seq<u8>,
>;

/// The state, the index and the term that `bincode::deserialize` reads
/// from the bytes, or `None` where it finds none in them.
pub uninterp spec fn snapshot_contents(bytes: Seq<u8>) -> Option<
    (Seq<(Seq<char>, Seq<char>)>, u64, u64),
>;

/// `bincode::serialize`, on a state with the index and the term of the
/// last entry it reflects. The bytes depend on these three alone.
#[verifier::external_body]
fn encode_snapshot(state: &Vec<(String, String)>, index: u64, term: u64) -> (encoded: Result<
    Vec<u8>,
    Box<bincode::ErrorKind>,
>)
    ensures
        match encoded {
            Ok(bytes) => snapshot_bytes(state.deep_view(), index, term) == Some(bytes@),
            Err(_) => snapshot_bytes(state.deep_view(), index, term) is None,
        },
{
    bincode::serialize(&(state, index, term))
}

/// `bincode::deserialize`, for a state with the index and the term of
/// the last entry it reflects. What is read depends on the bytes alone.
#[verifier::external_body]
fn decode_snapshot(bytes: &[u8]) -> (decoded: Result<
    (Vec<(String, String)>, u64, u64),
    Box<bincode::ErrorKind>,
>)
    ensures
        match decoded {
            Ok(contents) => snapshot_contents(bytes@) == Some(
                (contents.0.deep_view(), contents.1, contents.2),
            ),
            Err(_) => snapshot_contents(bytes@) is None,
        },
{
    bincode::deserialize(bytes)
}

/// Why the engine did not do what it was asked.
#[derive(Debug, Clone, Copy, PartialEq, Eq, Structural)]
pub enum StorageError {
    /// A snapshot or a rewrite of the log is under way.
    Busy,
    /// The bytes hold no snapshot, or one with a key or a value that no
    /// record can hold.
    Corrupted,
}

/// Where the engine stands between two writes.
#[derive(Debug, Clone, Copy, PartialEq, Eq, Structural)]
pub enum Phase {
    /// Writes are accepted.
    Ready,
    /// The bytes of a snapshot were handed out and are not yet reported
    /// as saved.
    SavingSnapshot,
    /// The snapshot is saved, and the log is not yet reported as cleared.
    ClearingLog,
    /// The records of a compacted log were handed out and are not yet
    /// reported as written.
    RewritingLog,
}

/// Every key and every value of the map is such as a record can hold.
pub open spec fn tokens_only(map: Map<Seq<char>, Seq<char>>) -> bool {
    forall|k: Seq<char>| #[trigger] map.contains_key(k) ==> is_token(k) && is_token(map[k])
}

/// The answer to a write that came while a snapshot or a rewrite of the
/// log was under way.
pub open spec fn busy_text() -> Seq<char> {
    "storage is busy"@
}

/// The answer to a write whose record did not reach the log.
pub open spec fn not_durable_text() -> Seq<char> {
    "log append failed"@
}

/// The answer to a command that holds a line feed.
pub open spec fn malformed_text() -> Seq<char> {
    "malformed command"@
}

/// The answer to a command that is the record of no write.
pub open spec fn unknown_text() -> Seq<char> {
    "unknown command"@
}

/// The engine as mathematical values.
pub struct StorageView {
    /// What reads are served from.
    pub mem: Map<Seq<char>, Seq<char>>,
    /// The lines of the log file.
    pub log: Seq<Seq<char>>,
    /// What the snapshot file holds; empty where there is none.
    pub snapshot: Map<Seq<char>, Seq<char>>,
    /// Whether there is a snapshot file.
    pub has_snapshot: bool,
    /// Every line that was carried out since the store was empty. For an
    /// engine that took over a snapshot, the snapshot's records stand for
    /// what went before.
    pub history: Seq<Seq<char>>,
    /// The writes since the log was last cleared or rewritten.
    pub operation_count: usize,
    pub compaction_threshold: usize,
    /// The index of the last consensus entry that was applied.
    pub last_index: u64,
    /// The term of the last consensus entry that was applied.
    pub last_term: u64,
    pub phase: Phase,
}

impl StorageView {
    /// The map is what a restart would rebuild, the replay of the log
    /// over the snapshot; and it holds nothing that no record can hold.
    pub open spec fn wf(self) -> bool {
        &&& self.mem == replay(self.snapshot, self.log)
        &&& self.mem == replay(Map::empty(), self.history)
        &&& all_lines(self.log)
        &&& tokens_only(self.mem)
        &&& !self.has_snapshot ==> self.snapshot == Map::<Seq<char>, Seq<char>>::empty()
        &&& self.phase == Phase::ClearingLog ==> self.snapshot == self.mem
        &&& self.phase == Phase::RewritingLog ==> !self.has_snapshot
    }

    /// A snapshot is due: the engine is ready, and the writes since the
    /// log was last cleared have reached the threshold.
    pub open spec fn snapshot_due(self) -> bool {
        self.phase == Phase::Ready && self.operation_count >= self.compaction_threshold
    }

    /// The engine after one more line reached the log and was carried
    /// out.
    pub open spec fn after_write(self, line: Seq<char>) -> StorageView {
        StorageView {
            mem: apply_line(self.mem, line),
            log: self.log.push(line),
            history: self.history.push(line),
            operation_count: if self.operation_count < usize::MAX {
                (self.operation_count + 1) as usize
            } else {
                self.operation_count
            },
            ..self
        }
    }

    /// A committed command is carried out: the engine is ready, the
    /// command's record is durable, and the command stands on one line.
    pub open spec fn applies(self, command: Seq<char>, durable: bool) -> bool {
        self.phase == Phase::Ready && durable && is_line(command)
    }

    /// The engine after the consensus entry of index `index` and term
    /// `term` was handed over.
    pub open spec fn after_apply(
        self,
        index: u64,
        term: u64,
        command: Seq<char>,
        durable: bool,
    ) -> StorageView {
        if self.applies(command, durable) {
            StorageView { last_index: index, last_term: term, ..self.after_write(command) }
        } else {
            self
        }
    }

    /// The answer to a committed command.
    pub open spec fn apply_response(self, command: Seq<char>, durable: bool) -> ResponseView {
        if self.phase != Phase::Ready {
            ResponseView::Error(busy_text())
        } else if !durable {
            ResponseView::Error(not_durable_text())
        } else if !is_line(command) {
            ResponseView::Error(malformed_text())
        } else {
            match record_command(command) {
                Some(CommandView::Put(_, _)) => ResponseView::Success(true),
                Some(CommandView::Delete(key)) => ResponseView::Success(self.mem.contains_key(key)),
                None => ResponseView::Error(unknown_text()),
            }
        }
    }

    /// The engine after the caller reported on the snapshot whose bytes
    /// it was given. A saved snapshot holds the map, and the log is to be
    /// cleared next; after a failure the engine is ready again, with its
    /// count of writes as it was, so that a snapshot stays due.
    pub open spec fn after_snapshot_saved(self, saved: bool) -> StorageView {
        if self.phase != Phase::SavingSnapshot {
            self
        } else if saved {
            StorageView {
                snapshot: self.mem,
                has_snapshot: true,
                phase: Phase::ClearingLog,
                ..self
            }
        } else {
            StorageView { phase: Phase::Ready, ..self }
        }
    }

    /// The engine after the caller reported on clearing the log file.
    /// With the log cleared the count of writes starts again; after a
    /// failure the log and the count stay, so that a snapshot stays due.
    pub open spec fn after_log_cleared(self, cleared: bool) -> StorageView {
        if self.phase != Phase::ClearingLog {
            self
        } else if cleared {
            StorageView { log: Seq::empty(), operation_count: 0, phase: Phase::Ready, ..self }
        } else {
            StorageView { phase: Phase::Ready, ..self }
        }
    }

    /// The log may be compacted: the engine is ready, and there is no
    /// snapshot that the records of the map would be replayed over.
    pub open spec fn can_compact(self) -> bool {
        self.phase == Phase::Ready && !self.has_snapshot
    }

    /// The engine after the caller reported on rewriting the log file
    /// with the records of `state`.
    pub open spec fn after_log_rewritten(
        self,
        rewritten: bool,
        state: Seq<(Seq<char>, Seq<char>)>,
    ) -> StorageView {
        if self.phase != Phase::RewritingLog {
            self
        } else if rewritten {
            StorageView {
                log: state_records(state),
                operation_count: 0,
                phase: Phase::Ready,
                ..self
            }
        } else {
            StorageView { phase: Phase::Ready, ..self }
        }
    }

    /// The engine after more lines of the log file were read.
    pub open spec fn after_replay(self, lines: Seq<Seq<char>>) -> StorageView {
        if self.phase == Phase::Ready {
            StorageView {
                mem: replay(self.mem, lines),
                log: self.log + lines,
                history: self.history + lines,
                ..self
            }
        } else {
            self
        }
    }

    /// The engine after a restart that finds the snapshot `state` and
    /// the lines that the engine holds.
    pub open spec fn with_snapshot(
        self,
        state: Seq<(Seq<char>, Seq<char>)>,
        index: u64,
        term: u64,
    ) -> StorageView {
        StorageView {
            mem: replay(pairs_to_map(state), self.log),
            snapshot: pairs_to_map(state),
            has_snapshot: true,
            history: state_records(state) + self.log,
            last_index: index,
            last_term: term,
            ..self
        }
    }
}

/// A line leaves a map of keys and values that records can hold as one.
pub proof fn lemma_apply_line_tokens(map: Map<Seq<char>, Seq<char>>, line: Seq<char>)
    requires
        tokens_only(map),
    ensures
        tokens_only(apply_line(map, line)),
{
    match record_command(line) {
        Some(command) => {
            assert(command.is_record(line));
        },
        None => {},
    }
}

/// A replay leaves a map of keys and values that records can hold as one.
pub proof fn lemma_replay_tokens(map: Map<Seq<char>, Seq<char>>, lines: Seq<Seq<char>>)
    requires
        tokens_only(map),
    ensures
        tokens_only(replay(map, lines)),
    decreases lines.len(),
{
    if lines.len() > 0 {
        lemma_replay_tokens(map, lines.drop_last());
        lemma_apply_line_tokens(replay(map, lines.drop_last()), lines.last());
    }
}

/// The map of pairs that records can hold holds nothing else.
pub proof fn lemma_pairs_tokens(state: Seq<(Seq<char>, Seq<char>)>)
    requires
        recordable(state),
    ensures
        tokens_only(pairs_to_map(state)),
    decreases state.len(),
{
    if state.len() > 0 {
        assert(recordable(state.drop_last())) by {
            assert forall|i: int| 0 <= i < state.drop_last().len() implies is_token(
                (#[trigger] state.drop_last()[i]).0,
            ) && is_token(state.drop_last()[i].1) by {
                assert(state.drop_last()[i] == state[i]);
            }
        }
        lemma_pairs_tokens(state.drop_last());
        assert(is_token(state[state.len() - 1].0));
    }
}

/// Pairs with distinct keys, taken from a map of keys and values that
/// records can hold, are such pairs themselves.
pub proof fn lemma_tokens_pairs(state: Seq<(Seq<char>, Seq<char>)>)
    requires
        distinct_keys(state),
        tokens_only(pairs_to_map(state)),
    ensures
        recordable(state),
{
    assert forall|i: int| 0 <= i < state.len() implies is_token((#[trigger] state[i]).0)
        && is_token(state[i].1) by {
        lemma_pairs_to_map_distinct(state, i);
        assert(pairs_to_map(state).contains_key(state[i].0));
    }
}

/// A read returns the value of the most recent `SET` of the key that no
/// `DELETE` of it follows, among all the lines that the engine carried
/// out, and nothing where there is no such `SET`.
pub proof fn lemma_read_sees_last_write(engine: StorageView, key: Seq<char>)
    requires
        engine.wf(),
    ensures
        match last_write(engine.history, key) {
            Some(CommandView::Put(_, value)) => engine.mem.contains_key(key) && engine.mem[key]
                == value,
            _ => !engine.mem.contains_key(key),
        },
{
    lemma_read_after_writes(engine.history, key);
}

/// Wherever the engine is stopped while it carries out a command, a
/// restart rebuilds the map from the lines that reached the log: the map
/// before the command where the command's record did not reach it, and
/// the map after the command where it did.
pub proof fn lemma_crash_during_apply(engine: StorageView, index: u64, term: u64, command: Seq<char>)
    requires
        engine.wf(),
        engine.applies(command, true),
    ensures
        replay(engine.snapshot, engine.log) == engine.mem,
        replay(engine.snapshot, engine.log.push(command)) == engine.after_apply(
            index,
            term,
            command,
            true,
        ).mem,
        engine.after_apply(index, term, command, true).wf(),
        engine.after_apply(index, term, command, false) == engine,
{
    lemma_replay_push(engine.snapshot, engine.log, command);
    lemma_replay_push(Map::empty(), engine.history, command);
    lemma_apply_line_tokens(engine.mem, command);
    let after = engine.after_apply(index, term, command, true);
    assert forall|i: int| 0 <= i < after.log.len() implies is_line(#[trigger] after.log[i]) by {
        if i < engine.log.len() {
            assert(after.log[i] == engine.log[i]);
        }
    }
}

/// After a snapshot that succeeded, the replay of the log over the
/// snapshot is the map as it was when the snapshot began: with the log
/// not yet cleared, with the log cleared, and with the log left as it
/// was because clearing it failed.
pub proof fn lemma_snapshot_keeps_map(engine: StorageView)
    requires
        engine.wf(),
        engine.phase == Phase::SavingSnapshot,
    ensures
        ({
            let saved = engine.after_snapshot_saved(true);
            let cleared = saved.after_log_cleared(true);
            let kept = saved.after_log_cleared(false);
            &&& saved.wf() && cleared.wf() && kept.wf()
            &&& saved.snapshot == engine.mem
            &&& replay(saved.snapshot, saved.log) == engine.mem
            &&& replay(cleared.snapshot, cleared.log) == engine.mem
            &&& replay(kept.snapshot, kept.log) == engine.mem
            &&& cleared.log.len() == 0
            &&& cleared.mem == engine.mem && kept.mem == engine.mem
        }),
        engine.after_snapshot_saved(false).wf(),
        engine.after_snapshot_saved(false).mem == engine.mem,
        engine.after_snapshot_saved(false).snapshot == engine.snapshot,
        engine.after_snapshot_saved(false).log == engine.log,
{
    lemma_replay_idempotent(engine.snapshot, engine.log);
}

/// A `DELETE` of a key that is not there answers `Success(false)` and
/// changes no pair; so does every `DELETE` that follows a `DELETE` of
/// the same key.
pub proof fn lemma_delete_is_idempotent(engine: StorageView, index: u64, term: u64, key: Seq<char>)
    requires
        engine.wf(),
        engine.phase == Phase::Ready,
        is_token(key),
    ensures
        ({
            let line = CommandView::Delete(key).record();
            let once = engine.after_apply(index, term, line, true);
            let twice = once.after_apply(index, term, line, true);
            &&& engine.apply_response(line, true) == ResponseView::Success(
                engine.mem.contains_key(key),
            )
            &&& once.mem == engine.mem.remove(key)
            &&& once.apply_response(line, true) == ResponseView::Success(false)
            &&& twice.mem == once.mem
        }),
{
    let line = CommandView::Delete(key).record();
    lemma_record_round_trip(CommandView::Delete(key));
    lemma_record_is_line(CommandView::Delete(key));
    let once = engine.after_apply(index, term, line, true);
    assert(once.mem =~= engine.mem.remove(key));
    let twice = once.after_apply(index, term, line, true);
    assert(twice.mem =~= once.mem);
}

/// Carries out the lines on `db`, first to last.
fn replay_into(db: &mut InMemoryDB, lines: &Vec<String>)
    requires
        old(db).wf(),
    ensures
        final(db).wf(),
        final(db)@ == replay(old(db)@, lines.deep_view()),
{
    let mut i: usize = 0;
    while i < lines.len()
        invariant
            i <= lines.len(),
            db.wf(),
            db@ == replay(old(db)@, lines.deep_view().subrange(0, i as int)),
        decreases lines.len() - i,
    {
        proof {
            let done = lines.deep_view().subrange(0, i as int);
            assert(lines.deep_view().subrange(0, i + 1) =~= done.push(lines[i as int]@));
            lemma_replay_push(old(db)@, done, lines[i as int]@);
        }
        match parse_record(lines[i].as_str()) {
            Some(Command::Put(key, value)) => {
                db.set(key, value);
            },
            Some(Command::Delete(key)) => {
                db.delete(key.as_str());
            },
            None => {},
        }
        i += 1;
    }
    assert(lines.deep_view().subrange(0, i as int) =~= lines.deep_view());
}

/// The crash-safe key-value state machine.
pub struct Storage {
    in_memory_db: InMemoryDB,
    append_log: AppendOnlyLog,
    operation_count: usize,
    compaction_threshold: usize,
    last_index: u64,
    last_term: u64,
    phase: Phase,
    has_snapshot: bool,
    snapshot: Ghost<Map<Seq<char>, Seq<char>>>,
    history: Ghost<Seq<Seq<char>>>,
}

impl View for Storage {
    type V = StorageView;

    closed spec fn view(&self) -> StorageView {
        StorageView {
            mem: self.in_memory_db@,
            log: self.append_log@,
            snapshot: self.snapshot@,
            has_snapshot: self.has_snapshot,
            history: self.history@,
            operation_count: self.operation_count,
            compaction_threshold: self.compaction_threshold,
            last_index: self.last_index,
            last_term: self.last_term,
            phase: self.phase,
        }
    }
}

impl Storage {
    /// See [`StorageView::wf`].
    pub closed spec fn wf(&self) -> bool {
        self.in_memory_db.wf() && self@.wf()
    }

    /// What holds of every engine that is well formed.
    pub proof fn lemma_wf(&self)
        requires
            self.wf(),
        ensures
            self@.wf(),
    {
    }

    /// The pairs of the map, each key once, in the order in which a
    /// snapshot and a compacted log list them.
    pub closed spec fn state(&self) -> Seq<(Seq<char>, Seq<char>)> {
        self.in_memory_db.pairs()
    }

    /// The pairs of the engine are its map, and records can hold them.
    pub proof fn lemma_state(&self)
        requires
            self.wf(),
        ensures
            distinct_keys(self.state()),
            recordable(self.state()),
            pairs_to_map(self.state()) == self@.mem,
    {
        self.in_memory_db.lemma_pairs();
        lemma_tokens_pairs(self.state());
    }

    /// An empty engine without a snapshot, with the default threshold.
    pub fn new() -> (storage: Self)
        ensures
            storage.wf(),
            storage@ == Self::empty_view(DEFAULT_COMPACTION_THRESHOLD),
    {
        Self::with_threshold(DEFAULT_COMPACTION_THRESHOLD)
    }

    /// The engine that `with_threshold` builds.
    pub open spec fn empty_view(compaction_threshold: usize) -> StorageView {
        StorageView {
            mem: Map::empty(),
            log: Seq::empty(),
            snapshot: Map::empty(),
            has_snapshot: false,
            history: Seq::empty(),
            operation_count: 0,
            compaction_threshold,
            last_index: 0,
            last_term: 0,
            phase: Phase::Ready,
        }
    }

    /// An empty engine without a snapshot, for which a snapshot is due
    /// after `compaction_threshold` writes.
    pub fn with_threshold(compaction_threshold: usize) -> (storage: Self)
        ensures
            storage.wf(),
            storage@ == Self::empty_view(compaction_threshold),
    {
        Storage {
            in_memory_db: InMemoryDB::new(),
            append_log: AppendOnlyLog::new(),
            operation_count: 0,
            compaction_threshold,
            last_index: 0,
            last_term: 0,
            phase: Phase::Ready,
            has_snapshot: false,
            snapshot: Ghost(Map::empty()),
            history: Ghost(Seq::empty()),
        }
    }

    pub fn phase(&self) -> (phase: Phase)
        ensures
            phase == self@.phase,
    {
        self.phase
    }

    pub fn operation_count(&self) -> (count: usize)
        ensures
            count == self@.operation_count,
    {
        self.operation_count
    }

    /// The index of the last consensus entry that was applied.
    pub fn last_index(&self) -> (index: u64)
        ensures
            index == self@.last_index,
    {
        self.last_index
    }

    /// The term of the last consensus entry that was applied.
    pub fn last_term(&self) -> (term: u64)
        ensures
            term == self@.last_term,
    {
        self.last_term
    }

    /// The text that the log file holds.
    pub fn log_text(&self) -> (content: String)
        ensures
            content@ == file_text(self@.log),
    {
        self.append_log.text()
    }

    /// The lines that the log file holds.
    pub fn log_records(&self) -> (records: Vec<String>)
        ensures
            records.deep_view() == self@.log,
    {
        self.append_log.replay()
    }

    /// Whether a snapshot is due.
    pub fn snapshot_due(&self) -> (due: bool)
        ensures
            due == self@.snapshot_due(),
    {
        self.phase == Phase::Ready && self.operation_count >= self.compaction_threshold
    }

    /// Counts one more write.
    fn count_operation(&mut self)
        ensures
            final(self).operation_count == if old(self).operation_count < usize::MAX {
                (old(self).operation_count + 1) as usize
            } else {
                old(self).operation_count
            },
            final(self).in_memory_db == old(self).in_memory_db,
            final(self).append_log == old(self).append_log,
            final(self).compaction_threshold == old(self).compaction_threshold,
            final(self).last_index == old(self).last_index,
            final(self).last_term == old(self).last_term,
            final(self).phase == old(self).phase,
            final(self).has_snapshot == old(self).has_snapshot,
            final(self).snapshot == old(self).snapshot,
            final(self).history == old(self).history,
    {
        if self.operation_count < usize::MAX {
            self.operation_count = self.operation_count + 1;
        }
    }

    /// Reads `key`.
    pub fn get_in_memory(&self, key: &str) -> (value: Option<String>)
        requires
            self.wf(),
        ensures
            match value {
                Some(v) => self@.mem.contains_key(key@) && v@ == self@.mem[key@],
                None => !self@.mem.contains_key(key@),
            },
    {
        self.in_memory_db.get(key)
    }

    /// Writes `value` under `key`, after the caller has appended the
    /// record `set_record(key, value)` to the log file; `durable` says
    /// whether that succeeded. The write is carried out, and `true`
    /// returned, if and only if the engine is ready, the record is
    /// durable, and the key and the value are such as a record can hold.
    /// Otherwise nothing changes.
    pub fn set_in_memory(&mut self, key: String, value: String, durable: bool) -> (written: bool)
        requires
            old(self).wf(),
        ensures
            final(self).wf(),
            written == (old(self)@.phase == Phase::Ready && durable && is_token(key@) && is_token(
                value@,
            )),
            final(self)@ == if written {
                old(self)@.after_write(CommandView::Put(key@, value@).record())
            } else {
                old(self)@
            },
            written ==> final(self)@.mem == old(self)@.mem.insert(key@, value@),
    {
        if self.phase != Phase::Ready || !durable || !valid_token(key.as_str()) || !valid_token(
            value.as_str(),
        ) {
            return false;
        }
        let record = set_record(key.as_str(), value.as_str());
        proof {
            lemma_record_is_line(CommandView::Put(key@, value@));
            lemma_record_round_trip(CommandView::Put(key@, value@));
            lemma_replay_push(self@.snapshot, self@.log, record@);
            lemma_replay_push(Map::empty(), self@.history, record@);
            lemma_apply_line_tokens(self@.mem, record@);
        }
        self.history = Ghost(self.history@.push(record@));
        self.append_log.append(record.as_str());
        self.in_memory_db.set(key, value);
        self.count_operation();
        true
    }

    /// Deletes `key`, after the caller has appended the record
    /// `delete_record(key)` to the log file; `durable` says whether that
    /// succeeded. The delete is carried out if and only if the engine is
    /// ready, the record is durable, and the key is such as a record can
    /// hold; otherwise nothing changes. Returns whether the delete was
    /// carried out and found the key.
    pub fn delete_in_memory(&mut self, key: &str, durable: bool) -> (removed: bool)
        requires
            old(self).wf(),
        ensures
            final(self).wf(),
            final(self)@ == if old(self)@.phase == Phase::Ready && durable && is_token(key@) {
                old(self)@.after_write(CommandView::Delete(key@).record())
            } else {
                old(self)@
            },
            old(self)@.phase == Phase::Ready && durable && is_token(key@) ==> final(self)@.mem
                == old(self)@.mem.remove(key@),
            removed == (old(self)@.phase == Phase::Ready && durable && is_token(key@)
                && old(self)@.mem.contains_key(key@)),
    {
        if self.phase != Phase::Ready || !durable || !valid_token(key) {
            return false;
        }
        let record = delete_record(key);
        proof {
            lemma_record_is_line(CommandView::Delete(key@));
            lemma_record_round_trip(CommandView::Delete(key@));
            lemma_replay_push(self@.snapshot, self@.log, record@);
            lemma_replay_push(Map::empty(), self@.history, record@);
            lemma_apply_line_tokens(self@.mem, record@);
        }
        self.history = Ghost(self.history@.push(record@));
        self.append_log.append(record.as_str());
        let removed = self.in_memory_db.delete(key);
        self.count_operation();
        removed
    }

    /// Carries out the committed command of the consensus entry of index
    /// `index` and term `term`, after the caller has appended the command
    /// to the log file; `durable` says whether that succeeded.
    ///
    /// While a snapshot is under way, where the command is not durable,
    /// or where it holds a line feed, nothing changes and the answer is
    /// an error. Otherwise the command is counted and remembered as a
    /// line of the log; a `SET` or a `DELETE` is carried out on the map,
    /// and a line that is neither is passed over and answered with an
    /// error.
    pub fn apply(&mut self, index: u64, term: u64, command: &str, durable: bool) -> (response:
        Response)
        requires
            old(self).wf(),
        ensures
            final(self).wf(),
            final(self)@ == old(self)@.after_apply(index, term, command@, durable),
            response@ == old(self)@.apply_response(command@, durable),
    {
        if self.phase != Phase::Ready {
            return Response::Error(String::from_str("storage is busy"));
        }
        if !durable {
            return Response::Error(String::from_str("log append failed"));
        }
        proof {
            lemma_replay_push(self@.snapshot, self@.log, command@);
            lemma_replay_push(Map::empty(), self@.history, command@);
            lemma_apply_line_tokens(self@.mem, command@);
        }
        if !self.append_log.append(command) {
            return Response::Error(String::from_str("malformed command"));
        }
        self.history = Ghost(self.history@.push(command@));
        let response = match parse_record(command) {
            Some(Command::Put(key, value)) => {
                self.in_memory_db.set(key, value);
                Response::Success(true)
            },
            Some(Command::Delete(key)) => {
                let removed = self.in_memory_db.delete(key.as_str());
                Response::Success(removed)
            },
            None => Response::Error(String::from_str("unknown command")),
        };
        self.count_operation();
        self.last_index = index;
        self.last_term = term;
        response
    }

    /// Begins a snapshot: the bytes to write to the snapshot file, which
    /// hold the pairs of the map and the index and the term of the last
    /// entry applied. Until the caller reports with `snapshot_saved`, no
    /// write is accepted. Where the engine is not ready, or the pairs
    /// cannot be encoded, there are no bytes and nothing changes.
    pub fn create_snapshot(&mut self) -> (bytes: Option<Vec<u8>>)
        requires
            old(self).wf(),
        ensures
            final(self).wf(),
            final(self).state() == old(self).state(),
            match bytes {
                Some(encoded) => {
                    &&& old(self)@.phase == Phase::Ready
                    &&& snapshot_bytes(
                        old(self).state(),
                        old(self)@.last_index,
                        old(self)@.last_term,
                    ) == Some(encoded@)
                    &&& final(self)@ == (StorageView {
                        phase: Phase::SavingSnapshot,
                        ..old(self)@
                    })
                },
                None => {
                    &&& old(self)@.phase != Phase::Ready || snapshot_bytes(
                        old(self).state(),
                        old(self)@.last_index,
                        old(self)@.last_term,
                    ) is None
                    &&& final(self)@ == old(self)@
                },
            },
    {
        if self.phase != Phase::Ready {
            return None;
        }
        let state = self.in_memory_db.clone_state();
        match encode_snapshot(&state, self.last_index, self.last_term) {
            Ok(encoded) => {
                self.phase = Phase::SavingSnapshot;
                Some(encoded)
            },
            Err(_) => None,
        }
    }

    /// The caller reports whether the bytes of the snapshot reached the
    /// snapshot file. Outside a snapshot the report changes nothing.
    pub fn snapshot_saved(&mut self, saved: bool)
        requires
            old(self).wf(),
        ensures
            final(self).wf(),
            final(self).state() == old(self).state(),
            final(self)@ == old(self)@.after_snapshot_saved(saved),
    {
        if self.phase == Phase::SavingSnapshot {
            if saved {
                proof {
                    lemma_replay_idempotent(self@.snapshot, self@.log);
                }
                self.snapshot = Ghost(self.in_memory_db@);
                self.has_snapshot = true;
                self.phase = Phase::ClearingLog;
            } else {
                self.phase = Phase::Ready;
            }
        }
    }

    /// The caller reports whether the log file was cleared after the
    /// snapshot. Outside a snapshot the report changes nothing.
    pub fn log_cleared(&mut self, cleared: bool)
        requires
            old(self).wf(),
        ensures
            final(self).wf(),
            final(self).state() == old(self).state(),
            final(self)@ == old(self)@.after_log_cleared(cleared),
    {
        if self.phase == Phase::ClearingLog {
            if cleared {
                self.append_log.clear();
                self.operation_count = 0;
            }
            self.phase = Phase::Ready;
        }
    }

    /// Begins a compaction of the log: the records to replace the log
    /// file with, one `SET` for each pair of the map. Until the caller
    /// reports with `log_rewritten`, no write is accepted. Where the
    /// engine is not ready, or there is a snapshot, there are no records
    /// and nothing changes.
    pub fn compact_log(&mut self) -> (records: Option<Vec<String>>)
        requires
            old(self).wf(),
        ensures
            final(self).wf(),
            final(self).state() == old(self).state(),
            match records {
                Some(lines) => {
                    &&& old(self)@.can_compact()
                    &&& lines.deep_view() == state_records(old(self).state())
                    &&& final(self)@ == (StorageView {
                        phase: Phase::RewritingLog,
                        ..old(self)@
                    })
                },
                None => !old(self)@.can_compact() && final(self)@ == old(self)@,
            },
    {
        if self.phase != Phase::Ready || self.has_snapshot {
            return None;
        }
        let state = self.in_memory_db.clone_state();
        let mut compacted = AppendOnlyLog::new();
        proof {
            self.lemma_state();
        }
        compacted.compact(&state);
        self.phase = Phase::RewritingLog;
        Some(compacted.replay())
    }

    /// The caller reports whether the log file was replaced by the
    /// records of the compaction. Outside a compaction the report changes
    /// nothing.
    pub fn log_rewritten(&mut self, rewritten: bool)
        requires
            old(self).wf(),
        ensures
            final(self).wf(),
            final(self).state() == old(self).state(),
            final(self)@ == old(self)@.after_log_rewritten(rewritten, old(self).state()),
    {
        if self.phase == Phase::RewritingLog {
            if rewritten {
                let state = self.in_memory_db.clone_state();
                proof {
                    self.lemma_state();
                    lemma_state_records_replay(self.state());
                }
                self.append_log.compact(&state);
                self.operation_count = 0;
            }
            self.phase = Phase::Ready;
        }
    }

    /// Takes over a snapshot: the map becomes the replay of the engine's
    /// log over the snapshot's pairs. A snapshot with a key or a value
    /// that no record can hold is corrupted; it is refused, as is any
    /// snapshot while the engine is not ready, and nothing changes.
    pub fn install_snapshot(&mut self, state: Vec<(String, String)>, index: u64, term: u64) -> (result:
        Result<(), StorageError>)
        requires
            old(self).wf(),
        ensures
            final(self).wf(),
            match result {
                Ok(_) => {
                    &&& old(self)@.phase == Phase::Ready
                    &&& recordable(state.deep_view())
                    &&& final(self)@ == old(self)@.with_snapshot(state.deep_view(), index, term)
                },
                Err(StorageError::Busy) => {
                    &&& old(self)@.phase != Phase::Ready
                    &&& final(self)@ == old(self)@
                },
                Err(StorageError::Corrupted) => {
                    &&& old(self)@.phase == Phase::Ready
                    &&& !recordable(state.deep_view())
                    &&& final(self)@ == old(self)@
                },
            },
    {
        if self.phase != Phase::Ready {
            return Err(StorageError::Busy);
        }
        let mut db = InMemoryDB::new();
        let mut i: usize = 0;
        while i < state.len()
            invariant
                i <= state.len(),
                db.wf(),
                db@ == pairs_to_map(state.deep_view().subrange(0, i as int)),
                recordable(state.deep_view().subrange(0, i as int)),
                self.wf(),
                self.phase == Phase::Ready,
                *self == *old(self),
            decreases state.len() - i,
        {
            let key = state[i].0.clone();
            let value = state[i].1.clone();
            proof {
                let done = state.deep_view().subrange(0, i as int);
                let more = state.deep_view().subrange(0, i + 1);
                assert(more.drop_last() =~= done);
                assert(more.last() == (key@, value@));
            }
            if !valid_token(key.as_str()) || !valid_token(value.as_str()) {
                assert(state.deep_view()[i as int] == (key@, value@));
                return Err(StorageError::Corrupted);
            }
            proof {
                let done = state.deep_view().subrange(0, i as int);
                let more = state.deep_view().subrange(0, i + 1);
                assert forall|j: int| 0 <= j < more.len() implies is_token((#[trigger] more[j]).0)
                    && is_token(more[j].1) by {
                    if j < i {
                        assert(done[j] == more[j]);
                    }
                }
            }
            db.set(key, value);
            i += 1;
        }
        proof {
            assert(state.deep_view().subrange(0, i as int) =~= state.deep_view());
            lemma_pairs_tokens(state.deep_view());
            lemma_replay_tokens(db@, self@.log);
            lemma_state_records_replay(state.deep_view());
            lemma_replay_concat(Map::empty(), state_records(state.deep_view()), self@.log);
        }
        let lines = self.append_log.replay();
        self.snapshot = Ghost(db@);
        self.history = Ghost(state_records(state.deep_view()) + self.append_log@);
        replay_into(&mut db, &lines);
        self.in_memory_db = db;
        self.has_snapshot = true;
        self.last_index = index;
        self.last_term = term;
        Ok(())
    }

    /// Reads a snapshot from the bytes of the snapshot file and takes it
    /// over. Bytes that hold no snapshot, or one with a key or a value
    /// that no record can hold, are corrupted.
    pub fn load_snapshot(&mut self, bytes: &[u8]) -> (result: Result<(), StorageError>)
        requires
            old(self).wf(),
        ensures
            final(self).wf(),
            match result {
                Ok(_) => {
                    &&& old(self)@.phase == Phase::Ready
                    &&& snapshot_contents(bytes@) matches Some(contents)
                    &&& recordable(contents.0)
                    &&& final(self)@ == old(self)@.with_snapshot(
                        contents.0,
                        contents.1,
                        contents.2,
                    )
                },
                Err(StorageError::Busy) => {
                    &&& old(self)@.phase != Phase::Ready
                    &&& final(self)@ == old(self)@
                },
                Err(StorageError::Corrupted) => {
                    &&& old(self)@.phase == Phase::Ready
                    &&& match snapshot_contents(bytes@) {
                        Some(contents) => !recordable(contents.0),
                        None => true,
                    }
                    &&& final(self)@ == old(self)@
                },
            },
    {
        if self.phase != Phase::Ready {
            return Err(StorageError::Busy);
        }
        match decode_snapshot(bytes) {
            Ok(contents) => self.install_snapshot(contents.0, contents.1, contents.2),
            Err(_) => Err(StorageError::Corrupted),
        }
    }

    /// Takes over the lines of the log file: each is carried out on the
    /// map, and a line that is the record of no write is passed over.
    /// Returns whether the engine was ready; where it was not, nothing
    /// changes.
    pub fn replay_log(&mut self, log: AppendOnlyLog) -> (replayed: bool)
        requires
            old(self).wf(),
            log.wf(),
        ensures
            final(self).wf(),
            replayed == (old(self)@.phase == Phase::Ready),
            final(self)@ == old(self)@.after_replay(log@),
    {
        if self.phase != Phase::Ready {
            return false;
        }
        let lines = log.replay();
        proof {
            lemma_replay_concat(self@.snapshot, self@.log, log@);
            lemma_replay_concat(Map::empty(), self@.history, log@);
            lemma_replay_tokens(self@.mem, log@);
        }
        self.history = Ghost(self.history@ + log@);
        replay_into(&mut self.in_memory_db, &lines);
        self.append_log.extend(&log);
        true
    }

    /// The engine after a restart: the snapshot is loaded if there is
    /// one, and the lines of the log are replayed over it.
    pub fn recover(snapshot: Option<&[u8]>, log: AppendOnlyLog, compaction_threshold: usize) -> (result:
        Result<Storage, StorageError>)
        requires
            log.wf(),
        ensures
            match result {
                Ok(storage) => {
                    &&& storage.wf()
                    &&& match snapshot {
                        Some(bytes) => {
                            &&& snapshot_contents(bytes@) matches Some(contents)
                            &&& recordable(contents.0)
                            &&& storage@ == Self::empty_view(compaction_threshold).with_snapshot(
                                contents.0,
                                contents.1,
                                contents.2,
                            ).after_replay(log@)
                        },
                        None => storage@ == Self::empty_view(compaction_threshold).after_replay(
                            log@,
                        ),
                    }
                },
                Err(error) => {
                    &&& error == StorageError::Corrupted
                    &&& snapshot matches Some(bytes)
                    &&& match snapshot_contents(bytes@) {
                        Some(contents) => !recordable(contents.0),
                        None => true,
                    }
                },
            },
    {
        let mut storage = Storage::with_threshold(compaction_threshold);
        match snapshot {
            Some(bytes) => {
                match storage.load_snapshot(bytes) {
                    Ok(_) => {},
                    Err(_) => {
                        return Err(StorageError::Corrupted);
                    },
                }
            },
            None => {},
        }
        storage.replay_log(log);
        Ok(storage)
    }
}

} // verus!
