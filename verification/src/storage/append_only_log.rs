//! The append-only log of commands: the text of a record, the command a
//! record stands for, what replaying records does to a map, and the
//! records that the log holds.
//!
//! A record is one line of text, `SET <key> <value>` or `DELETE <key>`,
//! its parts divided by single spaces. A key or a value is not empty and
//! holds no whitespace, so that a record tells in one way only where its
//! parts begin and end.

use vstd::prelude::*;
use vstd::string::StringExecFns;

verus! {

/// The characters that Unicode classes as white space.
pub open spec fn is_whitespace(c: char) -> bool {
    let u = c as u32;
    ||| 0x09 <= u <= 0x0d
    ||| u == 0x20
    ||| u == 0x85
    ||| u == 0xa0
    ||| u == 0x1680
    ||| 0x2000 <= u <= 0x200a
    ||| u == 0x2028
    ||| u == 0x2029
    ||| u == 0x202f
    ||| u == 0x205f
    ||| u == 0x3000
}

/// A key or a value that a record can hold: not empty, and free of
/// whitespace.
pub open spec fn is_token(s: Seq<char>) -> bool {
    &&& s.len() > 0
    &&& forall|i: int| 0 <= i < s.len() ==> !is_whitespace(#[trigger] s[i])
}

/// A text that can stand on one line of the log: it holds no line feed.
pub open spec fn is_line(s: Seq<char>) -> bool {
    forall|i: int| 0 <= i < s.len() ==> (#[trigger] s[i]) != '\n'
}

/// A write to the store.
#[derive(Debug)]
pub enum Command {
    Put(String, String),
    Delete(String),
}

/// A write to the store, as mathematical values.
pub enum CommandView {
    Put(Seq<char>, Seq<char>),
    Delete(Seq<char>),
}

impl View for Command {
    type V = CommandView;

    open spec fn view(&self) -> CommandView {
        match self {
            Command::Put(key, value) => CommandView::Put(key@, value@),
            Command::Delete(key) => CommandView::Delete(key@),
        }
    }
}

pub open spec fn set_prefix() -> Seq<char> {
    seq!['S', 'E', 'T', ' ']
}

pub open spec fn delete_prefix() -> Seq<char> {
    seq!['D', 'E', 'L', 'E', 'T', 'E', ' ']
}

impl CommandView {
    /// The key and the value are such as a record can hold.
    pub open spec fn well_formed(self) -> bool {
        match self {
            CommandView::Put(key, value) => is_token(key) && is_token(value),
            CommandView::Delete(key) => is_token(key),
        }
    }

    /// The text of the command's record.
    pub open spec fn record(self) -> Seq<char> {
        match self {
            CommandView::Put(key, value) => set_prefix() + key + seq![' '] + value,
            CommandView::Delete(key) => delete_prefix() + key,
        }
    }

    /// `line` is the record of this command.
    pub open spec fn is_record(self, line: Seq<char>) -> bool {
        self.well_formed() && self.record() == line
    }

    /// The map after the command.
    pub open spec fn apply(self, map: Map<Seq<char>, Seq<char>>) -> Map<Seq<char>, Seq<char>> {
        match self {
            CommandView::Put(key, value) => map.insert(key, value),
            CommandView::Delete(key) => map.remove(key),
        }
    }

    /// The key that the command writes.
    pub open spec fn key(self) -> Seq<char> {
        match self {
            CommandView::Put(key, _) => key,
            CommandView::Delete(key) => key,
        }
    }
}

/// The command that a line is the record of, if it is the record of one.
pub open spec fn record_command(line: Seq<char>) -> Option<CommandView> {
    if exists|c: CommandView| c.is_record(line) {
        Some(choose|c: CommandView| c.is_record(line))
    } else {
        None
    }
}

/// The map after one line of the log: the line's command is applied, and
/// a line that is the record of no command changes nothing.
pub open spec fn apply_line(map: Map<Seq<char>, Seq<char>>, line: Seq<char>) -> Map<
    Seq<char>,
    Seq<char>,
> {
    match record_command(line) {
        Some(command) => command.apply(map),
        None => map,
    }
}

/// The map after the lines of a log were replayed over it, first to last.
pub open spec fn replay(map: Map<Seq<char>, Seq<char>>, lines: Seq<Seq<char>>) -> Map<
    Seq<char>,
    Seq<char>,
>
    decreases lines.len(),
{
    if lines.len() == 0 {
        map
    } else {
        apply_line(replay(map, lines.drop_last()), lines.last())
    }
}

/// The position of the first space in `s` at or behind `from`, or the
/// length of `s` where there is none.
pub open spec fn first_space(s: Seq<char>, from: int) -> int
    decreases s.len() - from,
{
    if from >= s.len() {
        s.len() as int
    } else if s[from] == ' ' {
        from
    } else {
        first_space(s, from + 1)
    }
}

/// The command found by reading a line from the left.
pub open spec fn scan_record(line: Seq<char>) -> Option<CommandView> {
    let n = line.len() as int;
    if n > 4 && line.subrange(0, 4) == set_prefix() {
        let space = first_space(line, 4);
        let key = line.subrange(4, space);
        if space < n && is_token(key) && is_token(line.subrange(space + 1, n)) {
            Some(CommandView::Put(key, line.subrange(space + 1, n)))
        } else {
            None
        }
    } else if n > 7 && line.subrange(0, 7) == delete_prefix() {
        if is_token(line.subrange(7, n)) {
            Some(CommandView::Delete(line.subrange(7, n)))
        } else {
            None
        }
    } else {
        None
    }
}

proof fn lemma_first_space(s: Seq<char>, from: int)
    requires
        0 <= from <= s.len(),
    ensures
        from <= first_space(s, from) <= s.len(),
        first_space(s, from) < s.len() ==> s[first_space(s, from)] == ' ',
        forall|i: int| from <= i < first_space(s, from) ==> s[i] != ' ',
    decreases s.len() - from,
{
    if from < s.len() && s[from] != ' ' {
        lemma_first_space(s, from + 1);
    }
}

proof fn lemma_first_space_is(s: Seq<char>, from: int, at: int)
    requires
        0 <= from <= at <= s.len(),
        forall|i: int| from <= i < at ==> s[i] != ' ',
        at < s.len() ==> s[at] == ' ',
    ensures
        first_space(s, from) == at,
    decreases at - from,
{
    if from < at {
        lemma_first_space_is(s, from + 1, at);
    }
}

/// What is read from a line is a command whose record the line is.
proof fn lemma_scan_sound(line: Seq<char>)
    ensures
        scan_record(line) is Some ==> scan_record(line)->0.is_record(line),
{
    let n = line.len() as int;
    if n > 4 && line.subrange(0, 4) == set_prefix() {
        lemma_first_space(line, 4);
        let space = first_space(line, 4);
        if space < n {
            let key = line.subrange(4, space);
            let value = line.subrange(space + 1, n);
            assert(set_prefix() + key + seq![' '] + value =~= line) by {
                assert(line.subrange(0, 4) =~= set_prefix());
                assert forall|i: int| 0 <= i < 4 implies line[i] == set_prefix()[i] by {
                    assert(line.subrange(0, 4)[i] == line[i]);
                }
            }
        }
    } else if n > 7 && line.subrange(0, 7) == delete_prefix() {
        let key = line.subrange(7, n);
        assert(delete_prefix() + key =~= line) by {
            assert forall|i: int| 0 <= i < 7 implies line[i] == delete_prefix()[i] by {
                assert(line.subrange(0, 7)[i] == line[i]);
            }
        }
    }
}

/// Reading the record of a command from the left finds the command.
proof fn lemma_scan_complete(command: CommandView)
    requires
        command.well_formed(),
    ensures
        scan_record(command.record()) == Some(command),
{
    let line = command.record();
    let n = line.len() as int;
    match command {
        CommandView::Put(key, value) => {
            assert(line.subrange(0, 4) =~= set_prefix());
            let space = 4 + key.len() as int;
            assert forall|i: int| 4 <= i < space implies line[i] != ' ' by {
                assert(line[i] == key[i - 4]);
                assert(!is_whitespace(key[i - 4]));
            }
            assert(line[space] == ' ');
            lemma_first_space_is(line, 4, space);
            assert(line.subrange(4, space) =~= key);
            assert(line.subrange(space + 1, n) =~= value);
        },
        CommandView::Delete(key) => {
            assert(line.subrange(0, 7) =~= delete_prefix());
            assert(line.subrange(0, 4) != set_prefix()) by {
                assert(line.subrange(0, 4)[0] == 'D');
                assert(set_prefix()[0] == 'S');
            }
            assert(line.subrange(7, n) =~= key);
        },
    }
}

/// The command of a line is the one that reading the line from the left
/// finds.
pub proof fn lemma_record_command_is_scan(line: Seq<char>)
    ensures
        record_command(line) == scan_record(line),
{
    lemma_scan_sound(line);
    if exists|c: CommandView| c.is_record(line) {
        let c = choose|c: CommandView| c.is_record(line);
        lemma_scan_complete(c);
    }
}

/// Writing a command down and reading the record back gives the command:
/// no two commands share a record.
pub proof fn lemma_record_round_trip(command: CommandView)
    requires
        command.well_formed(),
    ensures
        record_command(command.record()) == Some(command),
{
    lemma_scan_complete(command);
    lemma_record_command_is_scan(command.record());
}

/// The record of a command is one line.
pub proof fn lemma_record_is_line(command: CommandView)
    requires
        command.well_formed(),
    ensures
        is_line(command.record()),
{
    let line = command.record();
    assert forall|i: int| 0 <= i < line.len() implies (#[trigger] line[i]) != '\n' by {
        match command {
            CommandView::Put(key, value) => {
                if 4 <= i < 4 + key.len() {
                    assert(line[i] == key[i - 4]);
                    assert(!is_whitespace(key[i - 4]));
                } else if i > 4 + key.len() {
                    let j = i - 5 - key.len();
                    assert(line[i] == value[j]);
                    assert(!is_whitespace(value[j]));
                }
            },
            CommandView::Delete(key) => {
                if 7 <= i {
                    assert(line[i] == key[i - 7]);
                    assert(!is_whitespace(key[i - 7]));
                }
            },
        }
    }
}

/// The characters of a string.
fn chars_of(s: &str) -> (chars: Vec<char>)
    ensures
        chars@ == s@,
{
    let mut chars: Vec<char> = Vec::new();
    for c in it: s.chars()
        invariant
            it.seq() == s@,
            chars@ == s@.subrange(0, it.index() as int),
    {
        chars.push(c);
        assert(chars@ =~= s@.subrange(0, it.index() + 1));
    }
    assert(chars@ =~= s@);
    chars
}

fn whitespace(c: char) -> (yes: bool)
    ensures
        yes == is_whitespace(c),
{
    let u = c as u32;
    (0x09 <= u && u <= 0x0d) || u == 0x20 || u == 0x85 || u == 0xa0 || u == 0x1680 || (0x2000 <= u
        && u <= 0x200a) || u == 0x2028 || u == 0x2029 || u == 0x202f || u == 0x205f || u == 0x3000
}

/// Whether the characters from `from` up to `to` are a key or a value.
fn token_between(chars: &Vec<char>, from: usize, to: usize) -> (yes: bool)
    requires
        from <= to <= chars.len(),
    ensures
        yes == is_token(chars@.subrange(from as int, to as int)),
{
    if from == to {
        return false;
    }
    let ghost part = chars@.subrange(from as int, to as int);
    let mut i: usize = from;
    while i < to
        invariant
            from <= i <= to <= chars.len(),
            part == chars@.subrange(from as int, to as int),
            forall|j: int| 0 <= j < i - from ==> !is_whitespace(#[trigger] part[j]),
        decreases to - i,
    {
        if whitespace(chars[i]) {
            assert(is_whitespace(part[i - from]));
            return false;
        }
        i += 1;
    }
    true
}

/// Whether `s` can be a key or a value: it is not empty and holds no
/// whitespace.
pub fn valid_token(s: &str) -> (yes: bool)
    ensures
        yes == is_token(s@),
{
    let chars = chars_of(s);
    assert(chars@.subrange(0, chars@.len() as int) =~= chars@);
    token_between(&chars, 0, chars.len())
}

/// Whether `s` can stand on one line of the log: it holds no line feed.
pub fn valid_line(s: &str) -> (yes: bool)
    ensures
        yes == is_line(s@),
{
    for c in it: s.chars()
        invariant
            it.seq() == s@,
            forall|j: int| 0 <= j < it.index() ==> (#[trigger] s@[j]) != '\n',
    {
        if c == '\n' {
            return false;
        }
    }
    true
}

fn space_from(chars: &Vec<char>, from: usize) -> (at: usize)
    requires
        from <= chars.len(),
    ensures
        at == first_space(chars@, from as int),
        from <= at <= chars.len(),
{
    let mut at: usize = from;
    while at < chars.len() && chars[at] != ' '
        invariant
            from <= at <= chars.len(),
            forall|i: int| from <= i < at ==> chars@[i] != ' ',
        decreases chars.len() - at,
    {
        at += 1;
    }
    proof {
        lemma_first_space_is(chars@, from as int, at as int);
    }
    at
}

/// `String::push` appends one character to the string.
pub assume_specification[ String::push ](s: &mut String, c: char)
    ensures
        final(s)@ == old(s)@.push(c),
;

/// The characters from `from` up to `to`, as a string.
fn string_between(chars: &Vec<char>, from: usize, to: usize) -> (part: String)
    requires
        from <= to <= chars.len(),
    ensures
        part@ == chars@.subrange(from as int, to as int),
{
    let mut part = String::new();
    let mut i: usize = from;
    while i < to
        invariant
            from <= i <= to <= chars.len(),
            part@ == chars@.subrange(from as int, i as int),
        decreases to - i,
    {
        part.push(chars[i]);
        assert(part@ =~= chars@.subrange(from as int, i + 1));
        i += 1;
    }
    part
}

/// Reads a record: the command that `line` is the record of, or `None`
/// where it is the record of none.
pub fn parse_record(line: &str) -> (command: Option<Command>)
    ensures
        match command {
            Some(c) => record_command(line@) == Some(c@),
            None => record_command(line@) is None,
        },
{
    proof {
        lemma_record_command_is_scan(line@);
    }
    let chars = chars_of(line);
    let n = chars.len();
    if n > 4 && chars[0] == 'S' && chars[1] == 'E' && chars[2] == 'T' && chars[3] == ' ' {
        assert(chars@.subrange(0, 4) =~= set_prefix());
        let space = space_from(&chars, 4);
        if space < n && token_between(&chars, 4, space) && token_between(&chars, space + 1, n) {
            Some(Command::Put(string_between(&chars, 4, space), string_between(&chars, space + 1, n)))
        } else {
            None
        }
    } else if n > 7 && chars[0] == 'D' && chars[1] == 'E' && chars[2] == 'L' && chars[3] == 'E'
        && chars[4] == 'T' && chars[5] == 'E' && chars[6] == ' ' {
        assert(chars@.subrange(0, 7) =~= delete_prefix());
        assert(chars@.subrange(0, 4) != set_prefix()) by {
            assert(chars@.subrange(0, 4)[0] == 'D');
            assert(set_prefix()[0] == 'S');
        }
        if token_between(&chars, 7, n) {
            Some(Command::Delete(string_between(&chars, 7, n)))
        } else {
            None
        }
    } else {
        proof {
            if n > 4 && chars@.subrange(0, 4) == set_prefix() {
                assert(chars@.subrange(0, 4)[0] == chars@[0]);
                assert(chars@.subrange(0, 4)[1] == chars@[1]);
                assert(chars@.subrange(0, 4)[2] == chars@[2]);
                assert(chars@.subrange(0, 4)[3] == chars@[3]);
            }
            if n > 7 && chars@.subrange(0, 7) == delete_prefix() {
                assert(chars@.subrange(0, 7)[0] == chars@[0]);
                assert(chars@.subrange(0, 7)[1] == chars@[1]);
                assert(chars@.subrange(0, 7)[2] == chars@[2]);
                assert(chars@.subrange(0, 7)[3] == chars@[3]);
                assert(chars@.subrange(0, 7)[4] == chars@[4]);
                assert(chars@.subrange(0, 7)[5] == chars@[5]);
                assert(chars@.subrange(0, 7)[6] == chars@[6]);
            }
        }
        None
    }
}

/// The record of a `SET`.
pub fn set_record(key: &str, value: &str) -> (record: String)
    ensures
        record@ == CommandView::Put(key@, value@).record(),
{
    proof {
        reveal_strlit("SET ");
        reveal_strlit(" ");
    }
    let mut record = String::from_str("SET ");
    assert(record@ =~= set_prefix());
    record.append(key);
    record.append(" ");
    assert(" "@ =~= seq![' ']);
    record.append(value);
    record
}

/// The record of a `DELETE`.
pub fn delete_record(key: &str) -> (record: String)
    ensures
        record@ == CommandView::Delete(key@).record(),
{
    proof {
        reveal_strlit("DELETE ");
    }
    let mut record = String::from_str("DELETE ");
    assert(record@ =~= delete_prefix());
    record.append(key);
    record
}

/// Writes a record: the text that stands for `command` in the log.
pub fn encode_record(command: &Command) -> (record: String)
    ensures
        record@ == command@.record(),
{
    match command {
        Command::Put(key, value) => set_record(key.as_str(), value.as_str()),
        Command::Delete(key) => delete_record(key.as_str()),
    }
}

/// The last line of `lines` whose command writes `key`, if there is one.
pub open spec fn last_write(lines: Seq<Seq<char>>, key: Seq<char>) -> Option<CommandView>
    decreases lines.len(),
{
    if lines.len() == 0 {
        None
    } else {
        match record_command(lines.last()) {
            Some(command) if command.key() == key => Some(command),
            _ => last_write(lines.drop_last(), key),
        }
    }
}

/// What a replay leaves under `key`: the value of the last `SET` of the
/// key that no `DELETE` of it follows; without any write to the key, what
/// the map held before.
pub open spec fn value_after(
    map: Map<Seq<char>, Seq<char>>,
    lines: Seq<Seq<char>>,
    key: Seq<char>,
) -> Option<Seq<char>> {
    match last_write(lines, key) {
        Some(CommandView::Put(_, value)) => Some(value),
        Some(CommandView::Delete(_)) => None,
        None => if map.contains_key(key) {
            Some(map[key])
        } else {
            None
        },
    }
}

/// A read after a replay returns the value of the most recent `SET` of
/// the key that is not followed by a `DELETE` of it, or nothing; a key
/// that the lines do not write keeps what the map held before.
pub proof fn lemma_replay_last_write(
    map: Map<Seq<char>, Seq<char>>,
    lines: Seq<Seq<char>>,
    key: Seq<char>,
)
    ensures
        match value_after(map, lines, key) {
            Some(value) => replay(map, lines).contains_key(key) && replay(map, lines)[key] == value,
            None => !replay(map, lines).contains_key(key),
        },
    decreases lines.len(),
{
    if lines.len() > 0 {
        lemma_replay_last_write(map, lines.drop_last(), key);
    }
}

/// Replaying lines over an empty store and reading `key` gives the value
/// of the most recent `SET` of the key that no `DELETE` of it follows,
/// or nothing.
pub proof fn lemma_read_after_writes(lines: Seq<Seq<char>>, key: Seq<char>)
    ensures
        match last_write(lines, key) {
            Some(CommandView::Put(_, value)) => replay(Map::empty(), lines).contains_key(key)
                && replay(Map::empty(), lines)[key] == value,
            _ => !replay(Map::empty(), lines).contains_key(key),
        },
{
    lemma_replay_last_write(Map::empty(), lines, key);
}

/// Replaying one part of a log and then the rest is replaying the whole.
pub proof fn lemma_replay_concat(
    map: Map<Seq<char>, Seq<char>>,
    first: Seq<Seq<char>>,
    second: Seq<Seq<char>>,
)
    ensures
        replay(map, first + second) == replay(replay(map, first), second),
    decreases second.len(),
{
    if second.len() == 0 {
        assert(first + second =~= first);
    } else {
        assert((first + second).drop_last() =~= first + second.drop_last());
        lemma_replay_concat(map, first, second.drop_last());
    }
}

/// Replaying one more line applies it to what the lines before gave.
pub proof fn lemma_replay_push(
    map: Map<Seq<char>, Seq<char>>,
    lines: Seq<Seq<char>>,
    line: Seq<char>,
)
    ensures
        replay(map, lines.push(line)) == apply_line(replay(map, lines), line),
{
    assert(lines.push(line).drop_last() =~= lines);
}

/// Replaying a log a second time changes nothing: a snapshot taken
/// after a replay may be followed by the same log again.
pub proof fn lemma_replay_idempotent(map: Map<Seq<char>, Seq<char>>, lines: Seq<Seq<char>>)
    ensures
        replay(replay(map, lines), lines) == replay(map, lines),
{
    let once = replay(map, lines);
    let twice = replay(once, lines);
    assert forall|key: Seq<char>| #[trigger]
        twice.dom().contains(key) == once.dom().contains(key) && (once.dom().contains(key)
            ==> twice[key] == once[key]) by {
        lemma_replay_last_write(map, lines, key);
        lemma_replay_last_write(once, lines, key);
    }
    assert(twice =~= once);
}

/// The records that stand for a state: one `SET` for each pair, in the
/// order of the pairs.
pub open spec fn state_records(state: Seq<(Seq<char>, Seq<char>)>) -> Seq<Seq<char>> {
    Seq::new(state.len(), |i: int| CommandView::Put(state[i].0, state[i].1).record())
}

/// Every key and every value of the state is such as a record can hold.
pub open spec fn recordable(state: Seq<(Seq<char>, Seq<char>)>) -> bool {
    forall|i: int|
        0 <= i < state.len() ==> is_token((#[trigger] state[i]).0) && is_token(state[i].1)
}

/// The records of a state, replayed over an empty store, give the state.
pub proof fn lemma_state_records_replay(state: Seq<(Seq<char>, Seq<char>)>)
    requires
        recordable(state),
    ensures
        replay(Map::empty(), state_records(state)) == crate::storage::in_memory_db::pairs_to_map(
            state,
        ),
    decreases state.len(),
{
    if state.len() > 0 {
        let front = state.drop_last();
        assert(state_records(state).drop_last() =~= state_records(front));
        lemma_state_records_replay(front);
        lemma_record_round_trip(CommandView::Put(state.last().0, state.last().1));
    }
}

/// The text of a log file that holds `lines`: each line, followed by a
/// line feed.
pub open spec fn file_text(lines: Seq<Seq<char>>) -> Seq<char>
    decreases lines.len(),
{
    if lines.len() == 0 {
        Seq::empty()
    } else {
        file_text(lines.drop_last()) + lines.last() + seq!['\n']
    }
}

/// Each of the texts can stand on one line.
pub open spec fn all_lines(lines: Seq<Seq<char>>) -> bool {
    forall|i: int| 0 <= i < lines.len() ==> is_line(#[trigger] lines[i])
}

/// `lines` are the lines of a log file of the text `content`: the file
/// begins with the lines, each followed by its line feed, and what comes
/// behind them, a record not written to its end, holds no line feed.
pub open spec fn is_file_of(lines: Seq<Seq<char>>, content: Seq<char>) -> bool {
    &&& all_lines(lines)
    &&& file_text(lines).len() <= content.len()
    &&& content.subrange(0, file_text(lines).len() as int) == file_text(lines)
    &&& is_line(content.subrange(file_text(lines).len() as int, content.len() as int))
}

/// The position behind the last line feed of a text, or 0 where it
/// holds none.
pub open spec fn end_of_last_line(content: Seq<char>) -> int
    decreases content.len(),
{
    if content.len() == 0 {
        0
    } else if content.last() == '\n' {
        content.len() as int
    } else {
        end_of_last_line(content.drop_last())
    }
}

/// The lines of a log file end where the last line feed of its text is.
pub proof fn lemma_file_ends_at_last_line_feed(lines: Seq<Seq<char>>, content: Seq<char>)
    requires
        is_file_of(lines, content),
    ensures
        file_text(lines).len() == end_of_last_line(content),
    decreases content.len(),
{
    let text = file_text(lines);
    if content.len() > 0 {
        if text.len() == content.len() {
            assert(content.subrange(0, content.len() as int) =~= content);
            if lines.len() == 0 {
                assert(text.len() == 0);
            }
        } else {
            let tail = content.subrange(text.len() as int, content.len() as int);
            assert(tail[tail.len() - 1] == content.last());
            let shorter = content.drop_last();
            assert(shorter.subrange(0, text.len() as int) =~= text);
            assert forall|i: int| 0 <= i < shorter.len() - text.len() implies (
            #[trigger] shorter.subrange(text.len() as int, shorter.len() as int)[i]) != '\n' by {
                assert(tail[i] == content[text.len() + i]);
            }
            lemma_file_ends_at_last_line_feed(lines, shorter);
        }
    }
}

/// A text is the log file of one sequence of lines only.
pub proof fn lemma_file_has_one_reading(a: Seq<Seq<char>>, b: Seq<Seq<char>>, content: Seq<char>)
    requires
        is_file_of(a, content),
        is_file_of(b, content),
    ensures
        a == b,
    decreases a.len(),
{
    lemma_file_ends_at_last_line_feed(a, content);
    lemma_file_ends_at_last_line_feed(b, content);
    let text = file_text(a);
    assert(file_text(b) == text);
    if a.len() == 0 || b.len() == 0 {
        assert(a =~= b);
    } else {
        let body = text.drop_last();
        let a_front = a.drop_last();
        let b_front = b.drop_last();
        assert(is_file_of(a_front, body)) by {
            assert(body.subrange(0, file_text(a_front).len() as int) =~= file_text(a_front));
            assert(body.subrange(file_text(a_front).len() as int, body.len() as int) =~= a.last());
            assert(is_line(a[a.len() - 1]));
            assert forall|i: int| 0 <= i < a_front.len() implies is_line(#[trigger] a_front[i]) by {
                assert(a_front[i] == a[i]);
            }
        }
        assert(is_file_of(b_front, body)) by {
            assert(body.subrange(0, file_text(b_front).len() as int) =~= file_text(b_front));
            assert(body.subrange(file_text(b_front).len() as int, body.len() as int) =~= b.last());
            assert(is_line(b[b.len() - 1]));
            assert forall|i: int| 0 <= i < b_front.len() implies is_line(#[trigger] b_front[i]) by {
                assert(b_front[i] == b[i]);
            }
        }
        lemma_file_ends_at_last_line_feed(a_front, body);
        lemma_file_ends_at_last_line_feed(b_front, body);
        lemma_file_has_one_reading(a_front, b_front, body);
        assert(a.last() =~= body.subrange(file_text(a_front).len() as int, body.len() as int));
        assert(b.last() =~= body.subrange(file_text(b_front).len() as int, body.len() as int));
        assert(a =~= a_front.push(a.last()));
        assert(b =~= b_front.push(b.last()));
    }
}

/// Lines that are written to a file are the lines that are read from it.
pub proof fn lemma_file_round_trip(lines: Seq<Seq<char>>)
    requires
        all_lines(lines),
    ensures
        is_file_of(lines, file_text(lines)),
{
    let text = file_text(lines);
    assert(text.subrange(0, text.len() as int) =~= text);
}

/// The records of a state can each stand on one line.
pub proof fn lemma_state_records_are_lines(state: Seq<(Seq<char>, Seq<char>)>)
    requires
        recordable(state),
    ensures
        all_lines(state_records(state)),
{
    assert forall|i: int| 0 <= i < state.len() implies is_line(
        #[trigger] state_records(state)[i],
    ) by {
        lemma_record_is_line(CommandView::Put(state[i].0, state[i].1));
    }
}

/// The records of the log, as the log file holds them line by line.
pub struct AppendOnlyLog {
    records: Vec<String>,
}

impl View for AppendOnlyLog {
    type V = Seq<Seq<char>>;

    closed spec fn view(&self) -> Seq<Seq<char>> {
        self.records.deep_view()
    }
}

impl AppendOnlyLog {
    /// Each record stands on one line.
    pub open spec fn wf(&self) -> bool {
        all_lines(self@)
    }

    /// An empty log.
    pub fn new() -> (log: Self)
        ensures
            log.wf(),
            log@ == Seq::<Seq<char>>::empty(),
    {
        let log = AppendOnlyLog { records: Vec::new() };
        assert(log@ =~= Seq::<Seq<char>>::empty());
        log
    }

    /// The log that a file of the text `content` holds: its lines, up
    /// to the last line feed. What follows the last line feed is a record
    /// that was not written to its end; it is left out, and `intact` says
    /// whether there was nothing of the kind.
    pub fn load(content: &str) -> (loaded: (Self, bool))
        ensures
            loaded.0.wf(),
            is_file_of(loaded.0@, content@),
            loaded.1 == (file_text(loaded.0@).len() == content@.len()),
    {
        let chars = chars_of(content);
        let n = chars.len();
        let mut records: Vec<String> = Vec::new();
        let mut start: usize = 0;
        let mut i: usize = 0;
        while i < n
            invariant
                start <= i <= n == chars.len(),
                all_lines(records.deep_view()),
                file_text(records.deep_view()) == chars@.subrange(0, start as int),
                is_line(chars@.subrange(start as int, i as int)),
            decreases n - i,
        {
            if chars[i] == '\n' {
                let record = string_between(&chars, start, i);
                let ghost before = records.deep_view();
                records.push(record);
                proof {
                    let after = records.deep_view();
                    assert(after =~= before.push(record@));
                    assert(after.drop_last() =~= before);
                    assert(file_text(after) =~= chars@.subrange(0, i + 1));
                    assert(chars@.subrange(i + 1, i + 1) =~= Seq::<char>::empty());
                }
                start = i + 1;
            } else {
                assert forall|j: int| 0 <= j < i + 1 - start implies (#[trigger] chars@.subrange(
                    start as int,
                    i + 1,
                )[j]) != '\n' by {
                    if j < i - start {
                        assert(chars@.subrange(start as int, i as int)[j] == chars@[start + j]);
                    }
                }
            }
            i += 1;
        }
        let log = AppendOnlyLog { records };
        (log, start == n)
    }

    /// The text of the log file: each record, followed by a line feed.
    pub fn text(&self) -> (content: String)
        ensures
            content@ == file_text(self@),
    {
        let mut content = String::new();
        let mut i: usize = 0;
        while i < self.records.len()
            invariant
                i <= self.records.len(),
                content@ == file_text(self@.subrange(0, i as int)),
            decreases self.records.len() - i,
        {
            proof {
                reveal_strlit("\n");
                assert(self@.subrange(0, i + 1).drop_last() =~= self@.subrange(0, i as int));
                assert("\n"@ =~= seq!['\n']);
            }
            content.append(self.records[i].as_str());
            content.append("\n");
            i += 1;
        }
        assert(self@.subrange(0, i as int) =~= self@);
        content
    }

    /// The number of records.
    pub fn len(&self) -> (n: usize)
        ensures
            n == self@.len(),
    {
        self.records.len()
    }

    /// Appends one record. A text that holds a line feed is no record:
    /// it is refused, and the log stays as it is.
    pub fn append(&mut self, command: &str) -> (appended: bool)
        requires
            old(self).wf(),
        ensures
            final(self).wf(),
            appended == is_line(command@),
            final(self)@ == if appended {
                old(self)@.push(command@)
            } else {
                old(self)@
            },
    {
        if !valid_line(command) {
            return false;
        }
        self.records.push(String::from_str(command));
        assert(self@ =~= old(self)@.push(command@));
        true
    }

    /// Appends the records of `other`, in their order.
    pub fn extend(&mut self, other: &AppendOnlyLog)
        requires
            old(self).wf(),
            other.wf(),
        ensures
            final(self).wf(),
            final(self)@ == old(self)@ + other@,
    {
        let mut i: usize = 0;
        while i < other.records.len()
            invariant
                i <= other.records.len(),
                other.wf(),
                self.wf(),
                self@ == old(self)@ + other@.subrange(0, i as int),
            decreases other.records.len() - i,
        {
            self.records.push(other.records[i].clone());
            proof {
                let line = other@[i as int];
                assert(is_line(line));
                assert(self@ =~= (old(self)@ + other@.subrange(0, i as int)).push(line));
                assert(other@.subrange(0, i + 1) =~= other@.subrange(0, i as int).push(line));
                assert(old(self)@ + other@.subrange(0, i + 1) =~= (old(self)@ + other@.subrange(
                    0,
                    i as int,
                )).push(line));
            }
            i += 1;
        }
        assert(other@.subrange(0, i as int) =~= other@);
    }

    /// The records in the order in which they were appended.
    pub fn replay(&self) -> (commands: Vec<String>)
        ensures
            commands.deep_view() == self@,
    {
        let mut commands: Vec<String> = Vec::new();
        let mut i: usize = 0;
        while i < self.records.len()
            invariant
                i <= self.records.len(),
                commands.len() == i,
                forall|j: int| 0 <= j < i ==> commands[j]@ == self.records[j]@,
            decreases self.records.len() - i,
        {
            commands.push(self.records[i].clone());
            i += 1;
        }
        assert(commands.deep_view() =~= self@);
        commands
    }

    /// Replaces the records by the shortest log that gives `state`: one
    /// `SET` for each pair, in the order of the pairs. A state with a key
    /// or a value that no record can hold is refused, and the log stays
    /// as it is.
    pub fn compact(&mut self, state: &Vec<(String, String)>) -> (compacted: bool)
        requires
            old(self).wf(),
        ensures
            final(self).wf(),
            compacted == recordable(state.deep_view()),
            final(self)@ == if compacted {
                state_records(state.deep_view())
            } else {
                old(self)@
            },
    {
        let mut records: Vec<String> = Vec::new();
        let mut i: usize = 0;
        while i < state.len()
            invariant
                self.wf(),
                self@ == old(self)@,
                i <= state.len(),
                records.len() == i,
                forall|j: int|
                    0 <= j < i ==> is_token((#[trigger] state.deep_view()[j]).0) && is_token(
                        state.deep_view()[j].1,
                    ),
                forall|j: int|
                    0 <= j < i ==> (#[trigger] records[j])@ == CommandView::Put(
                        state[j].0@,
                        state[j].1@,
                    ).record(),
            decreases state.len() - i,
        {
            let key = state[i].0.as_str();
            let value = state[i].1.as_str();
            assert(state.deep_view()[i as int] == (key@, value@));
            if !valid_token(key) || !valid_token(value) {
                return false;
            }
            records.push(set_record(key, value));
            i += 1;
        }
        self.records = records;
        proof {
            assert(self@ =~= state_records(state.deep_view()));
            lemma_state_records_are_lines(state.deep_view());
        }
        true
    }

    /// Removes every record.
    pub fn clear(&mut self)
        ensures
            final(self).wf(),
            final(self)@ == Seq::<Seq<char>>::empty(),
    {
        self.records = Vec::new();
        assert(self@ =~= Seq::<Seq<char>>::empty());
    }
}

} // verus!
