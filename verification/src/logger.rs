//! Structured logging with level filters and bounded history.
use crate::error::{CordisError, ErrorModel};
use crate::id::{EffectId, FiberId, IdSource};
use crate::order::{entries_facts, entry_at, same_text, TextMap};
use crate::text::{characters, decimal, push_decimal, starts_with};
use vstd::prelude::*;

verus! {

#[derive(Clone, Copy, Debug, PartialEq, Eq, PartialOrd, Ord, Structural)]
pub enum LogLevel {
    Trace,
    Debug,
    Info,
    Warn,
    Error,
}

/// Levels from least to most severe.
pub open spec fn severity(level: LogLevel) -> int {
    match level {
        LogLevel::Trace => 0,
        LogLevel::Debug => 1,
        LogLevel::Info => 2,
        LogLevel::Warn => 3,
        LogLevel::Error => 4,
    }
}

/// The level with this name; anything unknown is informational.
pub open spec fn level_named(text: Seq<char>) -> LogLevel {
    if text == "error"@ {
        LogLevel::Error
    } else if text == "warn"@ {
        LogLevel::Warn
    } else if text == "debug"@ {
        LogLevel::Debug
    } else if text == "trace"@ {
        LogLevel::Trace
    } else {
        LogLevel::Info
    }
}

/// The name a level is shown with.
pub open spec fn level_text(level: LogLevel) -> Seq<char> {
    match level {
        LogLevel::Trace => "Trace"@,
        LogLevel::Debug => "Debug"@,
        LogLevel::Info => "Info"@,
        LogLevel::Warn => "Warn"@,
        LogLevel::Error => "Error"@,
    }
}

impl LogLevel {
    fn rank(self) -> (r: u8)
        ensures
            r == severity(self),
    {
        match self {
            LogLevel::Trace => 0,
            LogLevel::Debug => 1,
            LogLevel::Info => 2,
            LogLevel::Warn => 3,
            LogLevel::Error => 4,
        }
    }

    /// The level a guest names.
    pub fn parse(text: &str) -> (r: LogLevel)
        ensures
            r == level_named(text@),
    {
        if same_text(text, "error") {
            LogLevel::Error
        } else if same_text(text, "warn") {
            LogLevel::Warn
        } else if same_text(text, "debug") {
            LogLevel::Debug
        } else if same_text(text, "trace") {
            LogLevel::Trace
        } else {
            LogLevel::Info
        }
    }

    pub fn text(self) -> (r: &'static str)
        ensures
            r@ == level_text(self),
    {
        match self {
            LogLevel::Trace => "Trace",
            LogLevel::Debug => "Debug",
            LogLevel::Info => "Info",
            LogLevel::Warn => "Warn",
            LogLevel::Error => "Error",
        }
    }
}

/// The content of a record.
pub struct RecordModel {
    pub sequence: u64,
    pub level: LogLevel,
    pub target: Seq<char>,
    pub message: Seq<char>,
    pub fiber: Option<FiberId>,
}

#[derive(Clone, Debug, PartialEq, Eq)]
pub struct LogRecord {
    pub sequence: u64,
    pub level: LogLevel,
    pub target: String,
    pub message: String,
    pub fiber: Option<FiberId>,
}

impl View for LogRecord {
    type V = RecordModel;

    open spec fn view(&self) -> RecordModel {
        RecordModel {
            sequence: self.sequence,
            level: self.level,
            target: self.target@,
            message: self.message@,
            fiber: self.fiber,
        }
    }
}

impl LogRecord {
    pub fn duplicate(&self) -> (r: LogRecord)
        ensures
            r@ == self@,
    {
        LogRecord {
            sequence: self.sequence,
            level: self.level,
            target: self.target.clone(),
            message: self.message.clone(),
            fiber: self.fiber,
        }
    }
}

/// Receives every record that passes the filters.
pub trait LogExporter {
    fn export(&self, record: &LogRecord);
}

/// Renders records for a console.
#[derive(Clone, Copy, Debug)]
pub struct ConsoleExporter;

/// A console line.
pub open spec fn console_line(now: Seq<char>, record: RecordModel) -> Seq<char> {
    "["@ + now + "] ["@ + level_text(record.level) + "] ["@ + record.target + "] [fiber="@ + (
    match record.fiber {
        Some(fiber) => decimal(fiber.0 as nat),
        None => "-"@,
    }) + "] "@ + record.message
}

impl ConsoleExporter {
    /// The line shown for a record at a given local time.
    pub fn line(&self, now: &str, record: &LogRecord) -> (r: String)
        ensures
            r@ == console_line(now@, record@),
    {
        let mut fiber = String::new();
        match record.fiber {
            Some(id) => {
                push_decimal(&mut fiber, id.0);
                proof {
                    assert(fiber@ =~= decimal(id.0 as nat));
                }
            },
            None => {
                fiber = "-".to_owned();
            },
        }
        let mut out = "[".to_owned();
        out.append(now);
        out.append("] [");
        out.append(record.level.text());
        out.append("] [");
        out.append(record.target.as_str());
        out.append("] [fiber=");
        out.append(fiber.as_str());
        out.append("] ");
        out.append(record.message.as_str());
        out
    }
}

/// `prefix` is a filter that applies to `target`, and the longest such filter.
pub open spec fn deciding_filter(
    levels: Map<Seq<char>, LogLevel>,
    target: Seq<char>,
    prefix: Seq<char>,
) -> bool {
    &&& levels.dom().contains(prefix)
    &&& prefix.is_prefix_of(target)
    &&& forall|other: Seq<char>| #[trigger]
        levels.dom().contains(other) && other.is_prefix_of(target) ==> other.len() <= prefix.len()
}

/// The least severe level recorded for a target: the longest filter decides.
pub open spec fn minimum_level(levels: Map<Seq<char>, LogLevel>, target: Seq<char>) -> LogLevel {
    if exists|prefix: Seq<char>| #[trigger] deciding_filter(levels, target, prefix) {
        levels[choose|prefix: Seq<char>| #[trigger] deciding_filter(levels, target, prefix)]
    } else {
        LogLevel::Info
    }
}

/// Whether a record passes the filters.
pub open spec fn passes(
    levels: Map<Seq<char>, LogLevel>,
    level: LogLevel,
    target: Seq<char>,
) -> bool {
    severity(level) >= severity(minimum_level(levels, target))
}

/// The history with one more record.
pub open spec fn remembered(
    history: Seq<RecordModel>,
    capacity: nat,
    record: RecordModel,
) -> Seq<RecordModel> {
    if capacity == 0 {
        history
    } else if history.len() == capacity {
        history.drop_first().push(record)
    } else {
        history.push(record)
    }
}

/// What a logger knows: its filters, how many records it keeps, those it keeps, and the number of
/// the next one.
pub struct LogState {
    pub levels: Map<Seq<char>, LogLevel>,
    pub capacity: nat,
    pub history: Seq<RecordModel>,
    pub next_sequence: u64,
}

/// What a new logger knows.
pub open spec fn fresh_log(capacity: nat) -> LogState {
    LogState { levels: Map::empty(), capacity, history: Seq::empty(), next_sequence: 1 }
}

/// A message to be recorded.
pub struct MessageModel {
    pub level: LogLevel,
    pub target: Seq<char>,
    pub message: Seq<char>,
    pub fiber: Option<FiberId>,
}

/// The record of a message.
pub open spec fn recorded(sequence: u64, m: MessageModel) -> RecordModel {
    RecordModel {
        sequence,
        level: m.level,
        target: m.target,
        message: m.message,
        fiber: m.fiber,
    }
}

/// The number after one. The last number is used for good.
pub open spec fn next_number(sequence: u64) -> u64 {
    if sequence < u64::MAX {
        (sequence + 1) as u64
    } else {
        u64::MAX
    }
}

/// What a logger knows after a message.
pub open spec fn logged(s: LogState, m: MessageModel) -> LogState {
    if passes(s.levels, m.level, m.target) {
        LogState {
            history: remembered(s.history, s.capacity, recorded(s.next_sequence, m)),
            next_sequence: next_number(s.next_sequence),
            ..s
        }
    } else {
        s
    }
}

/// A logger with level filters, a bounded history and exporters.
#[derive(Debug)]
pub struct Logger<E> {
    pub next_sequence: u64,
    pub capacity: usize,
    pub records: Vec<LogRecord>,
    pub levels: TextMap<LogLevel>,
    pub exporters: Vec<(u64, E)>,
}

impl<E> Logger<E> {
    /// The history fits its capacity and the filters are in order.
    pub open spec fn wf(&self) -> bool {
        self.levels.wf() && self.records@.len() <= self.capacity
    }

    /// What the logger knows.
    pub open spec fn state(&self) -> LogState {
        LogState {
            levels: self.levels@,
            capacity: self.capacity as nat,
            history: self.history(),
            next_sequence: self.next_sequence,
        }
    }

    pub fn new(capacity: usize) -> (r: Logger<E>)
        ensures
            r.wf(),
            r.state() == fresh_log(capacity as nat),
            r.exporters@.len() == 0,
    {
        let r = Logger {
            next_sequence: 1,
            capacity,
            records: Vec::new(),
            levels: TextMap::new(),
            exporters: Vec::new(),
        };
        proof {
            assert(r.history() =~= Seq::<RecordModel>::empty());
        }
        r
    }

    /// Sets the least severe level recorded below a target.
    pub fn set_level(&mut self, target: String, minimum: LogLevel)
        requires
            old(self).wf(),
        ensures
            final(self).wf(),
            final(self).state() == (LogState {
                levels: old(self).levels@.insert(target@, minimum),
                ..old(self).state()
            }),
            final(self).exporters == old(self).exporters,
    {
        let _ = self.levels.insert(target, minimum);
    }

    /// Registers an exporter owned by `effect`.
    pub fn register_exporter(&mut self, ids: &mut IdSource, effect: EffectId, armed: bool, exporter: E) -> (r:
        Result<u64, CordisError>)
        requires
            old(self).wf(),
            old(ids).next < u64::MAX,
        ensures
            final(self).wf(),
            final(ids).next == old(ids).next + 1,
            final(self).levels == old(self).levels,
            final(self).records == old(self).records,
            final(self).capacity == old(self).capacity,
            final(self).next_sequence == old(self).next_sequence,
            match r {
                Ok(id) => armed && id == old(ids).next && final(self).exporters@
                    == old(self).exporters@.push((id, exporter)),
                Err(error) => !armed && error@ == (ErrorModel::InactiveEffect { effect })
                    && final(self).exporters == old(self).exporters,
            },
    {
        let id = crate::id::next_id(ids);
        if !armed {
            return Err(CordisError::InactiveEffect { effect });
        }
        self.exporters.push((id, exporter));
        Ok(id)
    }

    /// Removes the exporter `id`.
    pub fn remove_exporter(&mut self, id: u64)
        requires
            old(self).wf(),
        ensures
            final(self).wf(),
            final(self).levels == old(self).levels,
            final(self).records == old(self).records,
            final(self).capacity == old(self).capacity,
            final(self).next_sequence == old(self).next_sequence,
            final(self).exporters@ == old(self).exporters@ && (forall|i: int|
                0 <= i < old(self).exporters@.len() ==> (#[trigger] old(self).exporters@[i]).0 != id)
                || exists|i: int|
                0 <= i < old(self).exporters@.len() && (#[trigger] old(self).exporters@[i]).0 == id
                    && final(self).exporters@ == old(self).exporters@.remove(i),
    {
        let mut i: usize = 0;
        while i < self.exporters.len()
            invariant
                *self == *old(self),
                self.wf(),
                i <= self.exporters.len(),
                forall|k: int| 0 <= k < i ==> (#[trigger] old(self).exporters@[k]).0 != id,
            decreases self.exporters.len() - i,
        {
            if self.exporters[i].0 == id {
                let _ = self.exporters.remove(i);
                proof {
                    assert(old(self).exporters@[i as int].0 == id);
                }
                return;
            }
            i = i + 1;
        }
    }

    /// The least severe level recorded for a target.
    pub fn minimum(&self, target: &str) -> (r: LogLevel)
        requires
            self.wf(),
        ensures
            r == minimum_level(self.levels@, target@),
    {
        let ghost levels = self.levels@;
        let ghost entries = self.levels.entries@;
        proof {
            entries_facts(entries);
        }
        let mut best: Option<usize> = None;
        let mut length: usize = 0;
        let mut i: usize = 0;
        while i < self.levels.entries.len()
            invariant
                self.wf(),
                levels == self.levels@,
                entries == self.levels.entries@,
                i <= entries.len(),
                best matches Some(b) ==> b < i && entries[b as int].key@.is_prefix_of(target@)
                    && length == entries[b as int].key@.len(),
                best matches Some(b) ==> forall|k: int|
                    0 <= k < i && (#[trigger] entries[k]).key@.is_prefix_of(target@)
                        ==> entries[k].key@.len() <= length,
                best is None ==> forall|k: int|
                    0 <= k < i ==> !(#[trigger] entries[k]).key@.is_prefix_of(target@),
            decreases entries.len() - i,
        {
            let prefix = self.levels.entries[i].key.as_str();
            if starts_with(target, prefix) {
                let size = characters(prefix).len();
                if best.is_none() || size >= length {
                    best = Some(i);
                    length = size;
                }
            }
            i = i + 1;
        }
        match best {
            Some(b) => {
                proof {
                    entries_facts(entries);
                    let found = entries[b as int].key@;
                    assert(deciding_filter(levels, target@, found)) by {
                        assert forall|other: Seq<char>| #[trigger]
                            levels.dom().contains(other) && other.is_prefix_of(
                                target@,
                            ) implies other.len() <= found.len() by {
                            let k = choose|k: int| #[trigger] entry_at(entries, other, k);
                            assert(entries[k].key@ == other);
                        }
                    }
                    let chosen = choose|prefix: Seq<char>| #[trigger]
                        deciding_filter(levels, target@, prefix);
                    assert(chosen.len() == found.len());
                    assert(chosen =~= found) by {
                        assert forall|j: int| 0 <= j < found.len() implies chosen[j]
                            == found[j] by {
                            assert(target@.subrange(0, found.len() as int)[j] == target@[j]);
                            assert(target@.subrange(0, chosen.len() as int)[j] == target@[j]);
                        }
                    }
                }
                self.levels.entries[b].value
            },
            None => {
                proof {
                    assert forall|prefix: Seq<char>| !#[trigger] deciding_filter(
                        levels,
                        target@,
                        prefix,
                    ) by {
                        if levels.dom().contains(prefix) {
                            let k = choose|k: int| #[trigger] entry_at(entries, prefix, k);
                            assert(!entries[k].key@.is_prefix_of(target@));
                        }
                    }
                }
                LogLevel::Info
            },
        }
    }

    /// Records a message that passes the filters and returns it for the exporters.
    pub fn log(&mut self, level: LogLevel, target: String, message: String, fiber: Option<FiberId>) -> (r:
        Option<LogRecord>)
        requires
            old(self).wf(),
        ensures
            final(self).wf(),
            final(self).levels == old(self).levels,
            final(self).exporters == old(self).exporters,
            ({
                let m = MessageModel { level, target: target@, message: message@, fiber };
                &&& final(self).state() == logged(old(self).state(), m)
                &&& if passes(old(self).levels@, level, target@) {
                    r matches Some(given) && given@ == recorded(old(self).next_sequence, m)
                } else {
                    r is None
                }
            }),
    {
        let minimum = self.minimum(target.as_str());
        if level.rank() < minimum.rank() {
            return None;
        }
        let record = LogRecord { sequence: self.next_sequence, level, target, message, fiber };
        if self.next_sequence < u64::MAX {
            self.next_sequence = self.next_sequence + 1;
        }
        let ghost before = self.history();
        if self.capacity > 0 {
            if self.records.len() == self.capacity {
                let _ = self.records.remove(0);
                proof {
                    assert(self.history() =~= before.drop_first());
                }
            }
            let ghost mid = self.history();
            self.records.push(record.duplicate());
            proof {
                assert(self.history() =~= mid.push(record@));
            }
        }
        Some(record)
    }

    /// The records kept, oldest first.
    pub open spec fn history(&self) -> Seq<RecordModel> {
        crate::text::views(self.records@)
    }

    pub fn records(&self) -> (r: Vec<LogRecord>)
        ensures
            crate::text::views(r@) == self.history(),
    {
        let mut out: Vec<LogRecord> = Vec::new();
        let mut i: usize = 0;
        while i < self.records.len()
            invariant
                i <= self.records.len(),
                out.len() == i,
                forall|k: int| 0 <= k < i ==> (#[trigger] out@[k])@ == self.records@[k]@,
            decreases self.records.len() - i,
        {
            out.push(self.records[i].duplicate());
            i = i + 1;
        }
        proof {
            assert(crate::text::views(out@) =~= self.history());
        }
        out
    }
}

/// The history never outgrows its capacity and always ends with the newest record.
pub proof fn history_is_bounded(history: Seq<RecordModel>, capacity: nat, record: RecordModel)
    requires
        history.len() <= capacity,
    ensures
        remembered(history, capacity, record).len() <= capacity,
        capacity > 0 ==> remembered(history, capacity, record).last() == record,
{
}

/// A longer filter overrides a shorter one for everything below it.
pub proof fn longest_filter_wins(
    levels: Map<Seq<char>, LogLevel>,
    target: Seq<char>,
    prefix: Seq<char>,
)
    requires
        deciding_filter(levels, target, prefix),
    ensures
        minimum_level(levels, target) == levels[prefix],
{
    let chosen = choose|p: Seq<char>| #[trigger] deciding_filter(levels, target, p);
    assert(chosen.len() == prefix.len());
    assert(chosen =~= prefix) by {
        assert forall|j: int| 0 <= j < prefix.len() implies chosen[j] == prefix[j] by {
            assert(target.subrange(0, prefix.len() as int)[j] == target[j]);
            assert(target.subrange(0, chosen.len() as int)[j] == target[j]);
        }
    }
}

/// What is done with a logger.
pub enum LogAction {
    SetLevel { target: Seq<char>, minimum: LogLevel },
    Log(MessageModel),
}

/// What a new logger knows after the first `n` actions, and all records it has accepted by then.
pub open spec fn log_after(capacity: nat, actions: Seq<LogAction>, n: nat) -> (
    LogState,
    Seq<RecordModel>,
)
    decreases n,
{
    if n == 0 {
        (fresh_log(capacity), Seq::empty())
    } else {
        let (s, accepted) = log_after(capacity, actions, (n - 1) as nat);
        match actions[n - 1] {
            LogAction::SetLevel { target, minimum } => (
                LogState { levels: s.levels.insert(target, minimum), ..s },
                accepted,
            ),
            LogAction::Log(m) => (
                logged(s, m),
                if passes(s.levels, m.level, m.target) {
                    accepted.push(recorded(s.next_sequence, m))
                } else {
                    accepted
                },
            ),
        }
    }
}

/// The last records of a sequence, as many as fit.
pub open spec fn latest(records: Seq<RecordModel>, capacity: nat) -> Seq<RecordModel> {
    if records.len() <= capacity {
        records
    } else {
        records.skip(records.len() - capacity)
    }
}

/// Whatever is logged and however the filters change, the history is exactly the latest accepted
/// records, as many as fit and in order, and accepted records are numbered one after another from
/// one on, as long as there are numbers.
pub proof fn history_is_the_latest_records(capacity: nat, actions: Seq<LogAction>, n: nat)
    ensures
        ({
            let (s, accepted) = log_after(capacity, actions, n);
            &&& s.capacity == capacity
            &&& s.history == latest(accepted, capacity)
            &&& s.next_sequence == if accepted.len() < u64::MAX {
                (accepted.len() + 1) as u64
            } else {
                u64::MAX
            }
            &&& forall|i: int|
                0 <= i < accepted.len() && i < u64::MAX ==> (#[trigger] accepted[i]).sequence
                    == i + 1
        }),
    decreases n,
{
    if n > 0 {
        history_is_the_latest_records(capacity, actions, (n - 1) as nat);
        let (s, before) = log_after(capacity, actions, (n - 1) as nat);
        let (then, accepted) = log_after(capacity, actions, n);
        match actions[n - 1] {
            LogAction::SetLevel { .. } => {},
            LogAction::Log(m) => {
                if passes(s.levels, m.level, m.target) {
                    let record = recorded(s.next_sequence, m);
                    if capacity == 0 {
                        assert(latest(accepted, capacity) =~= Seq::empty());
                        assert(latest(before, capacity) =~= Seq::empty());
                    } else if before.len() < capacity {
                        assert(then.history =~= latest(accepted, capacity));
                    } else {
                        assert(s.history.len() == capacity);
                        assert(then.history =~= latest(accepted, capacity));
                    }
                }
            },
        }
    } else {
        assert(latest(Seq::empty(), capacity) =~= Seq::<RecordModel>::empty());
    }
}

} // verus!
