//! The event model: the record of one trace event, its phase, and the rule
//! by which a closing event is merged into the event that opened a range.

use vstd::prelude::*;

verus! {

pub type ProcessId = i32;

pub type ThreadId = i32;

pub type Scope = String;

pub type Id = usize;

pub type Category = String;

/// The role of an event in the trace.
#[derive(Debug, Clone, Copy, PartialEq, Eq, Hash, Structural)]
pub enum EventPhase {
    SyncBegin,
    SyncEnd,
    SyncInstant,
    AsyncBegin,
    AsyncEnd,
    AsyncInstant,
    FlowStart,
    FlowEnd,
    FlowStep,
    ObjectCreate,
    ObjectDestroy,
    ObjectSnapshot,
    MemoryDumpGlobal,
    MemoryDumpProcess,
    ContextEnter,
    ContextLeave,
    Metadata,
    Mark,
    Clock,
    Sample,
    Complete,
    Counter,
}

/// How the tree builder treats a phase.
#[derive(Debug, Clone, Copy, PartialEq, Eq, Hash, Structural)]
pub enum PhaseGroup {
    /// Opens an interval whose end is not yet known.
    RangeOpen,
    /// Ends the innermost interval that is still open.
    RangeClose,
    /// A single instant: an interval of no width.
    Point,
    /// An interval that carries its own duration.
    Complete,
    /// Names the process or the thread; makes no node.
    Metadata,
    /// Read and dropped.
    Ignored,
    /// Has no defined meaning for a tree.
    Unsupported,
}

/// Which of the three kinds of task an event belongs to, if any.
#[derive(Debug, Clone, Copy, PartialEq, Eq, Hash, Structural)]
pub enum TaskKind {
    /// The timeline of one thread of one process.
    Sync,
    /// A logical operation that may cross threads.
    Async,
    /// The lifetime of one tracked object.
    Object,
}

impl EventPhase {
    /// The behavioural group of each phase.
    pub open spec fn group_spec(self) -> PhaseGroup {
        match self {
            EventPhase::SyncBegin | EventPhase::AsyncBegin | EventPhase::ObjectCreate =>
                PhaseGroup::RangeOpen,
            EventPhase::SyncEnd | EventPhase::AsyncEnd | EventPhase::ObjectDestroy =>
                PhaseGroup::RangeClose,
            EventPhase::SyncInstant
            | EventPhase::AsyncInstant
            | EventPhase::ObjectSnapshot
            | EventPhase::MemoryDumpProcess
            | EventPhase::MemoryDumpGlobal
            | EventPhase::Mark => PhaseGroup::Point,
            EventPhase::Complete => PhaseGroup::Complete,
            EventPhase::Metadata => PhaseGroup::Metadata,
            EventPhase::Counter
            | EventPhase::Sample
            | EventPhase::Clock
            | EventPhase::FlowStart
            | EventPhase::FlowStep
            | EventPhase::FlowEnd => PhaseGroup::Ignored,
            EventPhase::ContextEnter | EventPhase::ContextLeave => PhaseGroup::Unsupported,
        }
    }

    #[verifier::when_used_as_spec(group_spec)]
    pub fn group(self) -> (g: PhaseGroup)
        ensures
            g == self.group_spec(),
    {
        match self {
            EventPhase::SyncBegin | EventPhase::AsyncBegin | EventPhase::ObjectCreate =>
                PhaseGroup::RangeOpen,
            EventPhase::SyncEnd | EventPhase::AsyncEnd | EventPhase::ObjectDestroy =>
                PhaseGroup::RangeClose,
            EventPhase::SyncInstant
            | EventPhase::AsyncInstant
            | EventPhase::ObjectSnapshot
            | EventPhase::MemoryDumpProcess
            | EventPhase::MemoryDumpGlobal
            | EventPhase::Mark => PhaseGroup::Point,
            EventPhase::Complete => PhaseGroup::Complete,
            EventPhase::Metadata => PhaseGroup::Metadata,
            EventPhase::Counter
            | EventPhase::Sample
            | EventPhase::Clock
            | EventPhase::FlowStart
            | EventPhase::FlowStep
            | EventPhase::FlowEnd => PhaseGroup::Ignored,
            EventPhase::ContextEnter | EventPhase::ContextLeave => PhaseGroup::Unsupported,
        }
    }

    /// The kind of task under which an event of this phase is grouped.
    /// Metadata and the ignored and unsupported phases belong to none.
    pub open spec fn task_kind_spec(self) -> Option<TaskKind> {
        match self {
            EventPhase::SyncBegin
            | EventPhase::SyncEnd
            | EventPhase::SyncInstant
            | EventPhase::Complete => Some(TaskKind::Sync),
            EventPhase::AsyncBegin | EventPhase::AsyncEnd | EventPhase::AsyncInstant => Some(
                TaskKind::Async,
            ),
            EventPhase::ObjectCreate
            | EventPhase::ObjectSnapshot
            | EventPhase::ObjectDestroy => Some(TaskKind::Object),
            _ => None,
        }
    }

    #[verifier::when_used_as_spec(task_kind_spec)]
    pub fn task_kind(self) -> (k: Option<TaskKind>)
        ensures
            k == self.task_kind_spec(),
    {
        match self {
            EventPhase::SyncBegin
            | EventPhase::SyncEnd
            | EventPhase::SyncInstant
            | EventPhase::Complete => Some(TaskKind::Sync),
            EventPhase::AsyncBegin | EventPhase::AsyncEnd | EventPhase::AsyncInstant => Some(
                TaskKind::Async,
            ),
            EventPhase::ObjectCreate
            | EventPhase::ObjectSnapshot
            | EventPhase::ObjectDestroy => Some(TaskKind::Object),
            _ => None,
        }
    }

    /// The single character that stands for each phase in a trace file.
    pub open spec fn code_spec(self) -> char {
        match self {
            EventPhase::SyncBegin => 'B',
            EventPhase::SyncEnd => 'E',
            EventPhase::SyncInstant => 'i',
            EventPhase::AsyncBegin => 'b',
            EventPhase::AsyncEnd => 'e',
            EventPhase::AsyncInstant => 'n',
            EventPhase::FlowStart => 's',
            EventPhase::FlowEnd => 'f',
            EventPhase::FlowStep => 't',
            EventPhase::ObjectCreate => 'N',
            EventPhase::ObjectDestroy => 'D',
            EventPhase::ObjectSnapshot => 'O',
            EventPhase::MemoryDumpGlobal => 'V',
            EventPhase::MemoryDumpProcess => 'v',
            EventPhase::ContextEnter => '(',
            EventPhase::ContextLeave => ')',
            EventPhase::Metadata => 'M',
            EventPhase::Mark => 'R',
            EventPhase::Clock => 'c',
            EventPhase::Sample => 'P',
            EventPhase::Complete => 'X',
            EventPhase::Counter => 'C',
        }
    }

    /// The character under which this phase is written.
    #[verifier::when_used_as_spec(code_spec)]
    pub fn code(self) -> (c: char)
        ensures
            c == self.code_spec(),
    {
        match self {
            EventPhase::SyncBegin => 'B',
            EventPhase::SyncEnd => 'E',
            EventPhase::SyncInstant => 'i',
            EventPhase::AsyncBegin => 'b',
            EventPhase::AsyncEnd => 'e',
            EventPhase::AsyncInstant => 'n',
            EventPhase::FlowStart => 's',
            EventPhase::FlowEnd => 'f',
            EventPhase::FlowStep => 't',
            EventPhase::ObjectCreate => 'N',
            EventPhase::ObjectDestroy => 'D',
            EventPhase::ObjectSnapshot => 'O',
            EventPhase::MemoryDumpGlobal => 'V',
            EventPhase::MemoryDumpProcess => 'v',
            EventPhase::ContextEnter => '(',
            EventPhase::ContextLeave => ')',
            EventPhase::Metadata => 'M',
            EventPhase::Mark => 'R',
            EventPhase::Clock => 'c',
            EventPhase::Sample => 'P',
            EventPhase::Complete => 'X',
            EventPhase::Counter => 'C',
        }
    }

    /// The phase that a character of a trace file stands for. Every phase is
    /// read back from its own code; `'I'` is a second spelling of
    /// `SyncInstant`; no other character is a phase.
    pub open spec fn from_code_spec(c: char) -> Option<EventPhase> {
        match c {
            'B' => Some(EventPhase::SyncBegin),
            'E' => Some(EventPhase::SyncEnd),
            'i' | 'I' => Some(EventPhase::SyncInstant),
            'b' => Some(EventPhase::AsyncBegin),
            'e' => Some(EventPhase::AsyncEnd),
            'n' => Some(EventPhase::AsyncInstant),
            's' => Some(EventPhase::FlowStart),
            'f' => Some(EventPhase::FlowEnd),
            't' => Some(EventPhase::FlowStep),
            'N' => Some(EventPhase::ObjectCreate),
            'D' => Some(EventPhase::ObjectDestroy),
            'O' => Some(EventPhase::ObjectSnapshot),
            'V' => Some(EventPhase::MemoryDumpGlobal),
            'v' => Some(EventPhase::MemoryDumpProcess),
            '(' => Some(EventPhase::ContextEnter),
            ')' => Some(EventPhase::ContextLeave),
            'M' => Some(EventPhase::Metadata),
            'R' => Some(EventPhase::Mark),
            'c' => Some(EventPhase::Clock),
            'P' => Some(EventPhase::Sample),
            'X' => Some(EventPhase::Complete),
            'C' => Some(EventPhase::Counter),
            _ => None,
        }
    }

    /// Reads a phase from its code.
    pub fn from_code(c: char) -> (r: Option<EventPhase>)
        ensures
            r == Self::from_code_spec(c),
    {
        match c {
            'B' => Some(EventPhase::SyncBegin),
            'E' => Some(EventPhase::SyncEnd),
            'i' | 'I' => Some(EventPhase::SyncInstant),
            'b' => Some(EventPhase::AsyncBegin),
            'e' => Some(EventPhase::AsyncEnd),
            'n' => Some(EventPhase::AsyncInstant),
            's' => Some(EventPhase::FlowStart),
            'f' => Some(EventPhase::FlowEnd),
            't' => Some(EventPhase::FlowStep),
            'N' => Some(EventPhase::ObjectCreate),
            'D' => Some(EventPhase::ObjectDestroy),
            'O' => Some(EventPhase::ObjectSnapshot),
            'V' => Some(EventPhase::MemoryDumpGlobal),
            'v' => Some(EventPhase::MemoryDumpProcess),
            '(' => Some(EventPhase::ContextEnter),
            ')' => Some(EventPhase::ContextLeave),
            'M' => Some(EventPhase::Metadata),
            'R' => Some(EventPhase::Mark),
            'c' => Some(EventPhase::Clock),
            'P' => Some(EventPhase::Sample),
            'X' => Some(EventPhase::Complete),
            'C' => Some(EventPhase::Counter),
            _ => None,
        }
    }
}

impl Default for EventPhase {
    fn default() -> (r: Self)
        ensures
            r == EventPhase::Sample,
    {
        EventPhase::Sample
    }
}

/// One record of a trace.
#[derive(Debug, Clone, PartialEq, Eq)]
pub struct Event {
    pub name: String,
    pub category: Category,
    pub id: Id,
    pub scope: Scope,
    pub phase_type: EventPhase,
    pub pid: ProcessId,
    pub tid: ThreadId,
    pub timestamp: i64,
    pub duration: Option<i64>,
    pub args: Option<serde_json::Value>,
}

/// The mathematical value of an event: its strings as sequences of
/// characters, its other fields as they are.
pub struct EventView {
    pub name: Seq<char>,
    pub category: Seq<char>,
    pub id: Id,
    pub scope: Seq<char>,
    pub phase_type: EventPhase,
    pub pid: ProcessId,
    pub tid: ThreadId,
    pub timestamp: i64,
    pub duration: Option<i64>,
    pub args: Option<serde_json::Value>,
}

impl View for Event {
    type V = EventView;

    open spec fn view(&self) -> EventView {
        EventView {
            name: self.name@,
            category: self.category@,
            id: self.id,
            scope: self.scope@,
            phase_type: self.phase_type,
            pid: self.pid,
            tid: self.tid,
            timestamp: self.timestamp,
            duration: self.duration,
            args: self.args,
        }
    }
}

impl EventView {
    /// The event with every field absent: empty strings, zeros, no duration,
    /// no arguments, and the phase `Sample`.
    pub open spec fn empty() -> EventView {
        EventView {
            name: Seq::empty(),
            category: Seq::empty(),
            id: 0,
            scope: Seq::empty(),
            phase_type: EventPhase::Sample,
            pid: 0,
            tid: 0,
            timestamp: 0,
            duration: None,
            args: None,
        }
    }

    /// The event that results when `incoming` closes the range that `self`
    /// opened. A field of `incoming` replaces the field of `self` only where
    /// it is present: a string that is not empty, an identifier that is not
    /// zero, arguments that are there. Phase, timestamp and duration stay.
    pub open spec fn merged(self, incoming: EventView) -> EventView {
        EventView {
            name: if incoming.name.len() > 0 {
                incoming.name
            } else {
                self.name
            },
            category: if incoming.category.len() > 0 {
                incoming.category
            } else {
                self.category
            },
            id: if incoming.id != 0 {
                incoming.id
            } else {
                self.id
            },
            scope: if incoming.scope.len() > 0 {
                incoming.scope
            } else {
                self.scope
            },
            pid: if incoming.pid != 0 {
                incoming.pid
            } else {
                self.pid
            },
            tid: if incoming.tid != 0 {
                incoming.tid
            } else {
                self.tid
            },
            args: if incoming.args is Some {
                incoming.args
            } else {
                self.args
            },
            ..self
        }
    }

    /// What is left in the incoming event after a merge: it holds the old
    /// string or arguments of the base wherever its own were taken.
    pub open spec fn given_to(self, base: EventView) -> EventView {
        EventView {
            name: if self.name.len() > 0 {
                base.name
            } else {
                self.name
            },
            category: if self.category.len() > 0 {
                base.category
            } else {
                self.category
            },
            scope: if self.scope.len() > 0 {
                base.scope
            } else {
                self.scope
            },
            args: if self.args is Some {
                base.args
            } else {
                self.args
            },
            ..self
        }
    }
}

impl Default for Event {
    fn default() -> (r: Self)
        ensures
            r@ == EventView::empty(),
    {
        Event {
            name: String::new(),
            category: String::new(),
            id: 0,
            scope: String::new(),
            phase_type: EventPhase::Sample,
            pid: 0,
            tid: 0,
            timestamp: 0,
            duration: None,
            args: None,
        }
    }
}

impl Event {
    /// Merges the closing event `other` into `self`, the event that opened
    /// the range. Strings and arguments that are taken from `other` are
    /// exchanged, not copied, so `other` is left holding what they replaced.
    pub fn merge(&mut self, other: &mut Self)
        ensures
            final(self)@ == old(self)@.merged(old(other)@),
            final(other)@ == old(other)@.given_to(old(self)@),
    {
        if !other.name.as_str().is_empty() {
            std::mem::swap(&mut self.name, &mut other.name);
        }
        if !other.category.as_str().is_empty() {
            std::mem::swap(&mut self.category, &mut other.category);
        }
        if other.id != 0 {
            self.id = other.id;
        }
        if !other.scope.as_str().is_empty() {
            std::mem::swap(&mut self.scope, &mut other.scope);
        }
        if other.pid != 0 {
            self.pid = other.pid;
        }
        if other.tid != 0 {
            self.tid = other.tid;
        }
        if other.args.is_some() {
            std::mem::swap(&mut self.args, &mut other.args);
        }
    }
}

/// The events of one trace, in the order in which they were read.
#[derive(Debug)]
pub struct Trace {
    pub events: Vec<Event>,
}

/// The values of a sequence of events.
pub open spec fn views(events: Seq<Event>) -> Seq<EventView> {
    events.map_values(|e: Event| e@)
}

/// Reading a phase back from its own code gives the phase, and a character
/// that is read as a phase is the code of that phase or the second spelling
/// of `SyncInstant`.
pub proof fn lemma_code_round_trip(p: EventPhase, c: char)
    ensures
        EventPhase::from_code_spec(p.code_spec()) == Some(p),
        EventPhase::from_code_spec(c) == Some(p) ==> c == p.code_spec() || (c == 'I' && p
            == EventPhase::SyncInstant),
{
}

} // verus!
