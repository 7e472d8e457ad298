//! Grouping the events of a trace by task, and the trees of all its tasks.

use vstd::prelude::*;
use crate::cct::model::{diagnostics, run, stop_fits, supported, Diagnostic, TreeView};
use crate::cct::CCT;
use crate::sort::{is_stable_sort, lemma_sorted_holds_same, sort_by_timestamp};
use crate::trace::{
    views, Category, Event, EventView, Id, ProcessId, Scope, TaskKind, ThreadId, Trace,
};

verus! {

/// The identity of a task: the key under which its events are gathered and
/// its tree is kept.
#[derive(Debug, Clone, PartialEq, Eq, Hash)]
pub enum TaskId {
    /// A thread of a process.
    Sync(ProcessId, ThreadId),
    /// An asynchronous operation, by scope, identifier and category.
    Async(Scope, Id, Category),
    /// A tracked object, by scope and identifier.
    Object(Scope, Id),
}

/// The value of a task identity.
pub enum TaskIdView {
    Sync(ProcessId, ThreadId),
    Async(Seq<char>, Id, Seq<char>),
    Object(Seq<char>, Id),
}

impl View for TaskId {
    type V = TaskIdView;

    open spec fn view(&self) -> TaskIdView {
        match *self {
            TaskId::Sync(pid, tid) => TaskIdView::Sync(pid, tid),
            TaskId::Async(scope, id, category) => TaskIdView::Async(scope@, id, category@),
            TaskId::Object(scope, id) => TaskIdView::Object(scope@, id),
        }
    }
}

impl TaskIdView {
    /// The kind of task that the identity names.
    pub open spec fn kind(self) -> TaskKind {
        match self {
            TaskIdView::Sync(..) => TaskKind::Sync,
            TaskIdView::Async(..) => TaskKind::Async,
            TaskIdView::Object(..) => TaskKind::Object,
        }
    }
}

/// The task that an event belongs to: by process and thread for the
/// synchronous phases, by scope, identifier and category for the
/// asynchronous ones, by scope and identifier for the object phases. An
/// event of any other phase belongs to no task.
pub open spec fn task_of(e: EventView) -> Option<TaskIdView> {
    match e.phase_type.task_kind() {
        Some(TaskKind::Sync) => Some(TaskIdView::Sync(e.pid, e.tid)),
        Some(TaskKind::Async) => Some(TaskIdView::Async(e.scope, e.id, e.category)),
        Some(TaskKind::Object) => Some(TaskIdView::Object(e.scope, e.id)),
        None => None,
    }
}

/// The events of one task, in the order of the trace.
pub open spec fn bucket(events: Seq<EventView>, id: TaskIdView) -> Seq<EventView>
    decreases events.len(),
{
    if events.len() == 0 {
        Seq::empty()
    } else if task_of(events.last()) == Some(id) {
        bucket(events.drop_last(), id).push(events.last())
    } else {
        bucket(events.drop_last(), id)
    }
}

impl TaskId {
    /// Whether two identities name the same task.
    pub fn same(&self, other: &TaskId) -> (r: bool)
        ensures
            r == (self@ == other@),
    {
        match (self, other) {
            (TaskId::Sync(p1, t1), TaskId::Sync(p2, t2)) => *p1 == *p2 && *t1 == *t2,
            (TaskId::Async(s1, i1, c1), TaskId::Async(s2, i2, c2)) => {
                *i1 == *i2 && *s1 == *s2 && *c1 == *c2
            },
            (TaskId::Object(s1, i1), TaskId::Object(s2, i2)) => *i1 == *i2 && *s1 == *s2,
            _ => false,
        }
    }

    /// The task that an event belongs to, if any.
    pub fn of(event: &Event) -> (r: Option<TaskId>)
        ensures
            match r {
                Some(id) => task_of(event@) == Some(id@),
                None => task_of(event@) is None,
            },
    {
        match event.phase_type.task_kind() {
            Some(TaskKind::Sync) => Some(TaskId::Sync(event.pid, event.tid)),
            Some(TaskKind::Async) => Some(
                TaskId::Async(event.scope.clone(), event.id, event.category.clone()),
            ),
            Some(TaskKind::Object) => Some(TaskId::Object(event.scope.clone(), event.id)),
            None => None,
        }
    }
}

/// A table from task identities to values, in the order in which the tasks
/// were first seen.
#[derive(Debug)]
pub struct TaskTable<V> {
    entries: Vec<(TaskId, V)>,
}

/// Some entry has the key `id`.
pub open spec fn has_key<V>(entries: Seq<(TaskIdView, V)>, id: TaskIdView) -> bool {
    exists|i: int| 0 <= i < entries.len() && (#[trigger] entries[i]).0 == id
}

/// No key occurs twice.
pub open spec fn distinct_keys<V>(entries: Seq<(TaskIdView, V)>) -> bool {
    forall|i: int, j: int|
        0 <= i < j < entries.len() ==> (#[trigger] entries[i]).0 != (#[trigger] entries[j]).0
}

/// The value under `id`, where the table has the key.
pub open spec fn value_of<V>(entries: Seq<(TaskIdView, V)>, id: TaskIdView) -> V {
    entries[choose|i: int| 0 <= i < entries.len() && (#[trigger] entries[i]).0 == id].1
}

impl<V> View for TaskTable<V> {
    type V = Seq<(TaskIdView, V)>;

    closed spec fn view(&self) -> Seq<(TaskIdView, V)> {
        self.entries@.map_values(|p: (TaskId, V)| (p.0@, p.1))
    }
}

impl<V> TaskTable<V> {
    /// A table without entries.
    pub fn new() -> (t: Self)
        ensures
            t@ == Seq::<(TaskIdView, V)>::empty(),
    {
        let t = TaskTable { entries: Vec::new() };
        assert(t@ =~= Seq::<(TaskIdView, V)>::empty());
        t
    }

    /// The number of tasks.
    pub fn len(&self) -> (n: usize)
        ensures
            n == self@.len(),
    {
        self.entries.len()
    }

    /// The identity of the `i`-th task.
    pub fn key_at(&self, i: usize) -> (id: &TaskId)
        requires
            i < self@.len(),
        ensures
            id@ == self@[i as int].0,
    {
        &self.entries[i].0
    }

    /// The value of the `i`-th task.
    pub fn value_at(&self, i: usize) -> (v: &V)
        requires
            i < self@.len(),
        ensures
            *v == self@[i as int].1,
    {
        &self.entries[i].1
    }

    /// The value of the `i`-th task, to be changed in place.
    pub fn value_at_mut(&mut self, i: usize) -> (v: &mut V)
        requires
            i < old(self)@.len(),
        ensures
            *v == old(self)@[i as int].1,
            final(self)@ == old(self)@.update(i as int, (old(self)@[i as int].0, *final(v))),
    {
        &mut self.entries[i].1
    }

    /// The position of the first entry with the key `id`.
    pub fn position(&self, id: &TaskId) -> (r: Option<usize>)
        ensures
            match r {
                Some(i) => i < self@.len() && self@[i as int].0 == id@ && forall|k: int|
                    0 <= k < i ==> (#[trigger] self@[k]).0 != id@,
                None => !has_key(self@, id@),
            },
    {
        let mut i: usize = 0;
        while i < self.entries.len()
            invariant
                i <= self@.len(),
                forall|k: int| 0 <= k < i ==> (#[trigger] self@[k]).0 != id@,
            decreases self@.len() - i,
        {
            if self.entries[i].0.same(id) {
                return Some(i);
            }
            i += 1;
        }
        None
    }

    /// The value under `id`, if the table has the key.
    pub fn get(&self, id: &TaskId) -> (r: Option<&V>)
        ensures
            match r {
                Some(v) => has_key(self@, id@) && exists|i: int|
                    0 <= i < self@.len() && #[trigger] self@[i] == (id@, *v),
                None => !has_key(self@, id@),
            },
            distinct_keys(self@) && has_key(self@, id@) ==> r == Some(&value_of(self@, id@)),
    {
        match self.position(id) {
            Some(i) => {
                proof {
                    let c = choose|c: int| 0 <= c < self@.len() && (#[trigger] self@[c]).0 == id@;
                    if distinct_keys(self@) {
                        assert(c == i) by {
                            if c < i {
                                assert(self@[c].0 != self@[i as int].0);
                            } else if i < c {
                                assert(self@[i as int].0 != self@[c].0);
                            }
                        }
                    }
                }
                Some(&self.entries[i].1)
            },
            None => None,
        }
    }
}

/// With distinct keys, the value under a key is the value of the one entry
/// that has the key.
pub proof fn lemma_value_of<V>(entries: Seq<(TaskIdView, V)>, i: int)
    requires
        distinct_keys(entries),
        0 <= i < entries.len(),
    ensures
        has_key(entries, entries[i].0),
        value_of(entries, entries[i].0) == entries[i].1,
{
    let id = entries[i].0;
    let c = choose|c: int| 0 <= c < entries.len() && (#[trigger] entries[c]).0 == id;
    if c < i {
        assert(entries[c].0 != entries[i].0);
    } else if i < c {
        assert(entries[i].0 != entries[c].0);
    }
}

/// The events gathered under `id`: none where the table lacks the key.
pub open spec fn events_in(entries: Seq<(TaskIdView, Vec<Event>)>, id: TaskIdView) -> Seq<
    EventView,
> {
    if has_key(entries, id) {
        views(value_of(entries, id)@)
    } else {
        Seq::empty()
    }
}

impl TaskTable<Vec<Event>> {
    /// Puts `event` at the end of the events of task `id`, which becomes the
    /// last task of the table if it was not in it.
    pub fn add(&mut self, id: TaskId, event: Event)
        requires
            distinct_keys(old(self)@),
        ensures
            distinct_keys(final(self)@),
            forall|other: TaskIdView|
                #[trigger] has_key(final(self)@, other) == (has_key(old(self)@, other) || other == id@),
            forall|other: TaskIdView|
                #[trigger] events_in(final(self)@, other) == if other == id@ {
                    events_in(old(self)@, other).push(event@)
                } else {
                    events_in(old(self)@, other)
                },
    {
        let ghost before = self@;
        match self.position(&id) {
            Some(i) => {
                let ghost prev = self.entries@;
                self.entries[i].1.push(event);
                proof {
                    let after = self@;
                    assert(after.len() == before.len());
                    assert forall|k: int| 0 <= k < after.len() implies (#[trigger] after[k]).0
                        == before[k].0 by {}
                    assert forall|k: int| 0 <= k < after.len() && k != i implies #[trigger] after[k]
                        == before[k] by {}
                    assert(after[i as int].1@ == before[i as int].1@.push(event));
                    assert(views(after[i as int].1@) =~= views(before[i as int].1@).push(event@));
                    assert forall|other: TaskIdView|
                        has_key(after, other) == (has_key(before, other) || other == id@) by {
                        if has_key(before, other) {
                            let k = choose|k: int|
                                0 <= k < before.len() && (#[trigger] before[k]).0 == other;
                            assert(after[k].0 == other);
                        }
                        if has_key(after, other) {
                            let k = choose|k: int|
                                0 <= k < after.len() && (#[trigger] after[k]).0 == other;
                            assert(before[k].0 == other);
                        }
                        assert(after[i as int].0 == id@);
                    }
                    assert forall|other: TaskIdView| #[trigger]
                        events_in(after, other) == if other == id@ {
                            events_in(before, other).push(event@)
                        } else {
                            events_in(before, other)
                        } by {
                        if has_key(before, other) {
                            let k = choose|k: int|
                                0 <= k < before.len() && (#[trigger] before[k]).0 == other;
                            lemma_value_of(before, k);
                            lemma_value_of(after, k);
                            if other == id@ {
                                assert(k == i) by {
                                    if k < i {
                                        assert(before[k].0 != before[i as int].0);
                                    } else if i < k {
                                        assert(before[i as int].0 != before[k].0);
                                    }
                                }
                            } else {
                                assert(k != i);
                            }
                        }
                    }
                }
            },
            None => {
                let mut events: Vec<Event> = Vec::new();
                events.push(event);
                self.entries.push((id, events));
                proof {
                    let after = self@;
                    let n = before.len() as int;
                    assert(after =~= before.push((id@, events)));
                    assert(views(events@) =~= Seq::<EventView>::empty().push(event@));
                    assert(distinct_keys(after)) by {
                        assert forall|a: int, b: int| 0 <= a < b < after.len() implies (
                        #[trigger] after[a]).0 != (#[trigger] after[b]).0 by {
                            if b == n {
                                assert(before[a].0 != id@);
                            } else {
                                assert(before[a].0 != before[b].0);
                            }
                        }
                    }
                    assert forall|other: TaskIdView|
                        has_key(after, other) == (has_key(before, other) || other == id@) by {
                        if has_key(before, other) {
                            let k = choose|k: int|
                                0 <= k < before.len() && (#[trigger] before[k]).0 == other;
                            assert(after[k].0 == other);
                        }
                        if has_key(after, other) {
                            let k = choose|k: int|
                                0 <= k < after.len() && (#[trigger] after[k]).0 == other;
                            if k < n {
                                assert(before[k].0 == other);
                            }
                        }
                        assert(after[n].0 == id@);
                    }
                    assert forall|other: TaskIdView| #[trigger]
                        events_in(after, other) == if other == id@ {
                            events_in(before, other).push(event@)
                        } else {
                            events_in(before, other)
                        } by {
                        if other == id@ {
                            lemma_value_of(after, n);
                        } else if has_key(before, other) {
                            let k = choose|k: int|
                                0 <= k < before.len() && (#[trigger] before[k]).0 == other;
                            lemma_value_of(before, k);
                            lemma_value_of(after, k);
                        }
                    }
                }
            },
        }
    }
}

impl TaskTable<Vec<Event>> {
    /// Puts `events` at the end of the events of task `id`, which becomes
    /// the last task of the table if it was not in it.
    pub fn add_all(&mut self, id: TaskId, events: Vec<Event>)
        requires
            distinct_keys(old(self)@),
        ensures
            distinct_keys(final(self)@),
            forall|other: TaskIdView|
                #[trigger] has_key(final(self)@, other) == (has_key(old(self)@, other) || other == id@),
            forall|other: TaskIdView|
                #[trigger] events_in(final(self)@, other) == if other == id@ {
                    events_in(old(self)@, other) + views(events@)
                } else {
                    events_in(old(self)@, other)
                },
    {
        let ghost before = self@;
        let ghost added = views(events@);
        let mut events = events;
        match self.position(&id) {
            Some(i) => {
                self.entries[i].1.append(&mut events);
                proof {
                    let after = self@;
                    assert(after.len() == before.len());
                    assert forall|k: int| 0 <= k < after.len() implies (#[trigger] after[k]).0
                        == before[k].0 by {}
                    assert forall|k: int| 0 <= k < after.len() && k != i implies #[trigger] after[k]
                        == before[k] by {}
                    assert(views(after[i as int].1@) =~= views(before[i as int].1@) + added);
                    lemma_same_keys(before, after, id@);
                    assert forall|other: TaskIdView| #[trigger]
                        events_in(after, other) == if other == id@ {
                            events_in(before, other) + added
                        } else {
                            events_in(before, other)
                        } by {
                        if has_key(before, other) {
                            let k = choose|k: int|
                                0 <= k < before.len() && (#[trigger] before[k]).0 == other;
                            lemma_value_of(before, k);
                            lemma_value_of(after, k);
                            if other == id@ {
                                assert(k == i) by {
                                    if k < i {
                                        assert(before[k].0 != before[i as int].0);
                                    } else if i < k {
                                        assert(before[i as int].0 != before[k].0);
                                    }
                                }
                            } else {
                                assert(k != i);
                            }
                        }
                    }
                }
            },
            None => {
                self.entries.push((id, events));
                proof {
                    let after = self@;
                    let n = before.len() as int;
                    assert(after =~= before.push((id@, events)));
                    assert(Seq::<EventView>::empty() + added =~= added);
                    lemma_new_key(before, after, id@);
                    assert forall|other: TaskIdView| #[trigger]
                        events_in(after, other) == if other == id@ {
                            events_in(before, other) + added
                        } else {
                            events_in(before, other)
                        } by {
                        if other == id@ {
                            lemma_value_of(after, n);
                        } else if has_key(before, other) {
                            let k = choose|k: int|
                                0 <= k < before.len() && (#[trigger] before[k]).0 == other;
                            lemma_value_of(before, k);
                            lemma_value_of(after, k);
                        }
                    }
                }
            },
        }
    }

    /// Puts the events of every task of `other` at the end of the events
    /// that this table holds for the task.
    pub fn absorb(&mut self, other: TaskTable<Vec<Event>>)
        requires
            distinct_keys(old(self)@),
            distinct_keys(other@),
        ensures
            distinct_keys(final(self)@),
            forall|id: TaskIdView|
                #[trigger] has_key(final(self)@, id) == (has_key(old(self)@, id) || has_key(other@, id)),
            forall|id: TaskIdView|
                #[trigger] events_in(final(self)@, id) == events_in(old(self)@, id) + events_in(
                    other@,
                    id,
                ),
    {
        let ghost start = self@;
        let ghost src = other@;
        let ghost raw = other.entries@;
        let entries = other.entries;
        proof {
            assert forall|id: TaskIdView| #[trigger]
                events_in(start, id) == events_in(start, id) + events_in(src.take(0), id) by {
                assert(!has_key(src.take(0), id));
                assert(events_in(start, id) + Seq::<EventView>::empty() =~= events_in(start, id));
            }
            assert forall|id: TaskIdView| !has_key(src.take(0), id) by {}
        }
        for entry in it: entries
            invariant
                it.seq() == raw,
                src == raw.map_values(|p: (TaskId, Vec<Event>)| (p.0@, p.1)),
                distinct_keys(src),
                distinct_keys(self@),
                forall|id: TaskIdView|
                    #[trigger] has_key(self@, id) == (has_key(start, id) || has_key(
                        src.take(it.index() as int),
                        id,
                    )),
                forall|id: TaskIdView|
                    #[trigger] events_in(self@, id) == events_in(start, id) + events_in(
                        src.take(it.index() as int),
                        id,
                    ),
        {
            let ghost i = it.index() as int;
            let ghost held = self@;
            let (id, events) = entry;
            assert(src[i] == (id@, events));
            self.add_all(id, events);
            proof {
                let done = src.take(i);
                let more = src.take(i + 1);
                assert(more[i] == src[i]);
                assert forall|k: int| 0 <= k < i implies #[trigger] more[k] == done[k] by {}
                assert(distinct_keys(more)) by {
                    assert forall|a: int, b: int| 0 <= a < b < more.len() implies (
                    #[trigger] more[a]).0 != (#[trigger] more[b]).0 by {
                        assert(src[a].0 != src[b].0);
                    }
                }
                assert(!has_key(done, id@)) by {
                    if has_key(done, id@) {
                        let k = choose|k: int| 0 <= k < done.len() && (#[trigger] done[k]).0 == id@;
                        assert(src[k].0 != src[i].0);
                    }
                }
                assert forall|other: TaskIdView|
                    has_key(more, other) == (has_key(done, other) || other == id@) by {
                    if has_key(done, other) {
                        let k = choose|k: int|
                            0 <= k < done.len() && (#[trigger] done[k]).0 == other;
                        assert(more[k].0 == other);
                    }
                    if has_key(more, other) {
                        let k = choose|k: int|
                            0 <= k < more.len() && (#[trigger] more[k]).0 == other;
                        if k < i {
                            assert(done[k].0 == other);
                        }
                    }
                    assert(more[i].0 == id@);
                }
                assert forall|other: TaskIdView| #[trigger]
                    events_in(self@, other) == events_in(start, other) + events_in(more, other) by {
                    assert(events_in(held, other) == events_in(start, other) + events_in(
                        done,
                        other,
                    ));
                    if other == id@ {
                        lemma_value_of(more, i);
                        assert(events_in(done, other) =~= Seq::<EventView>::empty());
                        assert(events_in(start, other) + Seq::<EventView>::empty() + views(
                            events@,
                        ) =~= events_in(start, other) + views(events@));
                    } else if has_key(done, other) {
                        let k = choose|k: int|
                            0 <= k < done.len() && (#[trigger] done[k]).0 == other;
                        assert(distinct_keys(done)) by {
                            assert forall|a: int, b: int| 0 <= a < b < done.len() implies (
                            #[trigger] done[a]).0 != (#[trigger] done[b]).0 by {
                                assert(src[a].0 != src[b].0);
                            }
                        }
                        lemma_value_of(done, k);
                        lemma_value_of(more, k);
                    }
                }
            }
        }
        proof {
            assert(src.take(src.len() as int) =~= src);
        }
    }
}

/// A table whose keys stayed in place has the keys that it had.
proof fn lemma_same_keys<V>(before: Seq<(TaskIdView, V)>, after: Seq<(TaskIdView, V)>, id: TaskIdView)
    requires
        after.len() == before.len(),
        forall|k: int| 0 <= k < after.len() ==> (#[trigger] after[k]).0 == before[k].0,
        has_key(before, id),
        distinct_keys(before),
    ensures
        distinct_keys(after),
        forall|other: TaskIdView|
            #[trigger] has_key(after, other) == (has_key(before, other) || other == id),
{
    assert forall|a: int, b: int| 0 <= a < b < after.len() implies (#[trigger] after[a]).0 != (
    #[trigger] after[b]).0 by {
        assert(before[a].0 != before[b].0);
    }
    assert forall|other: TaskIdView|
        has_key(after, other) == (has_key(before, other) || other == id) by {
        if has_key(before, other) {
            let k = choose|k: int| 0 <= k < before.len() && (#[trigger] before[k]).0 == other;
            assert(after[k].0 == other);
        }
        if has_key(after, other) {
            let k = choose|k: int| 0 <= k < after.len() && (#[trigger] after[k]).0 == other;
            assert(before[k].0 == other);
        }
    }
}

/// A table that gained an entry under a new key has that key besides the
/// keys that it had.
proof fn lemma_new_key<V>(before: Seq<(TaskIdView, V)>, after: Seq<(TaskIdView, V)>, id: TaskIdView)
    requires
        after.len() == before.len() + 1,
        forall|k: int| 0 <= k < before.len() ==> #[trigger] after[k] == before[k],
        after[before.len() as int].0 == id,
        !has_key(before, id),
        distinct_keys(before),
    ensures
        distinct_keys(after),
        forall|other: TaskIdView|
            #[trigger] has_key(after, other) == (has_key(before, other) || other == id),
{
    let n = before.len() as int;
    assert forall|a: int, b: int| 0 <= a < b < after.len() implies (#[trigger] after[a]).0 != (
    #[trigger] after[b]).0 by {
        if b == n {
            assert(before[a].0 != id);
        } else {
            assert(before[a].0 != before[b].0);
        }
    }
    assert forall|other: TaskIdView|
        has_key(after, other) == (has_key(before, other) || other == id) by {
        if has_key(before, other) {
            let k = choose|k: int| 0 <= k < before.len() && (#[trigger] before[k]).0 == other;
            assert(after[k].0 == other);
        }
        if has_key(after, other) {
            let k = choose|k: int| 0 <= k < after.len() && (#[trigger] after[k]).0 == other;
            if k < n {
                assert(before[k].0 == other);
            }
        }
        assert(after[n].0 == id);
    }
}

/// The events of a trace, gathered by task: a middle stage between the trace
/// and the trees.
#[derive(Debug)]
pub struct ApplicationTrace {
    pub sync_tasks: TaskTable<Vec<Event>>,
    pub async_tasks: TaskTable<Vec<Event>>,
    pub object_life_cycle: TaskTable<Vec<Event>>,
}

/// Every key of the table names a task of the given kind.
pub open spec fn keys_of_kind<V>(entries: Seq<(TaskIdView, V)>, kind: TaskKind) -> bool {
    forall|i: int| 0 <= i < entries.len() ==> (#[trigger] entries[i]).0.kind() == kind
}

impl ApplicationTrace {
    /// The table that holds the tasks of one kind.
    pub open spec fn table(self, kind: TaskKind) -> Seq<(TaskIdView, Vec<Event>)> {
        match kind {
            TaskKind::Sync => self.sync_tasks@,
            TaskKind::Async => self.async_tasks@,
            TaskKind::Object => self.object_life_cycle@,
        }
    }

    /// The events gathered for one task, in the order in which they came.
    pub open spec fn events_of(self, id: TaskIdView) -> Seq<EventView> {
        events_in(self.table(id.kind()), id)
    }

    /// Each table holds tasks of its own kind, each task once.
    pub open spec fn wf(self) -> bool {
        &&& distinct_keys(self.sync_tasks@)
        &&& distinct_keys(self.async_tasks@)
        &&& distinct_keys(self.object_life_cycle@)
        &&& keys_of_kind(self.sync_tasks@, TaskKind::Sync)
        &&& keys_of_kind(self.async_tasks@, TaskKind::Async)
        &&& keys_of_kind(self.object_life_cycle@, TaskKind::Object)
    }

    /// A trace without tasks.
    pub fn new() -> (t: Self)
        ensures
            t.wf(),
            forall|id: TaskIdView| #[trigger] t.events_of(id) == Seq::<EventView>::empty(),
            t.sync_tasks@.len() == 0,
            t.async_tasks@.len() == 0,
            t.object_life_cycle@.len() == 0,
    {
        ApplicationTrace {
            sync_tasks: TaskTable::new(),
            async_tasks: TaskTable::new(),
            object_life_cycle: TaskTable::new(),
        }
    }

    /// Puts the event with its task; an event that belongs to no task is
    /// dropped.
    pub fn push(&mut self, event: Event)
        requires
            old(self).wf(),
        ensures
            final(self).wf(),
            forall|id: TaskIdView|
                #[trigger] final(self).events_of(id) == if task_of(event@) == Some(id) {
                    old(self).events_of(id).push(event@)
                } else {
                    old(self).events_of(id)
                },
            forall|id: TaskIdView|
                has_key(#[trigger] final(self).table(id.kind()), id) == (has_key(
                    old(self).table(id.kind()),
                    id,
                ) || task_of(event@) == Some(id)),
    {
        match TaskId::of(&event) {
            Some(id) => {
                let ghost key = id@;
                let ghost before = *self;
                match id {
                    TaskId::Sync(..) => {
                        self.sync_tasks.add(id, event);
                        proof {
                            lemma_kind_kept(before.sync_tasks@, self.sync_tasks@, key);
                        }
                    },
                    TaskId::Async(..) => {
                        self.async_tasks.add(id, event);
                        proof {
                            lemma_kind_kept(before.async_tasks@, self.async_tasks@, key);
                        }
                    },
                    TaskId::Object(..) => {
                        self.object_life_cycle.add(id, event);
                        proof {
                            lemma_kind_kept(before.object_life_cycle@, self.object_life_cycle@, key);
                        }
                    },
                }
            },
            None => {},
        }
    }
}

/// A table that took the keys of another keeps the kind of its keys if the
/// other has keys of that kind.
proof fn lemma_kind_joined<V>(
    before: Seq<(TaskIdView, V)>,
    other: Seq<(TaskIdView, V)>,
    after: Seq<(TaskIdView, V)>,
    kind: TaskKind,
)
    requires
        keys_of_kind(before, kind),
        keys_of_kind(other, kind),
        forall|id: TaskIdView|
            #[trigger] has_key(after, id) == (has_key(before, id) || has_key(other, id)),
    ensures
        keys_of_kind(after, kind),
{
    assert forall|i: int| 0 <= i < after.len() implies (#[trigger] after[i]).0.kind() == kind by {
        let id = after[i].0;
        assert(has_key(after, id));
        if has_key(before, id) {
            let k = choose|k: int| 0 <= k < before.len() && (#[trigger] before[k]).0 == id;
            assert(before[k].0.kind() == kind);
        } else {
            let k = choose|k: int| 0 <= k < other.len() && (#[trigger] other[k]).0 == id;
            assert(other[k].0.kind() == kind);
        }
    }
}

impl ApplicationTrace {
    /// Takes the events of `other` in: for every task, the events that
    /// `other` holds come behind the events that were here.
    pub fn append(&mut self, other: ApplicationTrace)
        requires
            old(self).wf(),
            other.wf(),
        ensures
            final(self).wf(),
            forall|id: TaskIdView|
                #[trigger] final(self).events_of(id) == old(self).events_of(id) + other.events_of(
                    id,
                ),
    {
        let ghost before = *self;
        self.sync_tasks.absorb(other.sync_tasks);
        self.async_tasks.absorb(other.async_tasks);
        self.object_life_cycle.absorb(other.object_life_cycle);
        proof {
            lemma_kind_joined(
                before.sync_tasks@,
                other.sync_tasks@,
                self.sync_tasks@,
                TaskKind::Sync,
            );
            lemma_kind_joined(
                before.async_tasks@,
                other.async_tasks@,
                self.async_tasks@,
                TaskKind::Async,
            );
            lemma_kind_joined(
                before.object_life_cycle@,
                other.object_life_cycle@,
                self.object_life_cycle@,
                TaskKind::Object,
            );
        }
    }
}

/// The bucket of a task in two traces, one after the other, is its bucket in
/// the first followed by its bucket in the second: gathering the parts of a
/// trace apart and joining the results gathers the trace.
pub proof fn lemma_bucket_of_parts(first: Seq<EventView>, second: Seq<EventView>, id: TaskIdView)
    ensures
        bucket(first + second, id) == bucket(first, id) + bucket(second, id),
    decreases second.len(),
{
    if second.len() == 0 {
        assert(first + second =~= first);
        assert(bucket(first, id) + bucket(second, id) =~= bucket(first, id));
    } else {
        lemma_bucket_of_parts(first, second.drop_last(), id);
        assert((first + second).drop_last() =~= first + second.drop_last());
        assert((first + second).last() == second.last());
        if task_of(second.last()) == Some(id) {
            assert((bucket(first, id) + bucket(second.drop_last(), id)).push(second.last())
                =~= bucket(first, id) + bucket(second, id));
        }
    }
}

/// A table that gained at most the key `id` keeps the kind of its keys if
/// `id` is of that kind.
proof fn lemma_kind_kept<V>(before: Seq<(TaskIdView, V)>, after: Seq<(TaskIdView, V)>, id: TaskIdView)
    requires
        keys_of_kind(before, id.kind()),
        forall|other: TaskIdView|
            #[trigger] has_key(after, other) == (has_key(before, other) || other == id),
    ensures
        keys_of_kind(after, id.kind()),
{
    assert forall|i: int| 0 <= i < after.len() implies (#[trigger] after[i]).0.kind() == id.kind() by {
        let other = after[i].0;
        assert(has_key(after, other));
        if other != id {
            let k = choose|k: int| 0 <= k < before.len() && (#[trigger] before[k]).0 == other;
            assert(before[k].0.kind() == id.kind());
        }
    }
}

/// Gathers the events of a trace by task, each task's events in the order
/// of the trace. Events of the metadata, ignored and unsupported phases
/// belong to no task and are left out.
pub fn build_application_trace(events: Vec<Event>) -> (app: ApplicationTrace)
    ensures
        app.wf(),
        forall|id: TaskIdView| #[trigger] app.events_of(id) == bucket(views(events@), id),
        forall|id: TaskIdView|
            has_key(#[trigger] app.table(id.kind()), id) == (bucket(views(events@), id).len() > 0),
{
    let ghost all = views(events@);
    let mut app = ApplicationTrace::new();
    proof {
        assert(all.take(0) =~= Seq::<EventView>::empty());
        assert forall|id: TaskIdView| !has_key(#[trigger] app.table(id.kind()), id) by {}
    }
    for event in it: events
        invariant
            it.seq() == events@,
            all == views(events@),
            app.wf(),
            forall|id: TaskIdView|
                #[trigger] app.events_of(id) == bucket(all.take(it.index() as int), id),
            forall|id: TaskIdView|
                has_key(#[trigger] app.table(id.kind()), id) == (bucket(
                    all.take(it.index() as int),
                    id,
                ).len() > 0),
    {
        let ghost i = it.index() as int;
        let ghost before = app;
        proof {
            assert(all[i] == event@);
            assert(all.take(i + 1).drop_last() =~= all.take(i));
            assert(all.take(i + 1).last() == event@);
        }
        app.push(event);
        proof {
            assert forall|id: TaskIdView|
                has_key(#[trigger] app.table(id.kind()), id) == (bucket(all.take(i + 1), id).len()
                    > 0) by {
                assert(has_key(before.table(id.kind()), id) == (bucket(all.take(i), id).len() > 0));
            }
            assert forall|id: TaskIdView| #[trigger]
                app.events_of(id) == bucket(all.take(i + 1), id) by {
                assert(before.events_of(id) == bucket(all.take(i), id));
            }
        }
    }
    proof {
        assert(all.take(events@.len() as int) =~= all);
    }
    app
}

/// The trees of an application: one for each task, by kind of task.
#[derive(Debug)]
pub struct ApplicationCCT {
    pub sync_tasks: TaskTable<CCT>,
    pub async_tasks: TaskTable<CCT>,
    pub object_life_cycle: TaskTable<CCT>,
}

/// `tree` is the tree of the events once they are put in chronological
/// order, events of one timestamp staying in the order in which they came.
pub open spec fn tree_for(events: Seq<EventView>, tree: TreeView) -> bool {
    exists|sorted: Seq<EventView>| #[trigger]
        is_stable_sort(events, sorted) && tree == run(sorted).tree
}

/// The second table holds, task for task and in the same order, the trees
/// of the events in the first.
pub open spec fn trees_of(
    events: Seq<(TaskIdView, Vec<Event>)>,
    trees: Seq<(TaskIdView, CCT)>,
) -> bool {
    &&& trees.len() == events.len()
    &&& forall|i: int|
        0 <= i < trees.len() ==> (#[trigger] trees[i]).0 == events[i].0 && tree_for(
            views(events[i].1@),
            trees[i].1@,
        )
}

/// Every event in the table can be given to the tree builder.
pub open spec fn all_supported(events: Seq<(TaskIdView, Vec<Event>)>) -> bool {
    forall|i: int, j: int|
        0 <= i < events.len() && 0 <= j < events[i].1@.len() ==> supported(
            #[trigger] events[i].1@[j]@,
        )
}

/// `tree` and `notes` are the tree and the reports of the events once they
/// are put in chronological order.
pub open spec fn report_for(events: Seq<EventView>, tree: TreeView, notes: Seq<Diagnostic>) -> bool {
    exists|sorted: Seq<EventView>| #[trigger]
        is_stable_sort(events, sorted) && tree == run(sorted).tree && notes == diagnostics(sorted)
}

/// The reports belong, task for task, to the trees of the events.
pub open spec fn reports_of(
    events: Seq<(TaskIdView, Vec<Event>)>,
    trees: Seq<(TaskIdView, CCT)>,
    reports: Seq<Vec<Diagnostic>>,
) -> bool {
    &&& reports.len() == events.len()
    &&& trees.len() == events.len()
    &&& forall|i: int|
        0 <= i < reports.len() ==> report_for(
            views(events[i].1@),
            trees[i].1@,
            (#[trigger] reports[i])@,
        )
}

/// Builds the tree of one task: puts its events in chronological order,
/// events of one timestamp staying in the order in which they came, and
/// gives them to the tree builder. The second result is what the builder
/// reported of the events in that order.
pub fn build_task_tree(events: Vec<Event>) -> (r: (CCT, Vec<Diagnostic>))
    requires
        forall|j: int| 0 <= j < events@.len() ==> supported(#[trigger] events@[j]@),
    ensures
        tree_for(views(events@), r.0@),
        report_for(views(events@), r.0@, r.1@),
{
    let ghost input = views(events@);
    let ghost given = events@;
    let mut events = events;
    sort_by_timestamp(&mut events);
    let ghost sorted = views(events@);
    proof {
        assert forall|j: int| 0 <= j < events@.len() implies supported(#[trigger] events@[j]@) by {
            lemma_sorted_holds_same(input, sorted, j);
            assert(sorted[j] == events@[j]@);
            let k = choose|k: int| 0 <= k < input.len() && input[k] == sorted[j];
            assert(input[k] == given[k]@);
        }
    }
    let (tree, notes) = CCT::from_events_with_diagnostics(events);
    assert(is_stable_sort(input, sorted) && tree@ == run(sorted).tree && notes@ == diagnostics(
        sorted,
    ));
    (tree, notes)
}

impl<V> TaskTable<V> {
    /// The entries of the table, in its order.
    pub fn into_entries(self) -> (entries: Vec<(TaskId, V)>)
        ensures
            entries@.map_values(|p: (TaskId, V)| (p.0@, p.1)) == self@,
    {
        self.entries
    }

    /// The table of the entries, in their order.
    pub fn from_entries(entries: Vec<(TaskId, V)>) -> (table: Self)
        ensures
            table@ == entries@.map_values(|p: (TaskId, V)| (p.0@, p.1)),
    {
        TaskTable { entries }
    }
}

impl TaskTable<Vec<Event>> {
    /// Builds the tree of every task from its events, put in chronological
    /// order first.
    pub fn into_trees(self) -> (trees: TaskTable<CCT>)
        requires
            all_supported(self@),
        ensures
            trees_of(self@, trees@),
    {
        self.into_trees_with_diagnostics().0
    }

    /// Builds the tree of every task as `into_trees` does, and gives for
    /// each task what the builder reported of its events. The places in the
    /// reports are places in the task's events in chronological order.
    pub fn into_trees_with_diagnostics(self) -> (r: (TaskTable<CCT>, Vec<Vec<Diagnostic>>))
        requires
            all_supported(self@),
        ensures
            trees_of(self@, r.0@),
            reports_of(self@, r.0@, r.1@),
    {
        let ghost src = self@;
        let ghost raw = self.entries@;
        let mut out: Vec<(TaskId, CCT)> = Vec::new();
        let mut reports: Vec<Vec<Diagnostic>> = Vec::new();
        let entries = self.entries;
        for entry in it: entries
            invariant
                it.seq() == raw,
                src == raw.map_values(|p: (TaskId, Vec<Event>)| (p.0@, p.1)),
                all_supported(src),
                out@.len() == it.index(),
                reports@.len() == it.index(),
                forall|k: int|
                    0 <= k < out@.len() ==> (#[trigger] out@[k]).0@ == src[k].0 && tree_for(
                        views(src[k].1@),
                        out@[k].1@,
                    ),
                forall|k: int|
                    0 <= k < reports@.len() ==> report_for(
                        views(src[k].1@),
                        out@[k].1@,
                        (#[trigger] reports@[k])@,
                    ),
        {
            let ghost i = it.index() as int;
            let (id, events) = entry;
            assert(src[i] == (id@, events));
            proof {
                assert forall|j: int| 0 <= j < events@.len() implies supported(
                    #[trigger] events@[j]@,
                ) by {
                    assert(supported(src[i].1@[j]@));
                }
            }
            let (tree, notes) = build_task_tree(events);
            out.push((id, tree));
            reports.push(notes);
        }
        let trees = TaskTable { entries: out };
        proof {
            assert(trees@.len() == src.len());
            assert forall|k: int| 0 <= k < trees@.len() implies (#[trigger] trees@[k]).0 == src[k].0
                && tree_for(views(src[k].1@), trees@[k].1@) by {
                assert(trees@[k] == (out@[k].0@, out@[k].1));
            }
            assert forall|k: int| 0 <= k < reports@.len() implies report_for(
                views(src[k].1@),
                trees@[k].1@,
                (#[trigger] reports@[k])@,
            ) by {
                assert(trees@[k] == (out@[k].0@, out@[k].1));
            }
        }
        (trees, reports)
    }
}

/// What the builder reported of the events of each task of an application,
/// task for task in the order of the tables of trees.
#[derive(Debug)]
pub struct ApplicationDiagnostics {
    pub sync_tasks: Vec<Vec<Diagnostic>>,
    pub async_tasks: Vec<Vec<Diagnostic>>,
    pub object_life_cycle: Vec<Vec<Diagnostic>>,
}

impl ApplicationTrace {
    /// Every event that was gathered can be given to the tree builder.
    pub open spec fn supported(self) -> bool {
        &&& all_supported(self.sync_tasks@)
        &&& all_supported(self.async_tasks@)
        &&& all_supported(self.object_life_cycle@)
    }

    /// Builds the tree of every task and gives what the builder reported of
    /// each.
    pub fn application_cct_with_diagnostics(self) -> (r: (ApplicationCCT, ApplicationDiagnostics))
        requires
            self.supported(),
        ensures
            trees_of(self.sync_tasks@, r.0.sync_tasks@),
            trees_of(self.async_tasks@, r.0.async_tasks@),
            trees_of(self.object_life_cycle@, r.0.object_life_cycle@),
            reports_of(self.sync_tasks@, r.0.sync_tasks@, r.1.sync_tasks@),
            reports_of(self.async_tasks@, r.0.async_tasks@, r.1.async_tasks@),
            reports_of(self.object_life_cycle@, r.0.object_life_cycle@, r.1.object_life_cycle@),
    {
        let (sync_tasks, sync_notes) = self.sync_tasks.into_trees_with_diagnostics();
        let (async_tasks, async_notes) = self.async_tasks.into_trees_with_diagnostics();
        let (object_life_cycle, object_notes) =
            self.object_life_cycle.into_trees_with_diagnostics();
        (
            ApplicationCCT { sync_tasks, async_tasks, object_life_cycle },
            ApplicationDiagnostics {
                sync_tasks: sync_notes,
                async_tasks: async_notes,
                object_life_cycle: object_notes,
            },
        )
    }

    /// Builds the tree of every task.
    pub fn application_cct(self) -> (app: ApplicationCCT)
        requires
            self.supported(),
        ensures
            trees_of(self.sync_tasks@, app.sync_tasks@),
            trees_of(self.async_tasks@, app.async_tasks@),
            trees_of(self.object_life_cycle@, app.object_life_cycle@),
    {
        ApplicationCCT {
            sync_tasks: self.sync_tasks.into_trees(),
            async_tasks: self.async_tasks.into_trees(),
            object_life_cycle: self.object_life_cycle.into_trees(),
        }
    }
}

impl ApplicationCCT {
    /// The table that holds the trees of one kind of task.
    pub open spec fn table(self, kind: TaskKind) -> Seq<(TaskIdView, CCT)> {
        match kind {
            TaskKind::Sync => self.sync_tasks@,
            TaskKind::Async => self.async_tasks@,
            TaskKind::Object => self.object_life_cycle@,
        }
    }

    /// The tree of a task, where the application has the task.
    pub open spec fn tree_of(self, id: TaskIdView) -> Option<TreeView> {
        if has_key(self.table(id.kind()), id) {
            Some(value_of(self.table(id.kind()), id)@)
        } else {
            None
        }
    }

    /// Each table holds tasks of its own kind, each task once.
    pub open spec fn wf(self) -> bool {
        &&& distinct_keys(self.sync_tasks@)
        &&& distinct_keys(self.async_tasks@)
        &&& distinct_keys(self.object_life_cycle@)
        &&& keys_of_kind(self.sync_tasks@, TaskKind::Sync)
        &&& keys_of_kind(self.async_tasks@, TaskKind::Async)
        &&& keys_of_kind(self.object_life_cycle@, TaskKind::Object)
    }
}

/// Every event of a task's bucket is an event of the trace that belongs to
/// the task.
pub proof fn lemma_bucket_member(events: Seq<EventView>, id: TaskIdView, j: int)
    requires
        0 <= j < bucket(events, id).len(),
    ensures
        exists|k: int|
            0 <= k < events.len() && #[trigger] events[k] == bucket(events, id)[j] && task_of(
                events[k],
            ) == Some(id),
    decreases events.len(),
{
    if events.len() > 0 {
        let front = events.drop_last();
        if task_of(events.last()) == Some(id) && j == bucket(front, id).len() {
            assert(events[events.len() - 1] == bucket(events, id)[j]);
        } else {
            lemma_bucket_member(front, id, j);
            let k = choose|k: int|
                0 <= k < front.len() && #[trigger] front[k] == bucket(front, id)[j] && task_of(
                    front[k],
                ) == Some(id);
            assert(events[k] == front[k]);
        }
    }
}

/// Whether the end of every complete event of the trace is a timestamp.
pub fn all_stops_fit(events: &Vec<Event>) -> (r: bool)
    ensures
        r == (forall|i: int| 0 <= i < events@.len() ==> stop_fits(#[trigger] events@[i]@)),
{
    let mut k: usize = 0;
    while k < events.len()
        invariant
            k <= events@.len(),
            forall|i: int| 0 <= i < k ==> stop_fits(#[trigger] events@[i]@),
        decreases events@.len() - k,
    {
        if !crate::cct::stop_fits(&events[k]) {
            return false;
        }
        k += 1;
    }
    true
}

/// Builds the trees of the trace as `build_application_cct` does where the
/// end of every complete event is a timestamp; gives nothing where one is
/// not.
pub fn try_build_application_cct(trace: Trace) -> (r: Option<ApplicationCCT>)
    ensures
        r is Some <==> forall|i: int|
            0 <= i < trace.events@.len() ==> stop_fits(#[trigger] trace.events@[i]@),
        match r {
            Some(app) => app.wf() && forall|id: TaskIdView|
                match #[trigger] app.tree_of(id) {
                    Some(tree) => bucket(views(trace.events@), id).len() > 0 && tree_for(
                        bucket(views(trace.events@), id),
                        tree,
                    ),
                    None => bucket(views(trace.events@), id).len() == 0,
                },
            None => true,
        },
{
    if all_stops_fit(&trace.events) {
        Some(build_application_cct(trace))
    } else {
        None
    }
}

/// Gathers the events of the trace by task and builds the tree of every
/// task from its events in chronological order. An event of a metadata,
/// ignored or unsupported phase belongs to no task and reaches no tree.
pub fn build_application_cct(trace: Trace) -> (app: ApplicationCCT)
    requires
        forall|i: int| 0 <= i < trace.events@.len() ==> stop_fits(#[trigger] trace.events@[i]@),
    ensures
        app.wf(),
        forall|id: TaskIdView|
            match #[trigger] app.tree_of(id) {
                Some(tree) => bucket(views(trace.events@), id).len() > 0 && tree_for(
                    bucket(views(trace.events@), id),
                    tree,
                ),
                None => bucket(views(trace.events@), id).len() == 0,
            },
{
    let ghost all = views(trace.events@);
    let gathered = build_application_trace(trace.events);
    proof {
        assert forall|kind: TaskKind| all_supported(#[trigger] gathered.table(kind)) by {
            let table = gathered.table(kind);
            assert forall|i: int, j: int|
                0 <= i < table.len() && 0 <= j < table[i].1@.len() implies supported(
                #[trigger] table[i].1@[j]@,
            ) by {
                let id = table[i].0;
                assert(id.kind() == kind);
                lemma_value_of(table, i);
                assert(gathered.events_of(id) == views(table[i].1@));
                assert(views(table[i].1@)[j] == table[i].1@[j]@);
                lemma_bucket_member(all, id, j);
                let k = choose|k: int|
                    0 <= k < all.len() && #[trigger] all[k] == bucket(all, id)[j] && task_of(
                        all[k],
                    ) == Some(id);
                assert(stop_fits(trace.events@[k]@));
            }
        }
        assert(all_supported(gathered.table(TaskKind::Sync)));
        assert(all_supported(gathered.table(TaskKind::Async)));
        assert(all_supported(gathered.table(TaskKind::Object)));
    }
    let app = gathered.application_cct();
    proof {
        assert forall|kind: TaskKind|
            distinct_keys(#[trigger] app.table(kind)) && keys_of_kind(app.table(kind), kind) by {
            let src = gathered.table(kind);
            let dst = app.table(kind);
            assert(trees_of(src, dst));
            assert forall|i: int, j: int| 0 <= i < j < dst.len() implies (#[trigger] dst[i]).0 != (
            #[trigger] dst[j]).0 by {
                assert(src[i].0 != src[j].0);
            }
            assert forall|i: int| 0 <= i < dst.len() implies (#[trigger] dst[i]).0.kind()
                == kind by {
                assert(src[i].0.kind() == kind);
            }
        }
        assert(distinct_keys(app.table(TaskKind::Sync)));
        assert(distinct_keys(app.table(TaskKind::Async)));
        assert(distinct_keys(app.table(TaskKind::Object)));
        assert forall|id: TaskIdView|
            match #[trigger] app.tree_of(id) {
                Some(tree) => bucket(all, id).len() > 0 && tree_for(bucket(all, id), tree),
                None => bucket(all, id).len() == 0,
            } by {
            let src = gathered.table(id.kind());
            let dst = app.table(id.kind());
            assert(trees_of(src, dst));
            assert(distinct_keys(dst));
            assert(has_key(src, id) == (bucket(all, id).len() > 0));
            if has_key(dst, id) {
                let i = choose|i: int| 0 <= i < dst.len() && (#[trigger] dst[i]).0 == id;
                assert(src[i].0 == id);
                lemma_value_of(dst, i);
                lemma_value_of(src, i);
                assert(gathered.events_of(id) == views(src[i].1@));
            } else if has_key(src, id) {
                let i = choose|i: int| 0 <= i < src.len() && (#[trigger] src[i]).0 == id;
                assert(dst[i].0 == id);
            }
        }
    }
    app
}

} // verus!
