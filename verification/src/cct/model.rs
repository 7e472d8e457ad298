//! The mathematical model of a calling context tree and of the stack machine
//! that builds one from the events of a task.

use vstd::prelude::*;
use crate::json::name_in_args;
use crate::trace::{EventView, PhaseGroup};

verus! {

/// The value of one node: its place in the arena, its interval, its parent
/// and the event it was made from.
pub struct NodeView {
    pub id: usize,
    pub start_time: i64,
    pub stop_time: Option<i64>,
    pub parent_node_id: Option<usize>,
    pub event: EventView,
}

/// The value of a tree: its nodes in the order in which they were made, and
/// the names that metadata events gave it.
pub struct TreeView {
    pub nodes: Seq<NodeView>,
    pub process_name: Option<Seq<char>>,
    pub thread_name: Option<Seq<char>>,
}

/// The builder between two events: the tree so far and the nodes that may
/// still take children, outermost first.
pub struct BuildState {
    pub tree: TreeView,
    pub stack: Seq<usize>,
}

/// The synthetic root: it spans all of time and has no parent.
pub open spec fn root_node() -> NodeView {
    NodeView {
        id: 0,
        start_time: i64::MIN,
        stop_time: Some(i64::MAX),
        parent_node_id: None,
        event: EventView::empty(),
    }
}

impl NodeView {
    /// The node's interval is known to have ended at or before `ts`.
    pub open spec fn ended_by(self, ts: i64) -> bool {
        self.stop_time matches Some(stop) && stop <= ts
    }
}

impl TreeView {
    /// The tree that holds the root alone.
    pub open spec fn initial() -> TreeView {
        TreeView { nodes: seq![root_node()], process_name: None, thread_name: None }
    }

    /// The shape that every tree has: node `i` sits at index `i`, the first
    /// node has no parent, and every other node's parent was made before it.
    pub open spec fn wf(self) -> bool {
        &&& self.nodes.len() >= 1
        &&& self.nodes[0].parent_node_id is None
        &&& forall|i: int| 0 <= i < self.nodes.len() ==> (#[trigger] self.nodes[i]).id == i
        &&& forall|i: int|
            1 <= i < self.nodes.len() ==> match (#[trigger] self.nodes[i]).parent_node_id {
                Some(p) => p < i,
                None => false,
            }
    }
}

/// Node `a` is node `b` or lies on the chain of parents that leads from `b`
/// to the root.
pub open spec fn is_ancestor(nodes: Seq<NodeView>, a: int, b: int) -> bool
    decreases b,
{
    if a == b {
        true
    } else if 0 < b < nodes.len() {
        match nodes[b].parent_node_id {
            Some(p) => p < b && is_ancestor(nodes, a, p as int),
            None => false,
        }
    } else {
        false
    }
}

/// What is left of the stack once every node on top of it that has ended by
/// `ts` is taken off. The bottom entry, the root, is never taken off.
pub open spec fn live_stack(nodes: Seq<NodeView>, stack: Seq<usize>, ts: i64) -> Seq<usize>
    decreases stack.len(),
{
    if stack.len() > 1 && nodes[stack.last() as int].ended_by(ts) {
        live_stack(nodes, stack.drop_last(), ts)
    } else {
        stack
    }
}

/// The position in the stack of the innermost node whose end is not yet
/// known, if there is one.
pub open spec fn open_position(nodes: Seq<NodeView>, stack: Seq<usize>) -> Option<int>
    decreases stack.len(),
{
    if stack.len() == 0 {
        None
    } else if nodes[stack.last() as int].stop_time is None {
        Some(stack.len() - 1)
    } else {
        open_position(nodes, stack.drop_last())
    }
}

/// The end of a complete event: its timestamp plus its duration, where a
/// missing duration counts as zero.
pub open spec fn complete_stop(e: EventView) -> int {
    e.timestamp + match e.duration {
        Some(d) => d as int,
        None => 0,
    }
}

/// The end of a complete event is a timestamp. Of an event of another phase
/// nothing is asked.
pub open spec fn stop_fits(e: EventView) -> bool {
    e.phase_type.group() == PhaseGroup::Complete ==> i64::MIN <= complete_stop(e) <= i64::MAX
}

/// The builder can take the event: its phase has a defined meaning, and the
/// end of a complete event is a timestamp.
pub open spec fn supported(e: EventView) -> bool {
    &&& e.phase_type.group() != PhaseGroup::Unsupported
    &&& stop_fits(e)
}

impl BuildState {
    /// The builder before the first event.
    pub open spec fn initial() -> BuildState {
        BuildState { tree: TreeView::initial(), stack: seq![0usize] }
    }

    /// A new node for `e` under the innermost node that is still live at the
    /// event's timestamp. It goes on the stack if `push` says so.
    pub open spec fn attach(self, e: EventView, stop: Option<i64>, push: bool) -> BuildState {
        let live = live_stack(self.tree.nodes, self.stack, e.timestamp);
        let id = self.tree.nodes.len() as usize;
        let node = NodeView {
            id,
            start_time: e.timestamp,
            stop_time: stop,
            parent_node_id: Some(live.last()),
            event: e,
        };
        BuildState {
            tree: TreeView { nodes: self.tree.nodes.push(node), ..self.tree },
            stack: if push {
                live.push(id)
            } else {
                live
            },
        }
    }

    /// The innermost open node ends at the event's timestamp and takes the
    /// event's fields; it and everything above it leave the stack. Without
    /// an open node nothing changes.
    pub open spec fn close(self, e: EventView) -> BuildState {
        match open_position(self.tree.nodes, self.stack) {
            Some(p) => {
                let id = self.stack[p] as int;
                let node = self.tree.nodes[id];
                let closed = NodeView {
                    stop_time: Some(e.timestamp),
                    event: node.event.merged(e),
                    ..node
                };
                BuildState {
                    tree: TreeView { nodes: self.tree.nodes.update(id, closed), ..self.tree },
                    stack: self.stack.take(p),
                }
            },
            None => self,
        }
    }

    /// A metadata event names the process or the thread.
    pub open spec fn describe(self, e: EventView) -> BuildState {
        let name = name_in_args(e.args);
        if e.name == "process_name"@ {
            BuildState { tree: TreeView { process_name: Some(name), ..self.tree }, ..self }
        } else if e.name == "thread_name"@ {
            BuildState { tree: TreeView { thread_name: Some(name), ..self.tree }, ..self }
        } else {
            self
        }
    }

    /// The builder after one more event.
    pub open spec fn step(self, e: EventView) -> BuildState {
        match e.phase_type.group() {
            PhaseGroup::RangeOpen => self.attach(e, None, true),
            PhaseGroup::RangeClose => self.close(e),
            PhaseGroup::Point => self.attach(e, Some(e.timestamp), false),
            PhaseGroup::Complete => self.attach(e, Some(complete_stop(e) as i64), true),
            PhaseGroup::Metadata => self.describe(e),
            PhaseGroup::Ignored => self,
            PhaseGroup::Unsupported => self,
        }
    }

    /// The stack names nodes of the tree, starts at the root, and each entry
    /// is the parent of the next.
    pub open spec fn wf(self) -> bool {
        &&& self.tree.wf()
        &&& self.stack.len() >= 1
        &&& self.stack[0] == 0
        &&& forall|k: int| 0 <= k < self.stack.len() ==> (#[trigger] self.stack[k]) < self.tree.nodes.len()
        &&& forall|k: int|
            1 <= k < self.stack.len() ==> self.tree.nodes[(#[trigger] self.stack[k]) as int].parent_node_id
                == Some(self.stack[k - 1])
    }
}

/// What the builder reports of an event that it made no use of. The number
/// is the place of the event in the sequence that was given.
#[derive(Debug, Clone, Copy, PartialEq, Eq, Hash, Structural)]
pub enum Diagnostic {
    /// An event that closes a range came while no range was open.
    OrphanClose(usize),
    /// An event of a phase that is read and dropped.
    IgnoredPhase(usize),
}

/// What the builder reports when the event at place `index` comes.
pub open spec fn diagnostic_of(s: BuildState, e: EventView, index: int) -> Option<Diagnostic> {
    match e.phase_type.group() {
        PhaseGroup::RangeClose => if open_position(s.tree.nodes, s.stack) is None {
            Some(Diagnostic::OrphanClose(index as usize))
        } else {
            None
        },
        PhaseGroup::Ignored => Some(Diagnostic::IgnoredPhase(index as usize)),
        _ => None,
    }
}

/// What the builder reports of a sequence of events, in the order of the
/// events.
pub open spec fn diagnostics(events: Seq<EventView>) -> Seq<Diagnostic>
    decreases events.len(),
{
    if events.len() == 0 {
        Seq::empty()
    } else {
        let before = diagnostics(events.drop_last());
        match diagnostic_of(run(events.drop_last()), events.last(), events.len() - 1) {
            Some(d) => before.push(d),
            None => before,
        }
    }
}

/// The builder after a sequence of events, taken in order.
pub open spec fn run(events: Seq<EventView>) -> BuildState
    decreases events.len(),
{
    if events.len() == 0 {
        BuildState::initial()
    } else {
        run(events.drop_last()).step(events.last())
    }
}

/// The timestamps never go back.
pub open spec fn chronological(events: Seq<EventView>) -> bool {
    forall|i: int, j: int| 0 <= i <= j < events.len() ==> events[i].timestamp <= events[j].timestamp
}

} // verus!
