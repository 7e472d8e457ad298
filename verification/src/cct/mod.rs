//! Calling context trees: a tree of intervals for one task, in which a node
//! lies under another exactly when its interval lies inside the other's.

pub mod lemmas;
pub mod model;
pub mod nesting;
pub mod normal;
pub mod orphan;
pub mod verify;
pub mod visualize;

use vstd::prelude::*;
use crate::cct::lemmas::{lemma_open_position, lemma_run_push, lemma_step_len, lemma_step_wf};
use crate::cct::model::{
    chronological, complete_stop, diagnostics, live_stack, open_position, root_node, run,
    supported, BuildState, Diagnostic, NodeView, TreeView,
};
use crate::cct::normal::{
    is_max_stop, is_min_start, lemma_max_extend, lemma_max_stop_unique, lemma_min_extend,
    lemma_min_start_unique, max_stop, rebased, rebased_root, some_stop_known, time_shift,
};
use crate::json::{name_in_args, name_of};
use crate::trace::{views, Event, EventView, PhaseGroup};

verus! {

/// One context of the tree. A node made from an instant has equal start and
/// stop; a node whose range was never closed has no stop.
#[derive(Debug, Clone)]
pub struct CCTNode {
    id: usize,
    start_time: i64,
    stop_time: Option<i64>,
    parent_node_id: Option<usize>,
    event: Event,
}

/// What metadata events said of the tree's task.
#[derive(Debug, Clone)]
pub struct CCTMeta {
    process_name: Option<String>,
    thread_name: Option<String>,
}

/// A calling context tree: an arena of nodes, the root first, each node
/// naming its parent by index.
#[derive(Debug)]
pub struct CCT {
    nodes: Vec<CCTNode>,
    metadata: CCTMeta,
}

impl View for CCTNode {
    type V = NodeView;

    closed spec fn view(&self) -> NodeView {
        NodeView {
            id: self.id,
            start_time: self.start_time,
            stop_time: self.stop_time,
            parent_node_id: self.parent_node_id,
            event: self.event@,
        }
    }
}

/// The value of an optional string.
pub open spec fn opt_view(s: Option<String>) -> Option<Seq<char>> {
    match s {
        Some(s) => Some(s@),
        None => None,
    }
}

/// The values of a sequence of nodes.
pub open spec fn node_views(nodes: Seq<CCTNode>) -> Seq<NodeView> {
    nodes.map_values(|n: CCTNode| n@)
}

/// The value of a tree's metadata: the names that were given, as sequences
/// of characters.
pub struct MetaView {
    pub process_name: Option<Seq<char>>,
    pub thread_name: Option<Seq<char>>,
}

impl View for CCTMeta {
    type V = MetaView;

    closed spec fn view(&self) -> MetaView {
        MetaView {
            process_name: opt_view(self.process_name),
            thread_name: opt_view(self.thread_name),
        }
    }
}

impl CCTMeta {
    /// The name of the process, if a metadata event gave one.
    pub fn process_name(&self) -> (r: Option<&String>)
        ensures
            opt_view(
                match r {
                    Some(s) => Some(*s),
                    None => None,
                },
            ) == self@.process_name,
    {
        self.process_name.as_ref()
    }

    /// The name of the thread, if a metadata event gave one.
    pub fn thread_name(&self) -> (r: Option<&String>)
        ensures
            opt_view(
                match r {
                    Some(s) => Some(*s),
                    None => None,
                },
            ) == self@.thread_name,
    {
        self.thread_name.as_ref()
    }
}

impl View for CCT {
    type V = TreeView;

    closed spec fn view(&self) -> TreeView {
        TreeView {
            nodes: node_views(self.nodes@),
            process_name: self.metadata@.process_name,
            thread_name: self.metadata@.thread_name,
        }
    }
}

impl CCTNode {
    fn new(
        id: usize,
        start_time: i64,
        stop_time: Option<i64>,
        parent_node_id: Option<usize>,
        event: Event,
    ) -> (node: Self)
        ensures
            node@ == (NodeView { id, start_time, stop_time, parent_node_id, event: event@ }),
    {
        Self { id, start_time, stop_time, parent_node_id, event }
    }

    /// The node's index in its tree.
    pub fn id(&self) -> (r: usize)
        ensures
            r == self@.id,
    {
        self.id
    }

    /// The timestamp at which the node's interval starts.
    pub fn start_time(&self) -> (r: i64)
        ensures
            r == self@.start_time,
    {
        self.start_time
    }

    /// The timestamp at which the node's interval ends, once it is known.
    pub fn stop_time(&self) -> (r: Option<i64>)
        ensures
            r == self@.stop_time,
    {
        self.stop_time
    }

    /// The index of the node's parent; the root has none.
    pub fn parent_node_id(&self) -> (r: Option<usize>)
        ensures
            r == self@.parent_node_id,
    {
        self.parent_node_id
    }

    /// The event from which the node was made, with the fields that the
    /// closing event gave it.
    pub fn event(&self) -> (r: &Event)
        ensures
            r@ == self@.event,
    {
        &self.event
    }
}

impl CCT {
    #[verifier::type_invariant]
    spec fn inv(self) -> bool {
        self@.wf()
    }

    /// A tree that holds its root alone.
    pub fn new() -> (cct: Self)
        ensures
            cct@ == TreeView::initial(),
    {
        let root = CCTNode::new(0, i64::MIN, Some(i64::MAX), None, Event::default());
        let mut nodes: Vec<CCTNode> = Vec::new();
        nodes.push(root);
        assert(node_views(nodes@) =~= seq![root_node()]);
        Self { nodes, metadata: CCTMeta { process_name: None, thread_name: None } }
    }

    /// The number of nodes, the root among them.
    pub fn len(&self) -> (n: usize)
        ensures
            n == self@.nodes.len(),
            n >= 1,
            self@.wf(),
    {
        proof {
            use_type_invariant(self);
        }
        self.nodes.len()
    }

    /// The root of the tree.
    pub fn root(&self) -> (node: &CCTNode)
        ensures
            node@ == self@.nodes[0],
            self@.wf(),
    {
        proof {
            use_type_invariant(self);
        }
        &self.nodes[0]
    }

    /// The node with the given index.
    pub fn get_node(&self, id: usize) -> (node: &CCTNode)
        requires
            id < self@.nodes.len(),
        ensures
            node@ == self@.nodes[id as int],
    {
        &self.nodes[id]
    }

    /// The node with the given index, if the tree has one.
    pub fn node(&self, id: usize) -> (r: Option<&CCTNode>)
        ensures
            match r {
                Some(n) => id < self@.nodes.len() && n@ == self@.nodes[id as int],
                None => id >= self@.nodes.len(),
            },
    {
        if id < self.nodes.len() {
            Some(&self.nodes[id])
        } else {
            None
        }
    }

    /// What metadata events said of the tree's task.
    pub fn metadata(&self) -> (r: &CCTMeta)
        ensures
            r@.process_name == self@.process_name,
            r@.thread_name == self@.thread_name,
    {
        &self.metadata
    }

    /// The name of the process, if a metadata event gave one.
    pub fn process_name(&self) -> (r: Option<&String>)
        ensures
            match r {
                Some(s) => self@.process_name == Some(s@),
                None => self@.process_name is None,
            },
    {
        self.metadata.process_name.as_ref()
    }

    /// The name of the thread, if a metadata event gave one.
    pub fn thread_name(&self) -> (r: Option<&String>)
        ensures
            match r {
                Some(s) => self@.thread_name == Some(s@),
                None => self@.thread_name is None,
            },
    {
        self.metadata.thread_name.as_ref()
    }
}

/// Adds a node under `parent` to the arena and returns its index.
fn new_node(
    nodes: &mut Vec<CCTNode>,
    start_time: i64,
    stop_time: Option<i64>,
    parent: usize,
    event: Event,
) -> (id: usize)
    ensures
        id == old(nodes)@.len(),
        node_views(final(nodes)@) == node_views(old(nodes)@).push(
            NodeView { id, start_time, stop_time, parent_node_id: Some(parent), event: event@ },
        ),
{
    let id = nodes.len();
    let node = CCTNode::new(id, start_time, stop_time, Some(parent), event);
    nodes.push(node);
    assert(node_views(nodes@) =~= node_views(old(nodes)@).push(node@));
    id
}

/// Whether the end of the event, if it is a complete event, is a timestamp.
pub fn stop_fits(event: &Event) -> (r: bool)
    ensures
        r == crate::cct::model::stop_fits(event@),
{
    match event.phase_type.group() {
        PhaseGroup::Complete => match event.duration {
            Some(d) => {
                let stop: i128 = event.timestamp as i128 + d as i128;
                -0x8000_0000_0000_0000i128 <= stop && stop <= 0x7fff_ffff_ffff_ffffi128
            },
            None => true,
        },
        _ => true,
    }
}

/// Whether the tree builder can take the event.
pub fn is_supported(event: &Event) -> (r: bool)
    ensures
        r == supported(event@),
{
    match event.phase_type.group() {
        PhaseGroup::Unsupported => false,
        _ => stop_fits(event),
    }
}

/// Whether the timestamps of the events never go back.
pub fn is_chronological(events: &Vec<Event>) -> (r: bool)
    ensures
        r == chronological(views(events@)),
{
    let ghost all = views(events@);
    let mut k: usize = 1;
    while k < events.len()
        invariant
            1 <= k,
            all == views(events@),
            forall|i: int, j: int|
                0 <= i <= j < k && j < all.len() ==> all[i].timestamp <= all[j].timestamp,
        decreases events@.len() - k,
    {
        if events[k - 1].timestamp > events[k].timestamp {
            assert(all[k - 1].timestamp > all[k as int].timestamp);
            return false;
        }
        proof {
            assert forall|i: int, j: int| 0 <= i <= j < k + 1 && j < all.len() implies all[i].timestamp
                <= all[j].timestamp by {
                if j == k && i < k {
                    assert(all[i].timestamp <= all[k - 1].timestamp);
                }
            }
        }
        k += 1;
    }
    true
}

/// Whether the tree builder can take every one of the events.
pub fn are_supported(events: &Vec<Event>) -> (r: bool)
    ensures
        r == (forall|i: int| 0 <= i < events@.len() ==> supported(#[trigger] events@[i]@)),
{
    let mut k: usize = 0;
    while k < events.len()
        invariant
            k <= events@.len(),
            forall|i: int| 0 <= i < k ==> supported(#[trigger] events@[i]@),
        decreases events@.len() - k,
    {
        if !is_supported(&events[k]) {
            return false;
        }
        k += 1;
    }
    true
}

/// Takes off the stack every node that has ended by `ts`, the root
/// excepted, and returns the node then on top: the parent of an event at
/// `ts`.
fn pop_until_valid_parent(nodes: &Vec<CCTNode>, stack: &mut Vec<usize>, ts: i64) -> (parent: usize)
    requires
        old(stack)@.len() >= 1,
        forall|k: int| 0 <= k < old(stack)@.len() ==> (#[trigger] old(stack)@[k]) < nodes@.len(),
    ensures
        final(stack)@ == live_stack(node_views(nodes@), old(stack)@, ts),
        final(stack)@.len() >= 1,
        parent == final(stack)@.last(),
{
    let ghost views = node_views(nodes@);
    loop
        invariant
            views == node_views(nodes@),
            forall|k: int| 0 <= k < old(stack)@.len() ==> (#[trigger] old(stack)@[k]) < nodes@.len(),
            1 <= stack@.len() <= old(stack)@.len(),
            stack@ == old(stack)@.take(stack@.len() as int),
            live_stack(views, old(stack)@, ts) == live_stack(views, stack@, ts),
        decreases stack@.len(),
    {
        let top = stack[stack.len() - 1];
        assert(top == old(stack)@[stack@.len() - 1]);
        let expired = match nodes[top].stop_time {
            Some(stop) => stop <= ts,
            None => false,
        };
        assert(expired == views[top as int].ended_by(ts));
        if stack.len() > 1 && expired {
            let ghost before = stack@;
            stack.pop();
            assert(stack@ == before.drop_last());
            assert(stack@ =~= old(stack)@.take(stack@.len() as int));
        } else {
            return top;
        }
    }
}

/// Finds the innermost node on the stack whose end is not yet known, and
/// returns its position.
fn find_open(nodes: &Vec<CCTNode>, stack: &Vec<usize>) -> (r: Option<usize>)
    requires
        forall|k: int| 0 <= k < stack@.len() ==> (#[trigger] stack@[k]) < nodes@.len(),
    ensures
        match r {
            Some(p) => open_position(node_views(nodes@), stack@) == Some(p as int),
            None => open_position(node_views(nodes@), stack@) is None,
        },
{
    let ghost views = node_views(nodes@);
    let mut p: usize = stack.len();
    assert(stack@.take(p as int) =~= stack@);
    while p > 0
        invariant
            views == node_views(nodes@),
            p <= stack@.len(),
            forall|k: int| 0 <= k < stack@.len() ==> (#[trigger] stack@[k]) < nodes@.len(),
            open_position(views, stack@) == open_position(views, stack@.take(p as int)),
        decreases p,
    {
        let id = stack[p - 1];
        let ghost part = stack@.take(p as int);
        assert(part.last() == stack@[p - 1]);
        if nodes[id].stop_time.is_none() {
            return Some(p - 1);
        }
        assert(part.drop_last() =~= stack@.take(p - 1));
        p -= 1;
    }
    None
}

impl CCT {
    /// Builds the tree of one task from its events in chronological order.
    ///
    /// An event that opens a range makes an open node under the innermost
    /// node that is still live and is put on the stack; a complete event does
    /// the same with its end known; an instant makes a leaf. An event that
    /// closes a range ends the innermost open node and is merged into its
    /// event; where no node is open it has no effect. Metadata names the
    /// process or the thread. The result is the tree of `run` on the events.
    pub fn from_events(events: Vec<Event>) -> (cct: Self)
        requires
            chronological(views(events@)),
            forall|i: int| 0 <= i < events@.len() ==> supported(#[trigger] events@[i]@),
        ensures
            cct@ == run(views(events@)).tree,
            cct@.wf(),
    {
        Self::from_events_with_diagnostics(events).0
    }

    /// Builds the tree of the events where they are in chronological order
    /// and of supported phases, with complete events whose ends are
    /// timestamps; gives nothing where they are not.
    pub fn try_from_events(events: Vec<Event>) -> (r: Option<Self>)
        ensures
            match r {
                Some(cct) => cct@ == run(views(events@)).tree && cct@.wf(),
                None => true,
            },
            r is Some <==> chronological(views(events@)) && forall|i: int|
                0 <= i < events@.len() ==> supported(#[trigger] events@[i]@),
    {
        if is_chronological(&events) && are_supported(&events) {
            Some(Self::from_events(events))
        } else {
            None
        }
    }

    /// Builds the tree as `from_events` does and reports, in the order of the
    /// events, every closing event that found no open range and every event
    /// of an ignored phase.
    pub fn from_events_with_diagnostics(events: Vec<Event>) -> (r: (Self, Vec<Diagnostic>))
        requires
            chronological(views(events@)),
            forall|i: int| 0 <= i < events@.len() ==> supported(#[trigger] events@[i]@),
        ensures
            r.0@ == run(views(events@)).tree,
            r.0@.wf(),
            r.1@ == diagnostics(views(events@)),
    {
        let ghost all = views(events@);
        let ghost total = events@.len();
        let root = CCTNode::new(0, i64::MIN, Some(i64::MAX), None, Event::default());
        let mut nodes: Vec<CCTNode> = Vec::new();
        nodes.push(root);
        let mut stack: Vec<usize> = Vec::new();
        stack.push(0);
        let mut process_name: Option<String> = None;
        let mut thread_name: Option<String> = None;
        let mut notes: Vec<Diagnostic> = Vec::new();
        let mut index: usize = 0;
        let length = events.len();
        proof {
            assert(node_views(nodes@) =~= seq![root_node()]);
            assert(stack@ =~= seq![0usize]);
            assert(all.take(0) =~= Seq::empty());
        }
        for event in it: events
            invariant
                it.seq() == events@,
                all == views(events@),
                total == events@.len(),
                total == length,
                index == it.index(),
                notes@ == diagnostics(all.take(it.index() as int)),
                forall|i: int| 0 <= i < events@.len() ==> supported(#[trigger] events@[i]@),
                (BuildState {
                    tree: TreeView {
                        nodes: node_views(nodes@),
                        process_name: opt_view(process_name),
                        thread_name: opt_view(thread_name),
                    },
                    stack: stack@,
                }) == run(all.take(it.index() as int)),
                run(all.take(it.index() as int)).wf(),
                nodes@.len() <= it.index() + 1,
                node_views(nodes@)[0].stop_time is Some,
        {
            let ghost i = it.index() as int;
            let ghost before = run(all.take(i));
            let ghost e = event@;
            proof {
                assert(all[i] == e);
                assert(all.take(i + 1) =~= all.take(i).push(e));
                assert(all.take(i + 1).drop_last() =~= all.take(i));
                lemma_run_push(all.take(i), e);
                assert(supported(events@[i]@));
            }
            let mut event = event;
            let ts = event.timestamp;
            match event.phase_type.group() {
                PhaseGroup::RangeOpen => {
                    let parent = pop_until_valid_parent(&nodes, &mut stack, ts);
                    let id = new_node(&mut nodes, ts, None, parent, event);
                    stack.push(id);
                },
                PhaseGroup::RangeClose => {
                    match find_open(&nodes, &stack) {
                        Some(p) => {
                            proof {
                                lemma_open_position(before.tree.nodes, before.stack);
                            }
                            let id = stack[p];
                            stack.truncate(p);
                            let ghost old_nodes = nodes@;
                            nodes[id].stop_time = Some(ts);
                            nodes[id].event.merge(&mut event);
                            assert(node_views(nodes@) =~= node_views(old_nodes).update(
                                id as int,
                                NodeView {
                                    stop_time: Some(ts),
                                    event: old_nodes[id as int]@.event.merged(e),
                                    ..old_nodes[id as int]@
                                },
                            ));
                        },
                        None => {
                            notes.push(Diagnostic::OrphanClose(index));
                        },
                    }
                },
                PhaseGroup::Point => {
                    let parent = pop_until_valid_parent(&nodes, &mut stack, ts);
                    new_node(&mut nodes, ts, Some(ts), parent, event);
                },
                PhaseGroup::Complete => {
                    let parent = pop_until_valid_parent(&nodes, &mut stack, ts);
                    let stop = match event.duration {
                        Some(d) => ts + d,
                        None => ts,
                    };
                    let id = new_node(&mut nodes, ts, Some(stop), parent, event);
                    stack.push(id);
                },
                PhaseGroup::Metadata => {
                    let name = name_of(&event.args);
                    assert(name@ == name_in_args(e.args));
                    if event.name == "process_name".to_owned() {
                        process_name = Some(name);
                    } else if event.name == "thread_name".to_owned() {
                        thread_name = Some(name);
                    }
                },
                PhaseGroup::Ignored => {
                    notes.push(Diagnostic::IgnoredPhase(index));
                },
                PhaseGroup::Unsupported => {},
            }
            index += 1;
            let count = nodes.len();
            proof {
                let after = BuildState {
                    tree: TreeView {
                        nodes: node_views(nodes@),
                        process_name: opt_view(process_name),
                        thread_name: opt_view(thread_name),
                    },
                    stack: stack@,
                };
                assert(after == before.step(e));
                assert(count == after.tree.nodes.len());
                lemma_step_wf(before, e);
                lemma_step_len(before, e);
            }
        }
        proof {
            assert(all.take(total as int) =~= all);
        }
        (Self { nodes, metadata: CCTMeta { process_name, thread_name } }, notes)
    }
}

/// The earliest start and the latest known end among the nodes under the
/// root: zero and the end of time where there are none.
fn extremes(nodes: &Vec<CCTNode>) -> (r: (i64, i64))
    requires
        nodes@.len() >= 1,
    ensures
        r.0 == time_shift(node_views(nodes@)),
        r.1 == max_stop(node_views(nodes@)),
{
    let ghost views = node_views(nodes@);
    let mut shift: i64 = 0;
    let mut end: i64 = i64::MAX;
    let mut known = false;
    let mut k: usize = 1;
    proof {
        assert(is_min_start(views.take(1), 0));
        assert(!some_stop_known(views.take(1)));
    }
    while k < nodes.len()
        invariant
            views == node_views(nodes@),
            1 <= k <= nodes@.len(),
            is_min_start(views.take(k as int), shift as int),
            is_max_stop(views.take(k as int), end as int),
            known == some_stop_known(views.take(k as int)),
        decreases nodes@.len() - k,
    {
        proof {
            lemma_min_extend(views, k as int, shift as int);
            lemma_max_extend(views, k as int, end as int);
        }
        let node = &nodes[k];
        if k == 1 || node.start_time < shift {
            shift = node.start_time;
        }
        match node.stop_time {
            Some(stop) => {
                if !known || stop > end {
                    end = stop;
                }
                known = true;
            },
            None => {},
        }
        k += 1;
    }
    proof {
        assert(views.take(k as int) =~= views);
        lemma_min_start_unique(views, shift as int);
        lemma_max_stop_unique(views, end as int);
    }
    (shift, end)
}

/// Whether `x - shift` is a timestamp.
fn fits_after(x: i64, shift: i64) -> (r: bool)
    ensures
        r == crate::cct::normal::fits(x - shift),
{
    let d: i128 = x as i128 - shift as i128;
    -0x8000_0000_0000_0000i128 <= d && d <= 0x7fff_ffff_ffff_ffffi128
}

impl CCT {
    /// Whether the tree can be normalized: whether every rebased timestamp
    /// is a timestamp.
    pub fn can_normalize(&self) -> (r: bool)
        ensures
            r == self@.normalizable(),
    {
        proof {
            use_type_invariant(self);
        }
        let (shift, end) = extremes(&self.nodes);
        if !fits_after(end, shift) {
            return false;
        }
        let mut k: usize = 1;
        while k < self.nodes.len()
            invariant
                1 <= k <= self.nodes@.len(),
                shift == time_shift(self@.nodes),
                end == max_stop(self@.nodes),
                forall|i: int|
                    1 <= i < k ==> {
                        &&& crate::cct::normal::fits((#[trigger] self@.nodes[i]).start_time - shift)
                        &&& match self@.nodes[i].stop_time {
                            Some(stop) => crate::cct::normal::fits(stop - shift),
                            None => true,
                        }
                    },
            decreases self.nodes@.len() - k,
        {
            let node = &self.nodes[k];
            assert(node@ == self@.nodes[k as int]);
            let stop_fits = match node.stop_time {
                Some(stop) => fits_after(stop, shift),
                None => true,
            };
            if !fits_after(node.start_time, shift) || !stop_fits {
                return false;
            }
            k += 1;
        }
        true
    }

    /// Normalizes the tree where it can be normalized and says whether it
    /// did; a tree that cannot be normalized stays as it is.
    pub fn try_normalize(&mut self) -> (done: bool)
        ensures
            done == old(self)@.normalizable(),
            final(self)@ == if done {
                old(self)@.normalized()
            } else {
                old(self)@
            },
    {
        if self.can_normalize() {
            self.normalize();
            true
        } else {
            false
        }
    }

    /// Rebases the timestamps so that the earliest start under the root is
    /// zero. Every node whose end is unknown gets the latest known end, and
    /// the root spans from zero to that end. The shape of the tree stays.
    pub fn normalize(&mut self)
        requires
            old(self)@.normalizable(),
        ensures
            final(self)@ == old(self)@.normalized(),
    {
        proof {
            use_type_invariant(&*self);
        }
        let (shift, end) = extremes(&self.nodes);
        let mut nodes: Vec<CCTNode> = Vec::new();
        nodes.push(CCTNode::new(0, i64::MIN, Some(i64::MAX), None, Event::default()));
        assert(node_views(nodes@) =~= seq![root_node()]);
        std::mem::swap(&mut self.nodes, &mut nodes);
        rebase(&mut nodes, shift, end);
        std::mem::swap(&mut self.nodes, &mut nodes);
    }
}

/// Moves every interval back by `shift` and gives every open node, and the
/// root, the end `end` moved back likewise.
fn rebase(nodes: &mut Vec<CCTNode>, shift: i64, end: i64)
    requires
        (TreeView { nodes: node_views(old(nodes)@), process_name: None, thread_name: None }).wf(),
        (TreeView {
            nodes: node_views(old(nodes)@),
            process_name: None,
            thread_name: None,
        }).normalizable(),
        shift == time_shift(node_views(old(nodes)@)),
        end == max_stop(node_views(old(nodes)@)),
    ensures
        node_views(final(nodes)@) == (TreeView {
            nodes: node_views(old(nodes)@),
            process_name: None,
            thread_name: None,
        }).normalized().nodes,
        (TreeView { nodes: node_views(final(nodes)@), process_name: None, thread_name: None }).wf(),
{
    let ghost before = TreeView {
        nodes: node_views(nodes@),
        process_name: None,
        thread_name: None,
    };
    let n = nodes.len();
    let mut k: usize = 0;
    while k < n
        invariant
            k <= n,
            n == before.nodes.len(),
            before.wf(),
            before.normalizable(),
            shift == time_shift(before.nodes),
            end == max_stop(before.nodes),
            nodes@.len() == n,
            forall|i: int| k <= i < n ==> #[trigger] node_views(nodes@)[i] == before.nodes[i],
            forall|i: int|
                0 <= i < k ==> #[trigger] node_views(nodes@)[i] == before.normalized().nodes[i],
        decreases n - k,
    {
        let ghost prev = nodes@;
        assert(node_views(nodes@)[k as int] == before.nodes[k as int]);
        if k == 0 {
            nodes[k].start_time = 0;
            nodes[k].stop_time = Some(end - shift);
        } else {
            let start = nodes[k].start_time;
            let stop = match nodes[k].stop_time {
                Some(stop) => stop - shift,
                None => end - shift,
            };
            nodes[k].start_time = start - shift;
            nodes[k].stop_time = Some(stop);
        }
        proof {
            let target = if k == 0 {
                rebased_root(before.nodes[0], shift as int, end as int)
            } else {
                rebased(before.nodes[k as int], shift as int, end as int)
            };
            assert(nodes@[k as int]@ == target);
            assert forall|i: int| 0 <= i < n && i != k implies nodes@[i] == prev[i] by {}
            assert forall|i: int| k < i < n implies #[trigger] node_views(nodes@)[i]
                == before.nodes[i] by {
                assert(nodes@[i] == prev[i]);
                assert(node_views(prev)[i] == before.nodes[i]);
            }
            assert forall|i: int| 0 <= i <= k implies #[trigger] node_views(nodes@)[i]
                == before.normalized().nodes[i] by {
                if i < k {
                    assert(nodes@[i] == prev[i]);
                    assert(node_views(prev)[i] == before.normalized().nodes[i]);
                }
            }
        }
        k += 1;
    }
    assert(node_views(nodes@) =~= before.normalized().nodes);
}

} // verus!
