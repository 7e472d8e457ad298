//! Why the tree mirrors the nesting of intervals: a node that was still
//! running when a later node started is an ancestor of that node.

use vstd::prelude::*;
use crate::cct::lemmas::{
    lemma_attach_wf, lemma_close_wf, lemma_live_stack, lemma_open_position, lemma_step_len,
};
use crate::cct::model::{
    chronological, complete_stop, is_ancestor, live_stack, open_position, root_node, run,
    supported, BuildState, NodeView,
};
use crate::trace::{EventView, PhaseGroup};

verus! {

/// An event that closes a range finds everything that was nested in the
/// range already ended: each node above the innermost open node has ended
/// by the event's timestamp.
pub open spec fn closes_cleanly(s: BuildState, e: EventView) -> bool {
    e.phase_type.group() == PhaseGroup::RangeClose ==> match open_position(s.tree.nodes, s.stack) {
        Some(p) => forall|k: int|
            p < k < s.stack.len() ==> s.tree.nodes[(#[trigger] s.stack[k]) as int].ended_by(
                e.timestamp,
            ),
        None => true,
    }
}

/// No range is closed while an interval nested in it is still running.
pub open spec fn well_nested(events: Seq<EventView>) -> bool {
    forall|k: int|
        0 <= k < events.len() ==> closes_cleanly(run(events.take(k)), #[trigger] events[k])
}

/// A trace that the builder is meant for: in chronological order, of
/// supported events, with ranges closed only once what they hold has ended.
pub open spec fn well_formed_trace(events: Seq<EventView>) -> bool {
    &&& events.len() < usize::MAX
    &&& chronological(events)
    &&& forall|k: int| 0 <= k < events.len() ==> supported(#[trigger] events[k])
    &&& well_nested(events)
}

/// The node is still running at `t`: its end is unknown or lies after `t`.
pub open spec fn running_at(n: NodeView, t: i64) -> bool {
    !n.ended_by(t)
}

/// No node starts after `now`, and nodes start in the order in which they
/// were made.
pub open spec fn starts_in_order(nodes: Seq<NodeView>, now: i64) -> bool {
    &&& forall|i: int| 1 <= i < nodes.len() ==> (#[trigger] nodes[i]).start_time <= now
    &&& forall|i: int, j: int|
        0 <= i <= j < nodes.len() ==> (#[trigger] nodes[i]).start_time <= (
        #[trigger] nodes[j]).start_time
}

/// Every node that is not on the stack has ended by `now`.
pub open spec fn off_stack_ended(nodes: Seq<NodeView>, stack: Seq<usize>, now: i64) -> bool {
    forall|i: int|
        0 <= i < nodes.len() && !stack.contains(i as usize) ==> (#[trigger] nodes[i]).ended_by(now)
}

/// A node that was still running when a later node started is an ancestor of
/// that node.
pub open spec fn running_is_ancestor(nodes: Seq<NodeView>) -> bool {
    forall|i: int, j: int|
        0 <= i < j < nodes.len() && running_at(#[trigger] nodes[i], (#[trigger] nodes[j]).start_time)
            ==> is_ancestor(nodes, i, j)
}

/// What holds of the builder between two events of a well-formed trace, the
/// last of them at `now`.
pub open spec fn orderly(s: BuildState, now: i64) -> bool {
    &&& s.wf()
    &&& s.tree.nodes[0] == root_node()
    &&& starts_in_order(s.tree.nodes, now)
    &&& off_stack_ended(s.tree.nodes, s.stack, now)
    &&& running_is_ancestor(s.tree.nodes)
}

/// Whether one node is an ancestor of another depends only on the parents of
/// the nodes up to the second.
pub proof fn lemma_ancestor_stable(before: Seq<NodeView>, after: Seq<NodeView>, a: int, b: int)
    requires
        0 <= b < before.len() <= after.len(),
        forall|k: int|
            0 <= k < before.len() ==> (#[trigger] after[k]).parent_node_id
                == before[k].parent_node_id,
    ensures
        is_ancestor(after, a, b) == is_ancestor(before, a, b),
    decreases b,
{
    if a != b && 0 < b {
        assert(after[b].parent_node_id == before[b].parent_node_id);
        match before[b].parent_node_id {
            Some(p) => {
                if p < b {
                    lemma_ancestor_stable(before, after, a, p as int);
                }
            },
            None => {},
        }
    }
}

/// Each entry of the stack is an ancestor of every entry above it.
pub proof fn lemma_stack_chain(s: BuildState, k: int, m: int)
    requires
        s.wf(),
        0 <= k <= m < s.stack.len(),
    ensures
        is_ancestor(s.tree.nodes, s.stack[k] as int, s.stack[m] as int),
    decreases m,
{
    if k < m {
        lemma_stack_chain(s, k, m - 1);
        let top = s.stack[m] as int;
        assert(s.tree.nodes[top].parent_node_id == Some(s.stack[m - 1]));
        assert(top != 0);
        assert(s.stack[m - 1] < top);
        if s.stack[k] as int == top {
        } else {
            assert(is_ancestor(s.tree.nodes, s.stack[k] as int, top));
        }
    }
}

/// A new node keeps the builder orderly: whatever was still running when it
/// started is on the stack under it.
pub proof fn lemma_attach_orderly(s: BuildState, now: i64, e: EventView, stop: Option<i64>, push: bool)
    requires
        orderly(s, now),
        now <= e.timestamp,
        s.tree.nodes.len() < usize::MAX,
        !push ==> stop == Some(e.timestamp),
    ensures
        orderly(s.attach(e, stop, push), e.timestamp),
{
    let ts = e.timestamp;
    let nodes = s.tree.nodes;
    let n = nodes.len() as int;
    let live = live_stack(nodes, s.stack, ts);
    let t = s.attach(e, stop, push);
    let after = t.tree.nodes;
    lemma_live_stack(nodes, s.stack, ts);
    lemma_attach_wf(s, e, stop, push);
    assert(after[0] == nodes[0]);
    assert forall|i: int| 0 <= i < n implies #[trigger] after[i] == nodes[i] by {}
    assert forall|i: int, j: int| 0 <= i <= j < after.len() implies (#[trigger] after[i]).start_time
        <= (#[trigger] after[j]).start_time by {
        if j == n {
            if i == 0 {
            } else if i < n {
                assert(nodes[i].start_time <= now);
            }
        } else {
            assert(nodes[i].start_time <= nodes[j].start_time);
        }
    }
    assert forall|i: int| 0 <= i < after.len() && !t.stack.contains(i as usize) implies (
    #[trigger] after[i]).ended_by(ts) by {
        if i == n {
            if push {
                assert(t.stack[live.len() as int] == n as usize);
            }
        } else if s.stack.contains(i as usize) {
            let k = choose|k: int| 0 <= k < s.stack.len() && s.stack[k] == i as usize;
            if k < live.len() {
                assert(t.stack[k] == i as usize);
            }
            assert(nodes[s.stack[k] as int].ended_by(ts));
        } else {
            assert(nodes[i].ended_by(now));
        }
    }
    assert forall|i: int, j: int|
        0 <= i < j < after.len() && running_at(
            #[trigger] after[i],
            (#[trigger] after[j]).start_time,
        ) implies is_ancestor(after, i, j) by {
        if j < n {
            assert(running_at(nodes[i], nodes[j].start_time));
            lemma_ancestor_stable(nodes, after, i, j);
        } else {
            if !s.stack.contains(i as usize) {
                assert(nodes[i].ended_by(now));
            }
            let k = choose|k: int| 0 <= k < s.stack.len() && s.stack[k] == i as usize;
            if k >= live.len() {
                assert(nodes[s.stack[k] as int].ended_by(ts));
            }
            let m = live.len() - 1;
            lemma_stack_chain(s, k, m);
            let top = s.stack[m] as int;
            assert(live.last() == s.stack[m]);
            lemma_ancestor_stable(nodes, after, i, top);
            assert(after[n].parent_node_id == Some(top as usize));
            assert(is_ancestor(after, i, n));
        }
    }
}

/// The nodes after the innermost open node, at stack position `p`, was
/// closed at `ts` with the fields of `e`.
pub open spec fn closed_nodes(s: BuildState, p: int, e: EventView) -> Seq<NodeView> {
    let id = s.stack[p] as int;
    s.tree.nodes.update(
        id,
        NodeView {
            stop_time: Some(e.timestamp),
            event: s.tree.nodes[id].event.merged(e),
            ..s.tree.nodes[id]
        },
    )
}

proof fn lemma_close_off_stack(s: BuildState, now: i64, e: EventView, p: int)
    requires
        s.wf(),
        off_stack_ended(s.tree.nodes, s.stack, now),
        now <= e.timestamp,
        0 <= p < s.stack.len(),
        forall|k: int|
            p < k < s.stack.len() ==> s.tree.nodes[(#[trigger] s.stack[k]) as int].ended_by(
                e.timestamp,
            ),
    ensures
        off_stack_ended(closed_nodes(s, p, e), s.stack.take(p), e.timestamp),
{
    let ts = e.timestamp;
    let nodes = s.tree.nodes;
    let after = closed_nodes(s, p, e);
    let rest = s.stack.take(p);
    let id = s.stack[p] as int;
    assert forall|i: int| 0 <= i < after.len() && !rest.contains(i as usize) implies (
    #[trigger] after[i]).ended_by(ts) by {
        if i == id {
        } else {
            assert(after[i] == nodes[i]);
            if s.stack.contains(i as usize) {
                let k = choose|k: int| 0 <= k < s.stack.len() && s.stack[k] == i as usize;
                if k < p {
                    assert(rest[k] == i as usize);
                }
                assert(nodes[s.stack[k] as int].ended_by(ts));
            } else {
                assert(nodes[i].ended_by(now));
            }
        }
    }
}

proof fn lemma_close_running(s: BuildState, e: EventView, p: int)
    requires
        s.wf(),
        running_is_ancestor(s.tree.nodes),
        0 <= p < s.stack.len(),
        s.tree.nodes[s.stack[p] as int].stop_time is None,
    ensures
        running_is_ancestor(closed_nodes(s, p, e)),
{
    let nodes = s.tree.nodes;
    let after = closed_nodes(s, p, e);
    let id = s.stack[p] as int;
    assert forall|k: int| 0 <= k < nodes.len() implies (#[trigger] after[k]).parent_node_id
        == nodes[k].parent_node_id by {}
    assert forall|i: int, j: int|
        0 <= i < j < after.len() && running_at(
            #[trigger] after[i],
            (#[trigger] after[j]).start_time,
        ) implies is_ancestor(after, i, j) by {
        assert(after[j].start_time == nodes[j].start_time);
        assert(running_at(nodes[i], nodes[j].start_time)) by {
            if i != id {
                assert(after[i] == nodes[i]);
            }
        }
        lemma_ancestor_stable(nodes, after, i, j);
    }
}

proof fn lemma_close_starts(s: BuildState, now: i64, e: EventView, p: int)
    requires
        s.wf(),
        starts_in_order(s.tree.nodes, now),
        now <= e.timestamp,
        0 <= p < s.stack.len(),
    ensures
        starts_in_order(closed_nodes(s, p, e), e.timestamp),
{
    let nodes = s.tree.nodes;
    let after = closed_nodes(s, p, e);
    assert forall|i: int| 0 <= i < after.len() implies (#[trigger] after[i]).start_time
        == nodes[i].start_time by {}
    assert forall|i: int| 1 <= i < after.len() implies (#[trigger] after[i]).start_time
        <= e.timestamp by {
        assert(nodes[i].start_time <= now);
    }
    assert forall|i: int, j: int| 0 <= i <= j < after.len() implies (#[trigger] after[i]).start_time
        <= (#[trigger] after[j]).start_time by {
        assert(nodes[i].start_time <= nodes[j].start_time);
    }
}

/// Closing the innermost open node keeps the builder orderly, as long as
/// what lay above the node on the stack has ended.
pub proof fn lemma_close_orderly(s: BuildState, now: i64, e: EventView)
    requires
        orderly(s, now),
        now <= e.timestamp,
        e.phase_type.group() == PhaseGroup::RangeClose,
        closes_cleanly(s, e),
    ensures
        orderly(s.close(e), e.timestamp),
{
    lemma_open_position(s.tree.nodes, s.stack);
    lemma_close_wf(s, e);
    match open_position(s.tree.nodes, s.stack) {
        Some(p) => {
            assert(s.close(e).tree.nodes == closed_nodes(s, p, e));
            lemma_close_off_stack(s, now, e, p);
            lemma_close_running(s, e, p);
            lemma_close_starts(s, now, e, p);
        },
        None => {
            lemma_later(s, now, e.timestamp);
        },
    }
}

/// An orderly builder stays orderly as time passes.
pub proof fn lemma_later(s: BuildState, now: i64, later: i64)
    requires
        orderly(s, now),
        now <= later,
    ensures
        orderly(s, later),
{
    assert forall|i: int| 1 <= i < s.tree.nodes.len() implies (#[trigger] s.tree.nodes[i]).start_time
        <= later by {
        assert(s.tree.nodes[i].start_time <= now);
    }
    assert forall|i: int|
        0 <= i < s.tree.nodes.len() && !s.stack.contains(i as usize) implies (
    #[trigger] s.tree.nodes[i]).ended_by(later) by {
        assert(s.tree.nodes[i].ended_by(now));
    }
}

/// One event of a well-formed trace keeps the builder orderly.
pub proof fn lemma_step_orderly(s: BuildState, now: i64, e: EventView)
    requires
        orderly(s, now),
        now <= e.timestamp,
        supported(e),
        closes_cleanly(s, e),
        s.tree.nodes.len() < usize::MAX,
    ensures
        orderly(s.step(e), e.timestamp),
{
    match e.phase_type.group() {
        PhaseGroup::RangeOpen => lemma_attach_orderly(s, now, e, None, true),
        PhaseGroup::RangeClose => lemma_close_orderly(s, now, e),
        PhaseGroup::Point => lemma_attach_orderly(s, now, e, Some(e.timestamp), false),
        PhaseGroup::Complete => lemma_attach_orderly(
            s,
            now,
            e,
            Some(complete_stop(e) as i64),
            true,
        ),
        _ => {
            lemma_later(s, now, e.timestamp);
        },
    }
}

/// The timestamp of the last event, or the beginning of time.
pub open spec fn last_timestamp(events: Seq<EventView>) -> i64 {
    if events.len() == 0 {
        i64::MIN
    } else {
        events.last().timestamp
    }
}

/// The builder is orderly after every well-formed trace.
pub proof fn lemma_run_orderly(events: Seq<EventView>)
    requires
        well_formed_trace(events),
    ensures
        orderly(run(events), last_timestamp(events)),
        run(events).tree.nodes.len() <= events.len() + 1,
    decreases events.len(),
{
    if events.len() == 0 {
        let s = run(events);
        assert(s.stack.contains(0usize)) by {
            assert(s.stack[0] == 0usize);
        }
    } else {
        let front = events.drop_last();
        let e = events.last();
        assert forall|k: int| 0 <= k < front.len() implies closes_cleanly(
            run(front.take(k)),
            #[trigger] front[k],
        ) by {
            assert(front.take(k) =~= events.take(k));
            assert(front[k] == events[k]);
        }
        assert(well_formed_trace(front)) by {
            assert forall|k: int| 0 <= k < front.len() implies supported(#[trigger] front[k]) by {
                assert(front[k] == events[k]);
            }
            assert forall|i: int, j: int| 0 <= i <= j < front.len() implies front[i].timestamp
                <= front[j].timestamp by {
                assert(front[i] == events[i] && front[j] == events[j]);
            }
        }
        lemma_run_orderly(front);
        assert(events.take(events.len() - 1) =~= front);
        assert(closes_cleanly(run(front), events[events.len() - 1]));
        if front.len() > 0 {
            assert(events[front.len() - 1].timestamp <= events[events.len() - 1].timestamp);
            assert(front.last() == events[front.len() - 1]);
        }
        lemma_step_len(run(front), e);
        lemma_step_orderly(run(front), last_timestamp(front), e);
    }
}

} // verus!
