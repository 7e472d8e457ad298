//! Facts about the stack machine that the proofs of the builder rest on.

use vstd::prelude::*;
use crate::cct::model::{live_stack, open_position, run, BuildState, NodeView};
use crate::trace::{EventView, PhaseGroup};

verus! {

/// Taking the ended nodes off a stack leaves a beginning of it that still
/// holds its bottom entry; what was taken off had ended, and what is now on
/// top had not, unless it is the bottom entry.
pub proof fn lemma_live_stack(nodes: Seq<NodeView>, stack: Seq<usize>, ts: i64)
    requires
        stack.len() >= 1,
    ensures
        ({
            let live = live_stack(nodes, stack, ts);
            &&& 1 <= live.len() <= stack.len()
            &&& live == stack.take(live.len() as int)
            &&& forall|k: int| live.len() <= k < stack.len() ==> nodes[stack[k] as int].ended_by(ts)
            &&& live.len() > 1 ==> !nodes[live.last() as int].ended_by(ts)
        }),
    decreases stack.len(),
{
    if stack.len() > 1 && nodes[stack.last() as int].ended_by(ts) {
        lemma_live_stack(nodes, stack.drop_last(), ts);
        let live = live_stack(nodes, stack, ts);
        assert(live == stack.take(live.len() as int)) by {
            assert(stack.drop_last().take(live.len() as int) =~= stack.take(live.len() as int));
        }
        assert forall|k: int| live.len() <= k < stack.len() implies nodes[stack[k] as int].ended_by(
            ts,
        ) by {
            if k < stack.len() - 1 {
                assert(stack.drop_last()[k] == stack[k]);
            }
        }
    } else {
        assert(stack.take(stack.len() as int) =~= stack);
    }
}

/// The innermost open node, where there is one, is open, and every entry
/// above it has a known end; where there is none, every entry has one.
pub proof fn lemma_open_position(nodes: Seq<NodeView>, stack: Seq<usize>)
    ensures
        match open_position(nodes, stack) {
            Some(p) => {
                &&& 0 <= p < stack.len()
                &&& nodes[stack[p] as int].stop_time is None
                &&& forall|k: int| p < k < stack.len() ==> nodes[stack[k] as int].stop_time is Some
            },
            None => forall|k: int| 0 <= k < stack.len() ==> nodes[stack[k] as int].stop_time is Some,
        },
    decreases stack.len(),
{
    if stack.len() > 0 && nodes[stack.last() as int].stop_time is Some {
        lemma_open_position(nodes, stack.drop_last());
        match open_position(nodes, stack) {
            Some(p) => {
                assert(stack.drop_last()[p] == stack[p]);
                assert forall|k: int| p < k < stack.len() implies nodes[stack[k] as int].stop_time is Some by {
                    if k < stack.len() - 1 {
                        assert(stack.drop_last()[k] == stack[k]);
                    }
                }
            },
            None => {
                assert forall|k: int| 0 <= k < stack.len() implies nodes[stack[k] as int].stop_time is Some by {
                    if k < stack.len() - 1 {
                        assert(stack.drop_last()[k] == stack[k]);
                    }
                }
            },
        }
    }
}

/// Attaching a node keeps the builder well formed.
pub proof fn lemma_attach_wf(s: BuildState, e: EventView, stop: Option<i64>, push: bool)
    requires
        s.wf(),
        s.tree.nodes.len() < usize::MAX,
    ensures
        s.attach(e, stop, push).wf(),
        s.attach(e, stop, push).tree.nodes.len() == s.tree.nodes.len() + 1,
{
    lemma_live_stack(s.tree.nodes, s.stack, e.timestamp);
    let live = live_stack(s.tree.nodes, s.stack, e.timestamp);
    let t = s.attach(e, stop, push);
    let n = s.tree.nodes.len() as int;
    assert(t.tree.nodes[n].id == n);
    assert(live.last() == s.stack[live.len() - 1]);
    assert forall|i: int| 0 <= i < t.tree.nodes.len() implies (#[trigger] t.tree.nodes[i]).id == i by {
        if i < n {
            assert(t.tree.nodes[i] == s.tree.nodes[i]);
        }
    }
    assert forall|i: int| 1 <= i < t.tree.nodes.len() implies match (#[trigger] t.tree.nodes[i]).parent_node_id {
        Some(p) => p < i,
        None => false,
    } by {
        if i < n {
            assert(t.tree.nodes[i] == s.tree.nodes[i]);
        }
    }
    assert forall|k: int| 0 <= k < t.stack.len() implies (#[trigger] t.stack[k]) < t.tree.nodes.len() by {
        if k < live.len() {
            assert(t.stack[k] == s.stack[k]);
        }
    }
    assert forall|k: int| 1 <= k < t.stack.len() implies t.tree.nodes[(#[trigger] t.stack[k]) as int].parent_node_id
        == Some(t.stack[k - 1]) by {
        if k < live.len() {
            assert(t.stack[k] == s.stack[k]);
            assert(t.stack[k - 1] == s.stack[k - 1]);
            assert(t.tree.nodes[s.stack[k] as int] == s.tree.nodes[s.stack[k] as int]);
        }
    }
}

/// Closing keeps the builder well formed where the root has a known end, as
/// it has from the start: the node that is closed is then not the root.
pub proof fn lemma_close_wf(s: BuildState, e: EventView)
    requires
        s.wf(),
        s.tree.nodes[0].stop_time is Some,
    ensures
        s.close(e).wf(),
        s.close(e).tree.nodes.len() == s.tree.nodes.len(),
        s.close(e).tree.nodes[0] == s.tree.nodes[0],
{
    lemma_open_position(s.tree.nodes, s.stack);
    let t = s.close(e);
    match open_position(s.tree.nodes, s.stack) {
        Some(p) => {
            let id = s.stack[p] as int;
            assert(p > 0);
            assert(id != 0) by {
                if p >= 1 {
                    assert(s.tree.nodes[s.stack[p] as int].parent_node_id == Some(s.stack[p - 1]));
                }
            }
            assert forall|k: int| 1 <= k < t.stack.len() implies t.tree.nodes[(#[trigger] t.stack[k]) as int].parent_node_id
                == Some(t.stack[k - 1]) by {
                assert(t.stack[k] == s.stack[k]);
                assert(t.stack[k - 1] == s.stack[k - 1]);
            }
        },
        None => {},
    }
}

/// A step makes at most one node and takes none away.
pub proof fn lemma_step_len(s: BuildState, e: EventView)
    requires
        s.wf(),
    ensures
        s.tree.nodes.len() <= s.step(e).tree.nodes.len() <= s.tree.nodes.len() + 1,
{
    lemma_open_position(s.tree.nodes, s.stack);
}

/// One step keeps a builder well formed whose root has a known end.
pub proof fn lemma_step_wf(s: BuildState, e: EventView)
    requires
        s.wf(),
        s.tree.nodes[0].stop_time is Some,
        s.step(e).tree.nodes.len() <= usize::MAX,
    ensures
        s.step(e).wf(),
        s.step(e).tree.nodes[0] == s.tree.nodes[0],
        s.tree.nodes.len() <= s.step(e).tree.nodes.len() <= s.tree.nodes.len() + 1,
{
    match e.phase_type.group() {
        PhaseGroup::RangeOpen => lemma_attach_wf(s, e, None, true),
        PhaseGroup::RangeClose => lemma_close_wf(s, e),
        PhaseGroup::Point => lemma_attach_wf(s, e, Some(e.timestamp), false),
        PhaseGroup::Complete => lemma_attach_wf(
            s,
            e,
            Some(crate::cct::model::complete_stop(e) as i64),
            true,
        ),
        _ => {},
    }
}

/// Running one event more is one step more.
pub proof fn lemma_run_push(events: Seq<EventView>, e: EventView)
    ensures
        run(events.push(e)) == run(events).step(e),
{
    assert(events.push(e).drop_last() =~= events);
}

/// A run makes at most one node for each event, and always a well-formed
/// builder with the root in first place.
pub proof fn lemma_run_wf(events: Seq<EventView>)
    requires
        events.len() < usize::MAX,
    ensures
        run(events).wf(),
        run(events).tree.nodes[0] == crate::cct::model::root_node(),
        1 <= run(events).tree.nodes.len() <= events.len() + 1,
    decreases events.len(),
{
    if events.len() > 0 {
        lemma_run_wf(events.drop_last());
        lemma_step_len(run(events.drop_last()), events.last());
        lemma_step_wf(run(events.drop_last()), events.last());
    }
}

} // verus!
