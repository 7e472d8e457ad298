//! A closing event without an open range leaves the builder as it was.

use vstd::prelude::*;
use crate::cct::lemmas::{lemma_live_stack, lemma_open_position, lemma_run_push, lemma_run_wf};
use crate::cct::model::{live_stack, open_position, run, BuildState};
use crate::trace::{EventView, PhaseGroup};

verus! {

/// No node on the builder's stack is open.
pub open spec fn nothing_open(s: BuildState) -> bool {
    open_position(s.tree.nodes, s.stack) is None
}

/// A closing event that finds no open node has no effect: the nodes, the
/// names and the stack are what they were.
pub proof fn lemma_orphan_close_ignored(before: Seq<EventView>, e: EventView)
    requires
        e.phase_type.group() == PhaseGroup::RangeClose,
        nothing_open(run(before)),
    ensures
        run(before.push(e)) == run(before),
{
    lemma_run_push(before, e);
}

/// A trace with such a closing event in it builds the tree that the trace
/// without the event builds.
pub proof fn lemma_orphan_close_skipped(before: Seq<EventView>, e: EventView, after: Seq<EventView>)
    requires
        e.phase_type.group() == PhaseGroup::RangeClose,
        nothing_open(run(before)),
    ensures
        run(before.push(e) + after) == run(before + after),
    decreases after.len(),
{
    if after.len() == 0 {
        assert(before.push(e) + after =~= before.push(e));
        assert(before + after =~= before);
        lemma_orphan_close_ignored(before, e);
    } else {
        let front = after.drop_last();
        lemma_orphan_close_skipped(before, e, front);
        assert((before.push(e) + after).drop_last() =~= before.push(e) + front);
        assert((before + after).drop_last() =~= before + front);
        assert((before.push(e) + after).last() == after.last());
        assert((before + after).last() == after.last());
    }
}

/// Every node of the tree has a known end.
pub open spec fn all_ended(s: BuildState) -> bool {
    forall|i: int| 0 <= i < s.tree.nodes.len() ==> (#[trigger] s.tree.nodes[i]).stop_time is Some
}

/// While no event has opened a range, no node is open: a closing event that
/// comes before any opening event is an orphan.
pub proof fn lemma_nothing_open_before_first_range(events: Seq<EventView>)
    requires
        events.len() < usize::MAX,
        forall|k: int|
            0 <= k < events.len() ==> (#[trigger] events[k]).phase_type.group()
                != PhaseGroup::RangeOpen,
    ensures
        all_ended(run(events)),
        nothing_open(run(events)),
    decreases events.len(),
{
    lemma_run_wf(events);
    if events.len() > 0 {
        let front = events.drop_last();
        let e = events.last();
        assert forall|k: int| 0 <= k < front.len() implies (#[trigger] front[k]).phase_type.group()
            != PhaseGroup::RangeOpen by {
            assert(front[k] == events[k]);
        }
        lemma_nothing_open_before_first_range(front);
        lemma_run_wf(front);
        let s = run(front);
        let t = run(events);
        assert(e == events[events.len() - 1]);
        lemma_live_stack(s.tree.nodes, s.stack, e.timestamp);
        assert forall|i: int| 0 <= i < t.tree.nodes.len() implies (#[trigger] t.tree.nodes[i]).stop_time is Some by {
            if i < s.tree.nodes.len() {
                assert(s.tree.nodes[i].stop_time is Some);
            }
        }
    }
    let t = run(events);
    lemma_open_position(t.tree.nodes, t.stack);
    if open_position(t.tree.nodes, t.stack) is Some {
        let p = open_position(t.tree.nodes, t.stack)->0;
        assert(t.tree.nodes[t.stack[p] as int].stop_time is Some);
    }
}

} // verus!
