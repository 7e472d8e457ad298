//! The check that a tree agrees with the nesting of its intervals, and the
//! proof that the builder makes such trees.

use vstd::prelude::*;
use crate::cct::model::{is_ancestor, run, NodeView, TreeView};
use crate::cct::nesting::{lemma_run_orderly, running_at, well_formed_trace};
use crate::cct::{CCTNode, CCT};
use crate::trace::EventView;

verus! {

/// The interval has no width: it ends at the tick at which it starts.
pub open spec fn is_instant(n: NodeView) -> bool {
    n.stop_time == Some(n.start_time)
}

/// The interval of `n1` holds that of `n2`: `n1` starts no later, and either
/// an end is unknown, or `n1` ends no earlier and `n2` starts before `n1`
/// ends. Two instants at one tick do not hold each other.
pub open spec fn covers_spec(n1: NodeView, n2: NodeView) -> bool {
    &&& !(is_instant(n1) && is_instant(n2) && n1.start_time == n2.start_time)
    &&& n1.start_time <= n2.start_time
    &&& match (n1.stop_time, n2.stop_time) {
        (Some(stop1), Some(stop2)) => stop1 >= stop2 && n2.start_time < stop1,
        _ => true,
    }
}

/// The tree agrees with the nesting of its intervals: whenever the interval
/// of one node holds that of another, the first is an ancestor of the second.
pub open spec fn valid(tree: TreeView) -> bool {
    forall|i: int, j: int|
        0 <= i < tree.nodes.len() && 0 <= j < tree.nodes.len() && covers_spec(
            #[trigger] tree.nodes[i],
            #[trigger] tree.nodes[j],
        ) ==> is_ancestor(tree.nodes, i, j)
}

/// Whether the interval of `node1` holds that of `node2`.
pub fn covers(node1: &CCTNode, node2: &CCTNode) -> (r: bool)
    ensures
        r == covers_spec(node1@, node2@),
{
    let start1 = node1.start_time();
    let start2 = node2.start_time();
    match (node1.stop_time(), node2.stop_time()) {
        (Some(stop1), Some(stop2)) => {
            if start1 == stop1 && start2 == stop2 && start1 == start2 {
                false
            } else {
                start1 <= start2 && stop1 >= stop2 && start2 < stop1
            }
        },
        _ => start1 <= start2,
    }
}

/// Whether `node1` is `node2` or one of its ancestors in `cct`: whether the
/// walk from `node2` along the parents reaches `node1`.
pub fn is_node1_parent_of_node2(cct: &CCT, node1: &CCTNode, node2: &CCTNode) -> (r: bool)
    requires
        node2@.id < cct@.nodes.len(),
    ensures
        r == is_ancestor(cct@.nodes, node1@.id as int, node2@.id as int),
{
    let n = cct.len();
    let target = node1.id();
    let mut child = node2.id();
    loop
        invariant
            cct@.wf(),
            n == cct@.nodes.len(),
            child < n,
            target == node1@.id,
            is_ancestor(cct@.nodes, target as int, node2@.id as int) == is_ancestor(
                cct@.nodes,
                target as int,
                child as int,
            ),
        decreases child,
    {
        if child == target {
            return true;
        }
        match cct.get_node(child).parent_node_id() {
            Some(parent) => {
                assert(child != 0);
                assert(parent < child);
                child = parent;
            },
            None => {
                return false;
            },
        }
    }
}

/// Whether the tree agrees with the nesting of its intervals. Every ordered
/// pair of nodes is looked at.
pub fn assert_cct_valid(cct: &CCT) -> (r: bool)
    ensures
        r == valid(cct@),
{
    let n = cct.len();
    let mut i: usize = 0;
    while i < n
        invariant
            cct@.wf(),
            n == cct@.nodes.len(),
            i <= n,
            forall|a: int, b: int|
                0 <= a < i && 0 <= b < n && covers_spec(
                    #[trigger] cct@.nodes[a],
                    #[trigger] cct@.nodes[b],
                ) ==> is_ancestor(cct@.nodes, a, b),
        decreases n - i,
    {
        let node1 = cct.get_node(i);
        let mut j: usize = 0;
        while j < n
            invariant
                cct@.wf(),
                n == cct@.nodes.len(),
                i < n,
                j <= n,
                node1@ == cct@.nodes[i as int],
                forall|b: int|
                    0 <= b < j && covers_spec(cct@.nodes[i as int], #[trigger] cct@.nodes[b])
                        ==> is_ancestor(cct@.nodes, i as int, b),
            decreases n - j,
        {
            let node2 = cct.get_node(j);
            assert(node1@.id == i && node2@.id == j);
            if covers(node1, node2) && !is_node1_parent_of_node2(cct, node1, node2) {
                return false;
            }
            j += 1;
        }
        i += 1;
    }
    true
}

/// The tree of a well-formed trace mirrors the nesting of its intervals:
/// a node whose interval holds that of another node is an ancestor of it.
///
/// Two pairs are left out, on which the builder cannot know better. Where
/// the two nodes start at the same tick, the order of the events decides
/// which lies under which, so the holding node must be the earlier one.
/// Where the held node never ended, the holding node must not have ended
/// before it started.
pub proof fn lemma_covering_node_is_ancestor(events: Seq<EventView>, i: int, j: int)
    requires
        well_formed_trace(events),
        0 <= i < run(events).tree.nodes.len(),
        0 <= j < run(events).tree.nodes.len(),
        covers_spec(run(events).tree.nodes[i], run(events).tree.nodes[j]),
        !(j < i && run(events).tree.nodes[i].start_time == run(events).tree.nodes[j].start_time),
        !(run(events).tree.nodes[j].stop_time is None && run(events).tree.nodes[i].ended_by(
            run(events).tree.nodes[j].start_time,
        )),
    ensures
        is_ancestor(run(events).tree.nodes, i, j),
{
    lemma_run_orderly(events);
    let nodes = run(events).tree.nodes;
    if i < j {
        assert(running_at(nodes[i], nodes[j].start_time));
    } else if j < i {
        assert(nodes[j].start_time <= nodes[i].start_time);
    }
}

/// In the tree of a well-formed trace in which every range was closed and no
/// node with an interval of some width starts at the tick of an earlier node,
/// the intervals and the ancestors agree without exception.
pub proof fn lemma_closed_trace_is_valid(events: Seq<EventView>)
    requires
        well_formed_trace(events),
        forall|j: int|
            0 <= j < run(events).tree.nodes.len() ==> (#[trigger] run(
                events,
            ).tree.nodes[j]).stop_time is Some,
        forall|i: int, j: int|
            0 <= j < i < run(events).tree.nodes.len() && (#[trigger] run(
                events,
            ).tree.nodes[i]).start_time == (#[trigger] run(events).tree.nodes[j]).start_time
                ==> is_instant(run(events).tree.nodes[i]),
    ensures
        valid(run(events).tree),
{
    let nodes = run(events).tree.nodes;
    lemma_run_orderly(events);
    assert forall|i: int, j: int|
        0 <= i < nodes.len() && 0 <= j < nodes.len() && covers_spec(
            #[trigger] nodes[i],
            #[trigger] nodes[j],
        ) implies is_ancestor(nodes, i, j) by {
        if j < i {
            assert(nodes[j].start_time <= nodes[i].start_time);
            assert(is_instant(nodes[i]));
        } else {
            lemma_covering_node_is_ancestor(events, i, j);
        }
    }
}

} // verus!
