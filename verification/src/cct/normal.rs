//! Rebasing the timestamps of a tree so that its first node starts at zero.

use vstd::prelude::*;
use crate::cct::model::{NodeView, TreeView};

verus! {

/// `m` is the earliest start among the nodes under the root, or zero where
/// the root is alone.
pub open spec fn is_min_start(nodes: Seq<NodeView>, m: int) -> bool {
    if nodes.len() <= 1 {
        m == 0
    } else {
        &&& exists|i: int| 1 <= i < nodes.len() && (#[trigger] nodes[i]).start_time == m
        &&& forall|i: int| 1 <= i < nodes.len() ==> m <= (#[trigger] nodes[i]).start_time
    }
}

/// Some node under the root has a known end.
pub open spec fn some_stop_known(nodes: Seq<NodeView>) -> bool {
    exists|i: int| 1 <= i < nodes.len() && (#[trigger] nodes[i]).stop_time is Some
}

/// `m` is the latest known end among the nodes under the root, or the end of
/// time where none is known.
pub open spec fn is_max_stop(nodes: Seq<NodeView>, m: int) -> bool {
    if !some_stop_known(nodes) {
        m == i64::MAX
    } else {
        &&& exists|i: int| 1 <= i < nodes.len() && (#[trigger] nodes[i]).stop_time == Some(m as i64) && i64::MIN <= m <= i64::MAX
        &&& forall|i: int|
            1 <= i < nodes.len() ==> match (#[trigger] nodes[i]).stop_time {
                Some(stop) => stop <= m,
                None => true,
            }
    }
}

/// The amount by which normalizing moves every timestamp back.
pub open spec fn time_shift(nodes: Seq<NodeView>) -> int {
    choose|m: int| is_min_start(nodes, m)
}

/// The end that normalizing gives to the root and to every open node, before
/// the shift.
pub open spec fn max_stop(nodes: Seq<NodeView>) -> int {
    choose|m: int| is_max_stop(nodes, m)
}

/// The node with its interval moved back by `shift`; a missing end becomes
/// `end` moved back by `shift`.
pub open spec fn rebased(n: NodeView, shift: int, end: int) -> NodeView {
    NodeView {
        start_time: (n.start_time - shift) as i64,
        stop_time: Some(
            match n.stop_time {
                Some(stop) => (stop - shift) as i64,
                None => (end - shift) as i64,
            },
        ),
        ..n
    }
}

/// The root, rewritten to span from zero to the shifted `end`.
pub open spec fn rebased_root(n: NodeView, shift: int, end: int) -> NodeView {
    NodeView { start_time: 0, stop_time: Some((end - shift) as i64), ..n }
}

/// Whether `x` is a timestamp.
pub open spec fn fits(x: int) -> bool {
    i64::MIN <= x <= i64::MAX
}

impl TreeView {
    /// Every rebased timestamp is a timestamp.
    pub open spec fn normalizable(self) -> bool {
        let shift = time_shift(self.nodes);
        let end = max_stop(self.nodes);
        &&& fits(end - shift)
        &&& forall|i: int|
            1 <= i < self.nodes.len() ==> {
                &&& fits((#[trigger] self.nodes[i]).start_time - shift)
                &&& match self.nodes[i].stop_time {
                    Some(stop) => fits(stop - shift),
                    None => true,
                }
            }
    }

    /// The tree with its timestamps rebased: the earliest start under the
    /// root becomes zero, every open node ends with the latest known end,
    /// and the root spans from zero to that end. Parents, events and names
    /// stay.
    pub open spec fn normalized(self) -> TreeView {
        let shift = time_shift(self.nodes);
        let end = max_stop(self.nodes);
        TreeView {
            nodes: Seq::new(
                self.nodes.len(),
                |i: int|
                    if i == 0 {
                        rebased_root(self.nodes[0], shift, end)
                    } else {
                        rebased(self.nodes[i], shift, end)
                    },
            ),
            ..self
        }
    }
}

/// The earliest start is one number.
pub proof fn lemma_min_start_unique(nodes: Seq<NodeView>, m: int)
    requires
        is_min_start(nodes, m),
    ensures
        time_shift(nodes) == m,
{
    let c = time_shift(nodes);
    assert(is_min_start(nodes, c));
    if nodes.len() > 1 {
        let i = choose|i: int| 1 <= i < nodes.len() && (#[trigger] nodes[i]).start_time == m;
        let j = choose|j: int| 1 <= j < nodes.len() && (#[trigger] nodes[j]).start_time == c;
        assert(c <= nodes[i].start_time);
        assert(m <= nodes[j].start_time);
    }
}

/// The latest known end is one number.
pub proof fn lemma_max_stop_unique(nodes: Seq<NodeView>, m: int)
    requires
        is_max_stop(nodes, m),
    ensures
        max_stop(nodes) == m,
{
    let c = max_stop(nodes);
    assert(is_max_stop(nodes, c));
    if some_stop_known(nodes) {
        let i = choose|i: int|
            1 <= i < nodes.len() && (#[trigger] nodes[i]).stop_time == Some(m as i64) && i64::MIN
                <= m <= i64::MAX;
        let j = choose|j: int|
            1 <= j < nodes.len() && (#[trigger] nodes[j]).stop_time == Some(c as i64) && i64::MIN
                <= c <= i64::MAX;
        assert(nodes[i].stop_time->0 <= c);
        assert(nodes[j].stop_time->0 <= m);
    }
}

/// A tree with at least the root has an earliest start and a latest end.
pub proof fn lemma_extremes_exist(nodes: Seq<NodeView>)
    ensures
        is_min_start(nodes, time_shift(nodes)),
        is_max_stop(nodes, max_stop(nodes)),
        fits(time_shift(nodes)),
        fits(max_stop(nodes)),
{
    lemma_min_exists(nodes, nodes.len() as int);
    lemma_max_exists(nodes, nodes.len() as int);
    assert(nodes.take(nodes.len() as int) =~= nodes);
    if nodes.len() > 1 {
        let m = choose|m: int| is_min_start(nodes, m);
        assert(is_min_start(nodes, m));
    }
    let c = choose|c: int| is_max_stop(nodes, c);
    assert(is_max_stop(nodes, c));
}

/// The earliest start of a beginning of the nodes, carried one node on.
pub proof fn lemma_min_extend(nodes: Seq<NodeView>, k: int, m: int)
    requires
        1 <= k < nodes.len(),
        is_min_start(nodes.take(k), m),
    ensures
        is_min_start(
            nodes.take(k + 1),
            if k == 1 || nodes[k].start_time < m {
                nodes[k].start_time as int
            } else {
                m
            },
        ),
{
    let front = nodes.take(k);
    let part = nodes.take(k + 1);
    let last = nodes[k].start_time as int;
    assert(part[k] == nodes[k]);
    assert forall|i: int| 0 <= i < k implies #[trigger] part[i] == front[i] by {}
    if k > 1 {
        let i = choose|i: int| 1 <= i < front.len() && (#[trigger] front[i]).start_time == m;
        assert(part[i] == front[i]);
        let best = if last < m {
            last
        } else {
            m
        };
        assert forall|j: int| 1 <= j < part.len() implies best <= (#[trigger] part[j]).start_time by {
            if j < k {
                assert(part[j] == front[j]);
            }
        }
    }
}

/// The latest known end of a beginning of the nodes, carried one node on.
pub proof fn lemma_max_extend(nodes: Seq<NodeView>, k: int, m: int)
    requires
        1 <= k < nodes.len(),
        is_max_stop(nodes.take(k), m),
    ensures
        some_stop_known(nodes.take(k + 1)) == (some_stop_known(nodes.take(k))
            || nodes[k].stop_time is Some),
        is_max_stop(
            nodes.take(k + 1),
            match nodes[k].stop_time {
                Some(stop) => if !some_stop_known(nodes.take(k)) || stop > m {
                    stop as int
                } else {
                    m
                },
                None => m,
            },
        ),
{
    let front = nodes.take(k);
    let part = nodes.take(k + 1);
    assert(part[k] == nodes[k]);
    assert forall|i: int| 0 <= i < k implies #[trigger] part[i] == front[i] by {}
    if some_stop_known(front) {
        let w = choose|i: int| 1 <= i < front.len() && (#[trigger] front[i]).stop_time is Some;
        assert(part[w].stop_time is Some);
        let i = choose|i: int|
            1 <= i < front.len() && (#[trigger] front[i]).stop_time == Some(m as i64) && i64::MIN
                <= m <= i64::MAX;
        assert(part[i] == front[i]);
        let best = match nodes[k].stop_time {
            Some(stop) => if stop > m {
                stop as int
            } else {
                m
            },
            None => m,
        };
        assert forall|j: int| 1 <= j < part.len() implies match (#[trigger] part[j]).stop_time {
            Some(stop) => stop <= best,
            None => true,
        } by {
            if j < k {
                assert(part[j] == front[j]);
            }
        }
    } else {
        assert forall|j: int| 1 <= j < k implies (#[trigger] part[j]).stop_time is None by {
            assert(part[j] == front[j]);
        }
        if nodes[k].stop_time is Some {
            assert(part[k].stop_time is Some);
            let best = nodes[k].stop_time->0 as int;
            assert forall|j: int| 1 <= j < part.len() implies match (#[trigger] part[j]).stop_time {
                Some(stop) => stop <= best,
                None => true,
            } by {}
        } else {
            assert forall|j: int| 1 <= j < part.len() implies (#[trigger] part[j]).stop_time is None by {
                if j == k {
                    assert(part[k] == nodes[k]);
                }
            }
        }
    }
}

proof fn lemma_min_exists(nodes: Seq<NodeView>, n: int)
    requires
        0 <= n <= nodes.len(),
    ensures
        exists|m: int| is_min_start(nodes.take(n), m),
    decreases n,
{
    if n <= 1 {
        assert(is_min_start(nodes.take(n), 0));
    } else {
        lemma_min_exists(nodes, n - 1);
        let front = nodes.take(n - 1);
        let m = choose|m: int| is_min_start(front, m);
        lemma_min_extend(nodes, n - 1, m);
    }
}

proof fn lemma_max_exists(nodes: Seq<NodeView>, n: int)
    requires
        0 <= n <= nodes.len(),
    ensures
        exists|m: int| is_max_stop(nodes.take(n), m),
    decreases n,
{
    if n <= 1 {
        assert(!some_stop_known(nodes.take(n)));
        assert(is_max_stop(nodes.take(n), i64::MAX as int));
    } else {
        lemma_max_exists(nodes, n - 1);
        let front = nodes.take(n - 1);
        let m = choose|m: int| is_max_stop(front, m);
        lemma_max_extend(nodes, n - 1, m);
    }
}

/// Normalizing a normalized tree changes nothing: after the first time the
/// earliest start is zero, every end is known, and the root ends with the
/// latest of them.
pub proof fn lemma_normalize_idempotent(tree: TreeView)
    requires
        tree.nodes.len() >= 1,
        tree.normalizable(),
    ensures
        tree.normalized().normalizable(),
        tree.normalized().normalized() == tree.normalized(),
{
    let nodes = tree.nodes;
    let shift = time_shift(nodes);
    let end = max_stop(nodes);
    let once = tree.normalized();
    lemma_extremes_exist(nodes);
    assert(is_min_start(once.nodes, 0)) by {
        if nodes.len() > 1 {
            let i = choose|i: int| 1 <= i < nodes.len() && (#[trigger] nodes[i]).start_time == shift;
            assert(once.nodes[i].start_time == 0);
            assert forall|k: int| 1 <= k < once.nodes.len() implies 0 <= (
            #[trigger] once.nodes[k]).start_time by {
                assert(shift <= nodes[k].start_time);
            }
        }
    }
    lemma_min_start_unique(once.nodes, 0);
    let top = if nodes.len() > 1 {
        end - shift
    } else {
        i64::MAX as int
    };
    assert(is_max_stop(once.nodes, top)) by {
        if nodes.len() > 1 {
            assert(once.nodes[1].stop_time is Some);
            assert(some_stop_known(once.nodes));
            if some_stop_known(nodes) {
                let i = choose|i: int|
                    1 <= i < nodes.len() && (#[trigger] nodes[i]).stop_time == Some(end as i64)
                        && i64::MIN <= end <= i64::MAX;
                assert(once.nodes[i].stop_time == Some(top as i64));
            } else {
                assert(nodes[1].stop_time is None);
                assert(once.nodes[1].stop_time == Some(top as i64));
            }
            assert forall|k: int| 1 <= k < once.nodes.len() implies match (
            #[trigger] once.nodes[k]).stop_time {
                Some(stop) => stop <= top,
                None => true,
            } by {
                match nodes[k].stop_time {
                    Some(stop) => {
                        assert(stop <= end);
                    },
                    None => {},
                }
            }
        } else {
            assert(!some_stop_known(once.nodes));
        }
    }
    lemma_max_stop_unique(once.nodes, top);
    if nodes.len() == 1 {
        assert(!some_stop_known(nodes));
        assert(is_max_stop(nodes, i64::MAX as int));
        lemma_max_stop_unique(nodes, i64::MAX as int);
        assert(is_min_start(nodes, 0));
        lemma_min_start_unique(nodes, 0);
    }
    assert(once.normalizable());
    assert(once.normalized().nodes =~= once.nodes);
}

} // verus!
