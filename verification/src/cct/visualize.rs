//! A tree laid out for drawing: every node with its interval and the list of
//! its children, and the text that shows the nodes as nested bars.

use vstd::prelude::*;
use crate::cct::model::NodeView;
use crate::cct::CCT;
use crate::text::{
    centered, decimal, pad_to, padded, push_all, push_centered, push_decimal, push_repeat, repeat,
    string_of,
};

verus! {

/// One node of a tree that is ready to be drawn.
#[derive(Debug)]
pub struct VisualNode {
    id: usize,
    start: i64,
    end: i64,
    children: Vec<usize>,
}

/// A tree that is ready to be drawn: the nodes of a calling context tree,
/// each with the indices of its children.
#[derive(Debug)]
pub struct VisualTree {
    nodes: Vec<VisualNode>,
}

/// The value of a node that is ready to be drawn.
pub struct VisualNodeView {
    pub id: usize,
    pub start: i64,
    pub end: i64,
    pub children: Seq<usize>,
}

impl View for VisualNode {
    type V = VisualNodeView;

    closed spec fn view(&self) -> VisualNodeView {
        VisualNodeView { id: self.id, start: self.start, end: self.end, children: self.children@ }
    }
}

/// The values of a sequence of nodes.
pub open spec fn visual_views(nodes: Seq<VisualNode>) -> Seq<VisualNodeView> {
    nodes.map_values(|n: VisualNode| n@)
}

impl View for VisualTree {
    type V = Seq<VisualNodeView>;

    closed spec fn view(&self) -> Seq<VisualNodeView> {
        visual_views(self.nodes@)
    }
}

/// Every node sits at its own index, and the children of a node are nodes
/// of the tree that come after it.
pub open spec fn visual_wf(nodes: Seq<VisualNodeView>) -> bool {
    &&& nodes.len() >= 1
    &&& forall|i: int| 0 <= i < nodes.len() ==> (#[trigger] nodes[i]).id == i
    &&& forall|i: int, k: int|
        0 <= i < nodes.len() && 0 <= k < nodes[i].children.len() ==> i < (
        #[trigger] nodes[i].children[k]) < nodes.len()
}

/// The indices below `upto` of the nodes whose parent is `parent`, in
/// increasing order. The root is nobody's child.
pub open spec fn children_upto(nodes: Seq<NodeView>, parent: usize, upto: int) -> Seq<usize>
    decreases upto,
{
    if upto <= 1 {
        Seq::empty()
    } else if nodes[upto - 1].parent_node_id == Some(parent) {
        children_upto(nodes, parent, upto - 1).push((upto - 1) as usize)
    } else {
        children_upto(nodes, parent, upto - 1)
    }
}

/// The end that is drawn for a node whose end is unknown: zero for the
/// extent of the whole tree, the node's own start for its bar.
pub open spec fn stop_or(n: NodeView, fallback: i64) -> i64 {
    match n.stop_time {
        Some(stop) => stop,
        None => fallback,
    }
}

/// `m` is the earliest start among the nodes with index from 1 below `upto`.
pub open spec fn is_earliest(nodes: Seq<NodeView>, upto: int, m: i64) -> bool {
    &&& exists|i: int| 1 <= i < upto && (#[trigger] nodes[i]).start_time == m
    &&& forall|i: int| 1 <= i < upto ==> m <= (#[trigger] nodes[i]).start_time
}

/// `m` is the latest end among the nodes with index from 1 below `upto`,
/// where an unknown end counts as zero.
pub open spec fn is_latest(nodes: Seq<NodeView>, upto: int, m: i64) -> bool {
    &&& exists|i: int| 1 <= i < upto && stop_or(#[trigger] nodes[i], 0) == m
    &&& forall|i: int| 1 <= i < upto ==> stop_or(#[trigger] nodes[i], 0) <= m
}

/// The drawing tree of a calling context tree: the root spans from the
/// earliest start to the latest end of the other nodes, every other node
/// spans its own interval, with its start for an unknown end, and every
/// node lists its children in the order in which they were made.
pub open spec fn draws(tree: Seq<NodeView>, visual: Seq<VisualNodeView>) -> bool {
    &&& visual.len() == tree.len()
    &&& is_earliest(tree, tree.len() as int, visual[0].start)
    &&& is_latest(tree, tree.len() as int, visual[0].end)
    &&& forall|i: int|
        1 <= i < tree.len() ==> (#[trigger] visual[i]).start == tree[i].start_time && visual[i].end
            == stop_or(tree[i], tree[i].start_time)
    &&& forall|i: int|
        0 <= i < tree.len() ==> (#[trigger] visual[i]).id == i && visual[i].children
            == children_upto(tree, i as usize, tree.len() as int)
}

/// The children listed for a node come after it and are nodes of the tree.
proof fn lemma_children_in_range(nodes: Seq<NodeView>, parent: usize, upto: int, k: int)
    requires
        upto <= nodes.len() <= usize::MAX,
        forall|i: int|
            1 <= i < nodes.len() ==> match (#[trigger] nodes[i]).parent_node_id {
                Some(p) => p < i,
                None => false,
            },
        0 <= k < children_upto(nodes, parent, upto).len(),
    ensures
        parent < children_upto(nodes, parent, upto)[k] < upto,
    decreases upto,
{
    if upto > 1 {
        let rest = children_upto(nodes, parent, upto - 1);
        if nodes[upto - 1].parent_node_id == Some(parent) && k == rest.len() {
            assert(children_upto(nodes, parent, upto)[k] == (upto - 1) as usize);
            assert(parent < upto - 1);
        } else {
            lemma_children_in_range(nodes, parent, upto - 1, k);
        }
    }
}

impl VisualTree {
    #[verifier::type_invariant]
    spec fn inv(self) -> bool {
        visual_wf(self@)
    }

    /// The number of nodes.
    pub fn len(&self) -> (n: usize)
        ensures
            n == self@.len(),
            visual_wf(self@),
    {
        proof {
            use_type_invariant(self);
        }
        self.nodes.len()
    }

    /// The node with index `id`.
    pub fn node(&self, id: usize) -> (n: &VisualNode)
        requires
            id < self@.len(),
        ensures
            n@ == self@[id as int],
    {
        &self.nodes[id]
    }
}

impl VisualNode {
    /// The node's index in its tree.
    pub fn id(&self) -> (r: usize)
        ensures
            r == self@.id,
    {
        self.id
    }

    /// The start of the node's bar.
    pub fn start(&self) -> (r: i64)
        ensures
            r == self@.start,
    {
        self.start
    }

    /// The end of the node's bar.
    pub fn end(&self) -> (r: i64)
        ensures
            r == self@.end,
    {
        self.end
    }

    /// The indices of the node's children.
    pub fn children(&self) -> (r: &Vec<usize>)
        ensures
            r@ == self@.children,
    {
        &self.children
    }
}

/// Lays a calling context tree out for drawing. The tree must hold a node
/// besides its root.
pub fn build_visual_tree(cct: &CCT) -> (tree: VisualTree)
    requires
        cct@.nodes.len() > 1,
    ensures
        draws(cct@.nodes, tree@),
{
    let n = cct.len();
    let ghost src = cct@.nodes;
    let mut min_time = cct.get_node(1).start_time();
    let mut max_time = match cct.get_node(1).stop_time() {
        Some(stop) => stop,
        None => 0,
    };
    let mut k: usize = 2;
    while k < n
        invariant
            src == cct@.nodes,
            n == src.len(),
            2 <= k <= n,
            is_earliest(src, k as int, min_time),
            is_latest(src, k as int, max_time),
        decreases n - k,
    {
        let node = cct.get_node(k);
        let ghost old_min = min_time;
        let ghost old_max = max_time;
        let ghost a = choose|i: int| 1 <= i < k && (#[trigger] src[i]).start_time == old_min;
        let ghost b = choose|i: int| 1 <= i < k && stop_or(#[trigger] src[i], 0) == old_max;
        if node.start_time() < min_time {
            min_time = node.start_time();
        }
        let end = match node.stop_time() {
            Some(stop) => stop,
            None => 0,
        };
        if end > max_time {
            max_time = end;
        }
        proof {
            assert(src[a].start_time == old_min);
            assert(stop_or(src[b], 0) == old_max);
            assert(stop_or(src[k as int], 0) == end);
        }
        k += 1;
    }
    let mut nodes: Vec<VisualNode> = Vec::new();
    nodes.push(VisualNode { id: 0, start: min_time, end: max_time, children: Vec::new() });
    let mut i: usize = 1;
    while i < n
        invariant
            src == cct@.nodes,
            n == src.len(),
            1 <= i <= n,
            nodes@.len() == i,
            nodes@[0]@.start == min_time,
            nodes@[0]@.end == max_time,
            forall|j: int| 0 <= j < i ==> (#[trigger] nodes@[j])@.id == j && nodes@[j]@.children.len() == 0,
            forall|j: int|
                1 <= j < i ==> (#[trigger] nodes@[j])@.start == src[j].start_time && nodes@[j]@.end
                    == stop_or(src[j], src[j].start_time),
        decreases n - i,
    {
        let node = cct.get_node(i);
        let start = node.start_time();
        let end = match node.stop_time() {
            Some(stop) => stop,
            None => start,
        };
        nodes.push(VisualNode { id: i, start, end, children: Vec::new() });
        i += 1;
    }
    let mut c: usize = 1;
    proof {
        assert forall|p: int| 0 <= p < n implies (#[trigger] nodes@[p])@.children == children_upto(
            src,
            p as usize,
            1,
        ) by {
            assert(nodes@[p]@.children =~= Seq::<usize>::empty());
        }
    }
    while c < n
        invariant
            src == cct@.nodes,
            cct@.wf(),
            n == src.len(),
            1 <= c <= n,
            nodes@.len() == n,
            nodes@[0]@.start == min_time,
            nodes@[0]@.end == max_time,
            forall|j: int| 0 <= j < n ==> (#[trigger] nodes@[j])@.id == j,
            forall|j: int|
                1 <= j < n ==> (#[trigger] nodes@[j])@.start == src[j].start_time && nodes@[j]@.end
                    == stop_or(src[j], src[j].start_time),
            forall|p: int|
                0 <= p < n ==> (#[trigger] nodes@[p])@.children == children_upto(
                    src,
                    p as usize,
                    c as int,
                ),
        decreases n - c,
    {
        let ghost prev = nodes@;
        let parent = match cct.get_node(c).parent_node_id() {
            Some(p) => p,
            None => 0,
        };
        assert(src[c as int].parent_node_id == Some(parent));
        nodes[parent].children.push(c);
        proof {
            assert forall|j: int| 0 <= j < n && j != parent implies nodes@[j] == prev[j] by {}
            assert forall|p: int| 0 <= p < n implies (#[trigger] nodes@[p])@.children
                == children_upto(src, p as usize, c + 1) by {
                if p != parent {
                    assert(nodes@[p] == prev[p]);
                }
            }
            assert forall|j: int| 0 <= j < n implies (#[trigger] nodes@[j])@.id == j by {
                if j != parent {
                    assert(nodes@[j] == prev[j]);
                }
            }
            assert forall|j: int| 1 <= j < n implies (#[trigger] nodes@[j])@.start
                == src[j].start_time && nodes@[j]@.end == stop_or(src[j], src[j].start_time) by {
                if j != parent {
                    assert(nodes@[j] == prev[j]);
                }
            }
        }
        c += 1;
    }
    proof {
        let visual = visual_views(nodes@);
        assert forall|i: int, k: int|
            0 <= i < visual.len() && 0 <= k < visual[i].children.len() implies i < (
        #[trigger] visual[i].children[k]) < visual.len() by {
            assert(visual[i] == nodes@[i]@);
            lemma_children_in_range(src, i as usize, n as int, k);
        }
        assert forall|i: int| 0 <= i < visual.len() implies (#[trigger] visual[i]).id == i by {
            assert(visual[i] == nodes@[i]@);
        }
        assert(visual[0] == nodes@[0]@);
        assert forall|i: int| 1 <= i < src.len() implies (#[trigger] visual[i]).start
            == src[i].start_time && visual[i].end == stop_or(src[i], src[i].start_time) by {
            assert(visual[i] == nodes@[i]@);
        }
        assert forall|i: int| 0 <= i < src.len() implies (#[trigger] visual[i]).id == i
            && visual[i].children == children_upto(src, i as usize, src.len() as int) by {
            assert(visual[i] == nodes@[i]@);
        }
    }
    VisualTree { nodes }
}

/// The list with `c` put in after every entry that starts no later than `c`.
pub open spec fn inserted(tree: Seq<VisualNodeView>, sorted: Seq<usize>, c: usize) -> Seq<usize>
    decreases sorted.len(),
{
    if sorted.len() == 0 || tree[sorted.last() as int].start <= tree[c as int].start {
        sorted.push(c)
    } else {
        inserted(tree, sorted.drop_last(), c).push(sorted.last())
    }
}

/// The nodes of the list in the order of their starts, nodes with one start
/// in the order of the list.
pub open spec fn by_start(tree: Seq<VisualNodeView>, kids: Seq<usize>) -> Seq<usize>
    decreases kids.len(),
{
    if kids.len() == 0 {
        Seq::empty()
    } else {
        inserted(tree, by_start(tree, kids.drop_last()), kids.last())
    }
}

/// The width that was allotted to a node: zero where none was.
pub open spec fn width_of(widths: Seq<usize>, id: usize) -> usize {
    if id < widths.len() {
        widths[id as int]
    } else {
        0
    }
}

/// One less, but not less than zero.
pub open spec fn less_one(x: int) -> int {
    if x > 0 {
        x - 1
    } else {
        0
    }
}

/// The number as a position in a line: the largest position where it is
/// larger.
pub open spec fn clip(x: int) -> usize {
    if x > usize::MAX {
        usize::MAX
    } else if x < 0 {
        0
    } else {
        x as usize
    }
}

/// The name of a node as it is drawn.
pub open spec fn label(id: usize) -> Seq<char> {
    seq!['#'] + decimal(id as nat) + seq!['#']
}

/// The bars of the first `k` of the nodes: for each a stroke and the node's
/// name, centred in dashes in a field one narrower than the node's width.
pub open spec fn bars(widths: Seq<usize>, kids: Seq<usize>, k: int) -> Seq<char>
    decreases k,
{
    if k <= 0 {
        Seq::empty()
    } else {
        bars(widths, kids, k - 1) + seq!['|'] + centered(
            label(kids[k - 1]),
            less_one(width_of(widths, kids[k - 1]) as int),
            '-',
        )
    }
}

/// The line with `text` written from column `index` on: a line that ends
/// before the column is filled up with spaces first, one fewer than the
/// distance.
pub open spec fn placed(line: Seq<char>, index: int, text: Seq<char>) -> Seq<char> {
    if line.len() < index {
        line + repeat(' ', less_one(index - line.len())) + text
    } else {
        line + text
    }
}

/// The lines after the children of node `id` were drawn into them: line `h`
/// gets the bars of the children, in the order of their starts, in a field
/// of `len` characters from column `index`, and the lines below get the
/// children of each child, each under its own bar. A node without children
/// draws nothing.
pub open spec fn drawn(
    tree: Seq<VisualNodeView>,
    widths: Seq<usize>,
    id: usize,
    len: usize,
    index: usize,
    lines: Seq<Seq<char>>,
    h: int,
) -> Seq<Seq<char>>
    decreases tree.len() - id, 1int, 0int,
{
    if id >= tree.len() {
        lines
    } else {
        let kids = by_start(tree, tree[id as int].children);
        if kids.len() == 0 {
            lines
        } else {
            let opened = if h >= lines.len() {
                lines.push(Seq::empty())
            } else {
                lines
            };
            let below = drawn_kids(tree, widths, id, index, opened, h, kids.len() as int);
            let text = padded(bars(widths, kids, kids.len() as int) + seq!['|'], len as int);
            below.update(h, placed(below[h], index as int, text))
        }
    }
}

/// The lines after the first `k` children of node `id` drew their own
/// children, each from the column that follows its stroke.
pub open spec fn drawn_kids(
    tree: Seq<VisualNodeView>,
    widths: Seq<usize>,
    id: usize,
    index: usize,
    lines: Seq<Seq<char>>,
    h: int,
    k: int,
) -> Seq<Seq<char>>
    decreases tree.len() - id, 0int, k,
{
    if k <= 0 || id >= tree.len() {
        lines
    } else {
        let kids = by_start(tree, tree[id as int].children);
        let before = drawn_kids(tree, widths, id, index, lines, h, k - 1);
        let kid = kids[k - 1];
        if id < kid < tree.len() {
            drawn(
                tree,
                widths,
                kid,
                width_of(widths, kid),
                clip(index + bars(widths, kids, k - 1).len() + 1),
                before,
                h + 1,
            )
        } else {
            before
        }
    }
}

/// The characters of each line.
pub open spec fn texts(lines: Seq<Vec<char>>) -> Seq<Seq<char>> {
    lines.map_values(|l: Vec<char>| l@)
}

/// The first line of a drawing: the name of the root, centred in dashes
/// between two strokes, `max_char` characters in all.
pub open spec fn banner(max_char: usize) -> Seq<char> {
    seq!['|'] + centered(label(0), max_char - 2, '-') + seq!['|']
}

/// Every entry of the ordered list is an entry of the list.
proof fn lemma_inserted_members(tree: Seq<VisualNodeView>, sorted: Seq<usize>, c: usize, i: int)
    requires
        0 <= i < inserted(tree, sorted, c).len(),
    ensures
        inserted(tree, sorted, c).len() == sorted.len() + 1,
        inserted(tree, sorted, c)[i] == c || sorted.contains(inserted(tree, sorted, c)[i]),
    decreases sorted.len(),
{
    lemma_inserted_len(tree, sorted, c);
    if sorted.len() == 0 || tree[sorted.last() as int].start <= tree[c as int].start {
        if i < sorted.len() {
            assert(sorted[i] == inserted(tree, sorted, c)[i]);
        }
    } else {
        let rest = inserted(tree, sorted.drop_last(), c);
        lemma_inserted_len(tree, sorted.drop_last(), c);
        if i < rest.len() {
            lemma_inserted_members(tree, sorted.drop_last(), c, i);
            if rest[i] != c {
                let w = choose|w: int| 0 <= w < sorted.drop_last().len() && sorted.drop_last()[w] == rest[i];
                assert(sorted[w] == rest[i]);
            }
        } else {
            assert(sorted[sorted.len() - 1] == sorted.last());
        }
    }
}

proof fn lemma_inserted_len(tree: Seq<VisualNodeView>, sorted: Seq<usize>, c: usize)
    ensures
        inserted(tree, sorted, c).len() == sorted.len() + 1,
    decreases sorted.len(),
{
    if !(sorted.len() == 0 || tree[sorted.last() as int].start <= tree[c as int].start) {
        lemma_inserted_len(tree, sorted.drop_last(), c);
    }
}

/// The ordered list holds the entries of the list, as many as the list.
proof fn lemma_by_start_members(tree: Seq<VisualNodeView>, kids: Seq<usize>, i: int)
    requires
        0 <= i < by_start(tree, kids).len(),
    ensures
        kids.contains(by_start(tree, kids)[i]),
    decreases kids.len(),
{
    if kids.len() > 0 {
        let front = by_start(tree, kids.drop_last());
        lemma_inserted_members(tree, front, kids.last(), i);
        let x = by_start(tree, kids)[i];
        if x == kids.last() {
            assert(kids[kids.len() - 1] == x);
        } else {
            let w = choose|w: int| 0 <= w < front.len() && front[w] == x;
            lemma_by_start_members(tree, kids.drop_last(), w);
            let v = choose|v: int| 0 <= v < kids.drop_last().len() && kids.drop_last()[v] == x;
            assert(kids[v] == x);
        }
    }
}

/// Putting `c` in at position `pos` is what `inserted` does, where the
/// entries from `pos` on start later than `c` and the entry before `pos`
/// does not.
proof fn lemma_inserted_at(tree: Seq<VisualNodeView>, sorted: Seq<usize>, c: usize, pos: int)
    requires
        0 <= pos <= sorted.len(),
        forall|k: int| pos <= k < sorted.len() ==> tree[(#[trigger] sorted[k]) as int].start > tree[c as int].start,
        pos > 0 ==> tree[sorted[pos - 1] as int].start <= tree[c as int].start,
    ensures
        inserted(tree, sorted, c) == sorted.insert(pos, c),
    decreases sorted.len() - pos,
{
    if pos == sorted.len() {
        assert(sorted.insert(pos, c) =~= sorted.push(c));
    } else {
        assert(tree[sorted[sorted.len() - 1] as int].start > tree[c as int].start);
        let front = sorted.drop_last();
        assert forall|k: int| pos <= k < front.len() implies tree[(#[trigger] front[k]) as int].start
            > tree[c as int].start by {
            assert(front[k] == sorted[k]);
        }
        if pos > 0 {
            assert(front[pos - 1] == sorted[pos - 1]);
        }
        lemma_inserted_at(tree, front, c, pos);
        assert(front.insert(pos, c).push(sorted.last()) =~= sorted.insert(pos, c));
    }
}

/// The children of a node in the order of their starts.
fn ordered_children(root: &VisualNode, tree: &VisualTree) -> (kids: Vec<usize>)
    requires
        root@.id < tree@.len(),
        tree@[root@.id as int] == root@,
    ensures
        kids@ == by_start(tree@, root@.children),
        forall|i: int| 0 <= i < kids@.len() ==> root@.id < (#[trigger] kids@[i]) < tree@.len(),
{
    proof {
        use_type_invariant(tree);
    }
    let mut kids: Vec<usize> = Vec::new();
    let mut i: usize = 0;
    assert(root.children@.take(0) =~= Seq::<usize>::empty());
    while i < root.children.len()
        invariant
            i <= root.children@.len(),
            root@.children == root.children@,
            root@.id < tree@.len(),
            tree@[root@.id as int] == root@,
            visual_wf(tree@),
            kids@ == by_start(tree@, root.children@.take(i as int)),
        decreases root.children@.len() - i,
    {
        let c = root.children[i];
        assert(root@.id < tree@[root@.id as int].children[i as int] < tree@.len());
        let ghost part = root.children@.take(i as int);
        proof {
            assert forall|k: int| 0 <= k < kids@.len() implies 0 <= (#[trigger] kids@[k])
                < tree@.len() by {
                lemma_by_start_members(tree@, part, k);
                let w = choose|w: int| 0 <= w < part.len() && part[w] == kids@[k];
                assert(tree@[root@.id as int].children[w] == part[w]);
            }
        }
        let start = tree.node(c).start();
        let mut pos: usize = kids.len();
        while pos > 0 && tree.node(kids[pos - 1]).start() > start
            invariant
                pos <= kids@.len(),
                c < tree@.len(),
                start == tree@[c as int].start,
                forall|k: int| 0 <= k < kids@.len() ==> 0 <= (#[trigger] kids@[k]) < tree@.len(),
                forall|k: int|
                    pos <= k < kids@.len() ==> tree@[(#[trigger] kids@[k]) as int].start > start,
            decreases pos,
        {
            pos -= 1;
        }
        proof {
            lemma_inserted_at(tree@, kids@, c, pos as int);
            assert(root.children@.take(i + 1).drop_last() =~= part);
            assert(root.children@.take(i + 1).last() == c);
        }
        kids.insert(pos, c);
        i += 1;
    }
    proof {
        assert(root.children@.take(i as int) =~= root.children@);
        assert forall|k: int| 0 <= k < kids@.len() implies root@.id < (#[trigger] kids@[k])
            < tree@.len() by {
            lemma_by_start_members(tree@, root@.children, k);
            let w = choose|w: int|
                0 <= w < root@.children.len() && root@.children[w] == kids@[k];
            assert(root@.id < tree@[root@.id as int].children[w] < tree@.len());
        }
    }
    kids
}

/// Draws the children of `root` into `lines`: their bars into line `h`, in
/// a field of `len` characters from column `index`, and what lies under
/// them into the lines below. `widths` gives each node the width of its
/// bar. `root` is a node of `tree`, and `h` is a line of `lines` or the
/// line after the last.
pub fn visualize(
    root: &VisualNode,
    tree: &VisualTree,
    widths: &Vec<usize>,
    len: usize,
    index: usize,
    lines: &mut Vec<Vec<char>>,
    h: usize,
)
    requires
        root@.id < tree@.len(),
        tree@[root@.id as int] == root@,
        h <= old(lines)@.len(),
    ensures
        texts(final(lines)@) == drawn(
            tree@,
            widths@,
            root@.id,
            len,
            index,
            texts(old(lines)@),
            h as int,
        ),
        final(lines)@.len() >= old(lines)@.len(),
    decreases tree@.len() - root@.id,
{
    proof {
        use_type_invariant(tree);
    }
    let kids = ordered_children(root, tree);
    if kids.len() == 0 {
        return ;
    }
    let ghost start = texts(lines@);
    if h >= lines.len() {
        lines.push(Vec::new());
        assert(texts(lines@) =~= start.push(Seq::empty()));
    }
    let ghost opened = texts(lines@);
    let mut repr: Vec<char> = Vec::new();
    let mut k: usize = 0;
    while k < kids.len()
        invariant
            k <= kids@.len(),
            root@.id < tree@.len(),
            tree@[root@.id as int] == root@,
            visual_wf(tree@),
            kids@ == by_start(tree@, root@.children),
            forall|i: int| 0 <= i < kids@.len() ==> root@.id < (#[trigger] kids@[i]) < tree@.len(),
            h < lines.len(),
            opened.len() <= lines@.len(),
            repr@ == bars(widths@, kids@, k as int),
            texts(lines@) == drawn_kids(tree@, widths@, root@.id, index, opened, h as int, k as int),
        decreases kids@.len() - k,
    {
        let id = kids[k];
        let child_len = if id < widths.len() {
            widths[id]
        } else {
            0
        };
        let child_index = index.saturating_add(repr.len()).saturating_add(1);
        assert(child_index == clip(index + bars(widths@, kids@, k as int).len() + 1));
        repr.push('|');
        let mut name: Vec<char> = Vec::new();
        name.push('#');
        push_decimal(&mut name, id);
        name.push('#');
        assert(name@ =~= label(id));
        push_centered(&mut repr, &name, child_len.saturating_sub(1), '-');
        assert(repr@ =~= bars(widths@, kids@, k + 1));
        let child = tree.node(id);
        assert(child@.id == id);
        visualize(child, tree, widths, child_len, child_index, lines, h + 1);
        k += 1;
    }
    repr.push('|');
    pad_to(&mut repr, len);
    let ghost below = texts(lines@);
    let ghost prev = lines@;
    if lines[h].len() < index {
        let gap = (index - lines[h].len()).saturating_sub(1);
        push_repeat(&mut lines[h], ' ', gap);
    }
    push_all(&mut lines[h], &repr);
    proof {
        let text = padded(bars(widths@, kids@, kids@.len() as int) + seq!['|'], len as int);
        assert(repr@ =~= text);
        assert forall|i: int| 0 <= i < lines@.len() && i != h implies lines@[i] == prev[i] by {}
        assert(lines@[h as int]@ =~= placed(below[h as int], index as int, text));
        assert(texts(lines@) =~= below.update(h as int, placed(below[h as int], index as int, text)));
    }
}

/// Draws the tree as lines of text: the root on the first line, `max_char`
/// characters wide, and under each node the bars of its children.
/// `widths` gives each node the width of its bar.
pub fn visualize_tree(tree: &VisualTree, widths: &Vec<usize>, max_char: usize) -> (out: Vec<String>)
    requires
        max_char >= 2,
    ensures
        out@.map_values(|s: String| s@) == drawn(
            tree@,
            widths@,
            0,
            max_char,
            0,
            seq![banner(max_char)],
            1,
        ),
{
    let n = tree.len();
    let root = tree.node(0);
    let mut first: Vec<char> = Vec::new();
    first.push('|');
    let mut name: Vec<char> = Vec::new();
    name.push('#');
    push_decimal(&mut name, 0);
    name.push('#');
    assert(name@ =~= label(0));
    push_centered(&mut first, &name, max_char - 2, '-');
    first.push('|');
    assert(first@ =~= banner(max_char));
    let mut lines: Vec<Vec<char>> = Vec::new();
    lines.push(first);
    assert(texts(lines@) =~= seq![banner(max_char)]);
    visualize(root, tree, widths, max_char, 0, &mut lines, 1);
    let mut out: Vec<String> = Vec::new();
    let mut i: usize = 0;
    while i < lines.len()
        invariant
            i <= lines@.len(),
            out@.len() == i,
            forall|k: int| 0 <= k < i ==> (#[trigger] out@[k])@ == lines@[k]@,
        decreases lines@.len() - i,
    {
        out.push(string_of(&lines[i]));
        i += 1;
    }
    assert(out@.map_values(|s: String| s@) =~= texts(lines@));
    out
}

} // verus!
