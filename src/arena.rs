//! The arena behind a widget tree: nodes in pre-order, where a node's index is
//! its place in the numbering and its subtree is a contiguous range.

use vstd::prelude::*;
use crate::geom::{Coord, Rect, Size, clamp_i32, sat_i32};
use crate::grid::{Span, grid_lines, grid_lines_of, spans_ok};
use crate::layout::{
    Align, AlignHints, GridPos, LayoutType, align_axis, aligned_len, aligned_pos, is_reversed,
    lays_along,
};
use crate::size_rules::{
    Margins, SizeRules, StretchPolicy, all_wf, surround_rules, gap, lemma_max_bounds, lemma_nonneg, lemma_par_weight, lemma_prefix_fits,
    lemma_seq_weight, lemma_sum_weight_cons, lemma_sum_weight_reverse, par_rules, rule_weight,
    seq_fits, seq_rules, sum_gaps, sum_weight,
};
use crate::solver::{
    clamp_to, lemma_ideal_round_trip, lemma_offset_bound, seq_offset, share_width, solve_seq,
};

verus! {

/// The number of a widget in the current configuration of its tree.
#[derive(Clone, Copy, Debug, PartialEq, Eq, Structural)]
pub struct WidgetId(pub u32);

/// What a node is: a leaf with a rule for each axis, a container, or a
/// frame: a border, before and after on each axis, around children that lie
/// over one another inside it.
#[derive(Clone, Copy, Debug, PartialEq, Eq, Structural)]
pub enum NodeKind {
    Leaf { horiz: SizeRules, vert: SizeRules },
    Container(LayoutType),
    Frame { bh: Margins, bv: Margins },
}

/// One widget of a tree.
///
/// `end` is one past the index of the last node of this node's subtree: the
/// subtree of node `i` is `i..end`. `align` places the widget in the space
/// its parent offers; `grabs_press` says whether a press that starts on the
/// widget grabs the input source for it; `cell` is its place where its
/// parent is a grid.
#[derive(Clone, Copy, Debug, PartialEq, Eq, Structural)]
pub struct Node {
    pub kind: NodeKind,
    pub end: usize,
    pub align: AlignHints,
    pub grabs_press: bool,
    pub cell: GridPos,
}

impl Node {
    /// A leaf; its subtree is itself alone, so its `end` is `index + 1`.
    pub fn leaf(index: usize, horiz: SizeRules, vert: SizeRules, align: AlignHints, grabs_press: bool) -> (r: Node)
        requires
            index < usize::MAX,
        ensures
            r == (Node {
                kind: NodeKind::Leaf { horiz, vert },
                end: (index + 1) as usize,
                align,
                grabs_press,
                cell: GridPos(0, 0, 1, 1),
            }),
    {
        Node { kind: NodeKind::Leaf { horiz, vert }, end: index + 1, align, grabs_press, cell: GridPos(0, 0, 1, 1) }
    }

    /// A container whose subtree ends before `end`.
    pub fn container(layout: LayoutType, end: usize, align: AlignHints) -> (r: Node)
        ensures
            r == (Node { kind: NodeKind::Container(layout), end, align, grabs_press: false, cell: GridPos(0, 0, 1, 1) }),
    {
        Node { kind: NodeKind::Container(layout), end, align, grabs_press: false, cell: GridPos(0, 0, 1, 1) }
    }

    /// A frame with the borders `bh` and `bv`, whose subtree ends before `end`.
    pub fn frame(end: usize, bh: Margins, bv: Margins, align: AlignHints) -> (r: Node)
        ensures
            r == (Node { kind: NodeKind::Frame { bh, bv }, end, align, grabs_press: false, cell: GridPos(0, 0, 1, 1) }),
    {
        Node { kind: NodeKind::Frame { bh, bv }, end, align, grabs_press: false, cell: GridPos(0, 0, 1, 1) }
    }

    /// This node, placed in the grid cell `cell` of its parent.
    pub fn in_cell(self, cell: GridPos) -> (r: Node)
        ensures
            r == (Node { cell, ..self }),
    {
        Node { cell, ..self }
    }
}

/// The lines that a cell spans on the given axis.
pub open spec fn cell_span(c: GridPos, vert: bool) -> Span {
    if vert {
        Span { first: c.1, len: c.3 }
    } else {
        Span { first: c.0, len: c.2 }
    }
}

/// The spans of the children of node `i` on the given axis, in spatial order.
pub open spec fn child_spans(nodes: Seq<Node>, i: int, vert: bool) -> Seq<Span> {
    spatial_children(nodes, i).map_values(|k: int| cell_span(nodes[k].cell, vert))
}

/// The number of lines that the spans `s` need: one past the last line any covers.
pub open spec fn lines_needed(s: Seq<Span>) -> nat
    decreases s.len(),
{
    if s.len() == 0 {
        0
    } else {
        let m = lines_needed(s.drop_last());
        let e = s.last().first + s.last().len;
        if e > m {
            e as nat
        } else {
            m
        }
    }
}

/// The rules of the lines of grid `i` on the given axis.
pub open spec fn grid_rules(nodes: Seq<Node>, vert: bool, rs: Seq<SizeRules>, i: int) -> Seq<SizeRules> {
    grid_lines(child_spans(nodes, i, vert), child_rules(nodes, rs, i), lines_needed(child_spans(nodes, i, vert)))
}

/// The border of a frame on the given axis.
pub open spec fn border(n: Node, vert: bool) -> Margins
    recommends
        n.kind is Frame,
{
    if vert {
        n.kind->bv
    } else {
        n.kind->bh
    }
}

/// The rule of a border: its two sides, fixed, with no margins of its own.
pub open spec fn border_rule(b: Margins) -> SizeRules {
    SizeRules {
        min: (b.0 + b.1) as u32,
        ideal: (b.0 + b.1) as u32,
        margins: Margins(0, 0),
        stretch: StretchPolicy::Fixed,
    }
}

/// The rule of a leaf on the given axis.
pub open spec fn leaf_rule(n: Node, vert: bool) -> SizeRules
    recommends
        n.kind is Leaf,
{
    if vert {
        n.kind->vert
    } else {
        n.kind->horiz
    }
}

/// The most that a node can add to a combined size on the given axis: a
/// leaf its rule's weight, a frame its border.
pub open spec fn node_weight(n: Node, vert: bool) -> int {
    match n.kind {
        NodeKind::Leaf { horiz, vert: v } => {
            let r = if vert {
                v
            } else {
                horiz
            };
            r.ideal + r.margins.0 + r.margins.1
        },
        NodeKind::Container(_) => 0,
        NodeKind::Frame { bh, bv } => if vert {
            bv.0 + bv.1
        } else {
            bh.0 + bh.1
        },
    }
}

/// The sum of the weights of the nodes `a..b`.
pub open spec fn range_weight(nodes: Seq<Node>, vert: bool, a: int, b: int) -> int
    decreases b - a,
{
    if a >= b {
        0
    } else {
        range_weight(nodes, vert, a, b - 1) + node_weight(nodes[b - 1], vert)
    }
}

pub open spec fn end_of(nodes: Seq<Node>, i: int) -> int {
    nodes[i].end as int
}

/// A well-formed arena: node 0 is the root and covers every node; each
/// subtree is a range that starts at its node and holds the subtrees of the
/// nodes inside it; a leaf's subtree is itself; leaves' rules are well
/// formed; every grid cell spans at least one line, and its last line is
/// numbered within `u32`; and the sizes of all leaves together fit in `u32` on
/// each axis.
pub open spec fn tree_wf(nodes: Seq<Node>) -> bool {
    &&& nodes.len() > 0
    &&& nodes[0].end == nodes.len()
    &&& forall|i: int| 0 <= i < nodes.len() ==> i < #[trigger] end_of(nodes, i) <= nodes.len()
    &&& forall|i: int, j: int|
        0 <= i < j < end_of(nodes, i) && j < nodes.len() ==> #[trigger] end_of(nodes, j) <= #[trigger] end_of(nodes, i)
    &&& forall|i: int| 0 <= i < nodes.len() && (#[trigger] nodes[i]).kind is Leaf ==> {
        &&& nodes[i].end == i + 1
        &&& leaf_rule(nodes[i], false).wf()
        &&& leaf_rule(nodes[i], true).wf()
    }
    &&& forall|i: int| 0 <= i < nodes.len() ==> {
        let c = (#[trigger] nodes[i]).cell;
        c.2 >= 1 && c.3 >= 1 && c.0 + c.2 <= u32::MAX && c.1 + c.3 <= u32::MAX
    }
    &&& range_weight(nodes, false, 0, nodes.len() as int) <= u32::MAX
    &&& range_weight(nodes, true, 0, nodes.len() as int) <= u32::MAX
}

/// The children of a node, from `c` on, that start before `stop`: `c`,
/// then the node after the subtree of `c`, and so on.
pub open spec fn child_walk(nodes: Seq<Node>, c: int, stop: int) -> Seq<int>
    decreases stop - c,
{
    if 0 <= c < stop && c < nodes.len() && c < nodes[c].end <= stop {
        seq![c] + child_walk(nodes, nodes[c].end as int, stop)
    } else {
        Seq::empty()
    }
}

/// The children of node `i`, first child first.
pub open spec fn children(nodes: Seq<Node>, i: int) -> Seq<int> {
    child_walk(nodes, i + 1, nodes[i].end as int)
}

/// The children of node `i` in the order in which they lie along the axis:
/// reversed where the layout puts the first child at the far end.
pub open spec fn spatial_children(nodes: Seq<Node>, i: int) -> Seq<int> {
    match nodes[i].kind {
        NodeKind::Container(l) => if is_reversed(l) {
            children(nodes, i).reverse()
        } else {
            children(nodes, i)
        },
        NodeKind::Frame { .. } => children(nodes, i),
        NodeKind::Leaf { .. } => Seq::empty(),
    }
}

/// The rules that `rs` gives the children of node `i`, in spatial order.
pub open spec fn child_rules(nodes: Seq<Node>, rs: Seq<SizeRules>, i: int) -> Seq<SizeRules> {
    spatial_children(nodes, i).map_values(|k: int| rs[k])
}

/// The rule of node `i` on the given axis, from the rules `rs` of the other
/// nodes: a leaf's own rule; for a grid, its lines laid one after the
/// other; for another container, its children's rules laid one after the
/// other along its axis, and over one another across it; for a frame, its
/// children's rules over one another, surrounded by its border.
pub open spec fn node_rules(nodes: Seq<Node>, vert: bool, rs: Seq<SizeRules>, i: int) -> SizeRules {
    match nodes[i].kind {
        NodeKind::Leaf { .. } => leaf_rule(nodes[i], vert),
        NodeKind::Container(l) => if l == LayoutType::Grid {
            seq_rules(grid_rules(nodes, vert, rs, i))
        } else if lays_along(l, vert) {
            seq_rules(child_rules(nodes, rs, i))
        } else {
            par_rules(child_rules(nodes, rs, i))
        },
        NodeKind::Frame { .. } => surround_rules(par_rules(child_rules(nodes, rs, i)), border_rule(border(nodes[i], vert)), false),
    }
}

/// Whether `rs` holds the rule of every node of the tree on the given axis.
pub open spec fn rules_solved(nodes: Seq<Node>, vert: bool, rs: Seq<SizeRules>) -> bool {
    &&& rs.len() == nodes.len()
    &&& forall|i: int| 0 <= i < nodes.len() ==> rs[i] == #[trigger] node_rules(nodes, vert, rs, i)
}

/// Weights of consecutive ranges add up.
pub proof fn lemma_range_weight_split(nodes: Seq<Node>, vert: bool, a: int, m: int, b: int)
    requires
        a <= m <= b,
    ensures
        range_weight(nodes, vert, a, b) == range_weight(nodes, vert, a, m) + range_weight(nodes, vert, m, b),
        range_weight(nodes, vert, a, m) >= 0,
        range_weight(nodes, vert, m, b) >= 0,
    decreases b - m,
{
    lemma_range_weight_nonneg(nodes, vert, a, m);
    lemma_range_weight_nonneg(nodes, vert, m, b);
    if m < b {
        lemma_range_weight_split(nodes, vert, a, m, b - 1);
    }
}

proof fn lemma_range_weight_nonneg(nodes: Seq<Node>, vert: bool, a: int, b: int)
    ensures
        range_weight(nodes, vert, a, b) >= 0,
    decreases b - a,
{
    if a < b {
        lemma_range_weight_nonneg(nodes, vert, a, b - 1);
    }
}

/// The weight of a range inside the tree fits in `u32`.
proof fn lemma_range_weight_fits(nodes: Seq<Node>, vert: bool, a: int, b: int)
    requires
        tree_wf(nodes),
        0 <= a <= b <= nodes.len(),
    ensures
        0 <= range_weight(nodes, vert, a, b) <= u32::MAX,
{
    lemma_range_weight_split(nodes, vert, 0, a, nodes.len() as int);
    lemma_range_weight_split(nodes, vert, a, b, nodes.len() as int);
}

/// The children met on a walk from `c` lie in `c..stop`, each with its
/// subtree inside that range, and they are visited in increasing order.
pub proof fn lemma_walk_bounds(nodes: Seq<Node>, c: int, stop: int)
    requires
        tree_wf(nodes),
        0 < c <= stop <= nodes.len(),
        forall|j: int| c <= j < stop ==> #[trigger] end_of(nodes, j) <= stop,
    ensures
        forall|k: int| 0 <= k < child_walk(nodes, c, stop).len() ==> {
            let x = #[trigger] child_walk(nodes, c, stop)[k];
            c <= x < stop && x < end_of(nodes, x) <= stop
        },
        c < stop ==> child_walk(nodes, c, stop) == seq![c] + child_walk(nodes, end_of(nodes, c), stop),
        c == stop ==> child_walk(nodes, c, stop).len() == 0,
    decreases stop - c,
{
    if c < stop {
        assert(c < end_of(nodes, c));
        let e = end_of(nodes, c);
        lemma_walk_bounds(nodes, e, stop);
        let w = child_walk(nodes, c, stop);
        assert forall|k: int| 0 <= k < w.len() implies {
            let x = #[trigger] w[k];
            c <= x < stop && x < end_of(nodes, x) <= stop
        } by {
            if k > 0 {
                assert(w[k] == child_walk(nodes, e, stop)[k - 1]);
            }
        }
    }
}

/// A node's subtree lies inside the subtree of every node whose range holds it.
proof fn lemma_children_nested(nodes: Seq<Node>, i: int)
    requires
        tree_wf(nodes),
        0 <= i < nodes.len(),
    ensures
        forall|j: int| i + 1 <= j < end_of(nodes, i) ==> #[trigger] end_of(nodes, j) <= end_of(nodes, i),
        i + 1 <= end_of(nodes, i) <= nodes.len(),
{
    assert(i < end_of(nodes, i));
    assert forall|j: int| i + 1 <= j < end_of(nodes, i) implies #[trigger] end_of(nodes, j) <= end_of(nodes, i) by {
        assert(j < nodes.len());
    }
}

/// The children's rules along a walk weigh no more than the nodes walked over.
proof fn lemma_walk_weight(nodes: Seq<Node>, vert: bool, rs: Seq<SizeRules>, c: int, stop: int)
    requires
        tree_wf(nodes),
        0 < c <= stop <= nodes.len(),
        rs.len() == nodes.len(),
        forall|j: int| c <= j < stop ==> #[trigger] end_of(nodes, j) <= stop,
        forall|j: int| c <= j < stop ==> rule_weight(#[trigger] rs[j]) <= range_weight(nodes, vert, j, end_of(nodes, j)),
    ensures
        sum_weight(child_walk(nodes, c, stop).map_values(|k: int| rs[k])) <= range_weight(nodes, vert, c, stop),
    decreases stop - c,
{
    lemma_walk_bounds(nodes, c, stop);
    if c < stop {
        let e = end_of(nodes, c);
        let rest = child_walk(nodes, e, stop);
        let f = |k: int| rs[k];
        assert((seq![c] + rest).map_values(f) =~= seq![rs[c]] + rest.map_values(f));
        lemma_sum_weight_cons(rs[c], rest.map_values(f));
        lemma_walk_weight(nodes, vert, rs, e, stop);
        lemma_range_weight_split(nodes, vert, c, e, stop);
    } else {
        assert(child_walk(nodes, c, stop).map_values(|k: int| rs[k]) =~= Seq::<SizeRules>::empty());
    }
}

/// The rule of a node depends only on the rules of the nodes after it.
pub proof fn lemma_node_rules_local(nodes: Seq<Node>, vert: bool, rs1: Seq<SizeRules>, rs2: Seq<SizeRules>, i: int)
    requires
        tree_wf(nodes),
        0 <= i < nodes.len(),
        rs1.len() == nodes.len(),
        rs2.len() == nodes.len(),
        forall|j: int| i < j < nodes.len() ==> rs1[j] == rs2[j],
    ensures
        node_rules(nodes, vert, rs1, i) == node_rules(nodes, vert, rs2, i),
{
    lemma_children_nested(nodes, i);
    lemma_walk_bounds(nodes, i + 1, end_of(nodes, i));
    let ch = children(nodes, i);
    let sp = spatial_children(nodes, i);
    assert forall|k: int| 0 <= k < sp.len() implies i < #[trigger] sp[k] < nodes.len() by {
        if nodes[i].kind is Container && is_reversed(nodes[i].kind->Container_0) {
            assert(sp[k] == ch[ch.len() - 1 - k]);
        } else if nodes[i].kind is Container {
            assert(sp[k] == ch[k]);
        }
    }
    assert(child_rules(nodes, rs1, i) =~= child_rules(nodes, rs2, i));
}

/// Any two tables that hold the rules of every node agree: a node's rule is
/// fixed by the tree alone.
pub proof fn lemma_rules_unique(nodes: Seq<Node>, vert: bool, rs1: Seq<SizeRules>, rs2: Seq<SizeRules>)
    requires
        tree_wf(nodes),
        rules_solved(nodes, vert, rs1),
        rules_solved(nodes, vert, rs2),
    ensures
        rs1 == rs2,
{
    lemma_rules_agree_from(nodes, vert, rs1, rs2, 0);
    assert(rs1 =~= rs2);
}

proof fn lemma_rules_agree_from(nodes: Seq<Node>, vert: bool, rs1: Seq<SizeRules>, rs2: Seq<SizeRules>, i: int)
    requires
        tree_wf(nodes),
        rules_solved(nodes, vert, rs1),
        rules_solved(nodes, vert, rs2),
        0 <= i <= nodes.len(),
    ensures
        forall|j: int| i <= j < nodes.len() ==> rs1[j] == rs2[j],
    decreases nodes.len() - i,
{
    if i < nodes.len() {
        lemma_rules_agree_from(nodes, vert, rs1, rs2, i + 1);
        lemma_node_rules_local(nodes, vert, rs1, rs2, i);
        assert(rs1[i] == node_rules(nodes, vert, rs1, i));
        assert(rs2[i] == node_rules(nodes, vert, rs2, i));
    }
}

/// The children of node `i`, in spatial order.
pub fn spatial_child_ids(nodes: &Vec<Node>, i: usize) -> (ids: Vec<usize>)
    requires
        tree_wf(nodes@),
        i < nodes.len(),
    ensures
        ids.len() == spatial_children(nodes@, i as int).len(),
        forall|k: int| 0 <= k < ids.len() ==> ids[k] == spatial_children(nodes@, i as int)[k],
{
    let e = nodes[i].end;
    proof {
        lemma_children_nested(nodes@, i as int);
        lemma_walk_bounds(nodes@, i as int + 1, e as int);
    }
    let mut ids: Vec<usize> = Vec::new();
    let mut c = i + 1;
    let ghost mut visited: Seq<int> = Seq::empty();
    while c < e
        invariant
            tree_wf(nodes@),
            i < nodes.len(),
            e == end_of(nodes@, i as int),
            i < c <= e <= nodes.len(),
            forall|j: int| i + 1 <= j < e ==> #[trigger] end_of(nodes@, j) <= e,
            children(nodes@, i as int) == visited + child_walk(nodes@, c as int, e as int),
            ids.len() == visited.len(),
            forall|k: int| 0 <= k < ids.len() ==> ids[k] == visited[k],
        decreases e - c,
    {
        proof {
            lemma_walk_bounds(nodes@, c as int, e as int);
            assert(visited + child_walk(nodes@, c as int, e as int) =~= visited.push(c as int)
                + child_walk(nodes@, end_of(nodes@, c as int), e as int));
        }
        ids.push(c);
        proof {
            visited = visited.push(c as int);
        }
        c = nodes[c].end;
    }
    proof {
        lemma_walk_bounds(nodes@, c as int, e as int);
        assert(children(nodes@, i as int) =~= visited);
    }
    let (is_leaf, reversed) = match nodes[i].kind {
        NodeKind::Container(l) => (false, l.reversed()),
        NodeKind::Frame { .. } => (false, false),
        NodeKind::Leaf { .. } => (true, false),
    };
    if is_leaf {
        proof {
            assert(nodes[i as int].end == i + 1);
        }
        return Vec::new();
    }
    if !reversed {
        return ids;
    }
    let mut rev: Vec<usize> = Vec::new();
    let mut k: usize = ids.len();
    while k > 0
        invariant
            k <= ids.len(),
            rev.len() == ids.len() - k,
            forall|j: int| 0 <= j < rev.len() ==> rev[j] == ids[ids.len() - 1 - j],
        decreases k,
    {
        k = k - 1;
        rev.push(ids[k]);
    }
    rev
}

/// The rules of the children of container `i`, in spatial order, read from `rs`.
fn gather_child_rules(nodes: &Vec<Node>, rs: &Vec<SizeRules>, i: usize) -> (kids: Vec<SizeRules>)
    requires
        tree_wf(nodes@),
        i < nodes.len(),
        rs.len() == nodes.len(),
    ensures
        kids@ == child_rules(nodes@, rs@, i as int),
{
    let ids = spatial_child_ids(nodes, i);
    proof {
        lemma_spatial_bounds(nodes@, i as int);
    }
    let mut kids: Vec<SizeRules> = Vec::new();
    let mut k: usize = 0;
    while k < ids.len()
        invariant
            k <= ids.len(),
            rs.len() == nodes.len(),
            ids.len() == spatial_children(nodes@, i as int).len(),
            forall|j: int| 0 <= j < ids.len() ==> ids[j] == spatial_children(nodes@, i as int)[j],
            forall|j: int| 0 <= j < ids.len() ==> i < #[trigger] spatial_children(nodes@, i as int)[j] < nodes.len(),
            kids.len() == k,
            forall|j: int| 0 <= j < k ==> kids[j] == rs[ids[j] as int],
        decreases ids.len() - k,
    {
        kids.push(rs[ids[k]]);
        k = k + 1;
    }
    proof {
        assert(kids@ =~= child_rules(nodes@, rs@, i as int));
    }
    kids
}

/// The children of a node, in spatial order, come after it and end within its subtree.
pub proof fn lemma_spatial_bounds(nodes: Seq<Node>, i: int)
    requires
        tree_wf(nodes),
        0 <= i < nodes.len(),
    ensures
        forall|k: int| 0 <= k < spatial_children(nodes, i).len() ==> {
            let c = #[trigger] spatial_children(nodes, i)[k];
            i < c < end_of(nodes, i) && c < end_of(nodes, c) <= end_of(nodes, i)
        },
{
    lemma_children_nested(nodes, i);
    lemma_walk_bounds(nodes, i + 1, end_of(nodes, i));
    let ch = children(nodes, i);
    let sp = spatial_children(nodes, i);
    assert forall|k: int| 0 <= k < sp.len() implies {
        let c = #[trigger] sp[k];
        i < c < end_of(nodes, i) && c < end_of(nodes, c) <= end_of(nodes, i)
    } by {
        if nodes[i].kind is Container && is_reversed(nodes[i].kind->Container_0) {
            assert(sp[k] == ch[ch.len() - 1 - k]);
        } else if nodes[i].kind is Container {
            assert(sp[k] == ch[k]);
        }
    }
}

/// The rule of node `i`, from the rules of the nodes after it.
fn node_rule_of(nodes: &Vec<Node>, rs: &Vec<SizeRules>, i: usize, vert: bool) -> (r: SizeRules)
    requires
        tree_wf(nodes@),
        i < nodes.len(),
        rs.len() == nodes.len(),
        forall|j: int| i < j < nodes.len() ==> (#[trigger] rs[j]).wf(),
        forall|j: int| i < j < nodes.len() ==> rule_weight(#[trigger] rs[j]) <= range_weight(nodes@, vert, j, end_of(nodes@, j)),
    ensures
        r == node_rules(nodes@, vert, rs@, i as int),
        r.wf(),
        rule_weight(r) <= range_weight(nodes@, vert, i as int, end_of(nodes@, i as int)),
{
    proof {
        lemma_children_nested(nodes@, i as int);
    }
    match nodes[i].kind {
        NodeKind::Leaf { horiz, vert: v } => {
            proof {
                assert(nodes[i as int].end == i + 1);
                assert(range_weight(nodes@, vert, i as int, i as int) == 0);
                assert(range_weight(nodes@, vert, i as int, i as int + 1) == node_weight(nodes[i as int], vert));
            }
            if vert {
                v
            } else {
                horiz
            }
        },
        NodeKind::Container(l) => {
            let kids = gather_child_rules(nodes, rs, i);
            let e = nodes[i].end;
            proof {
                lemma_walk_bounds(nodes@, i as int + 1, e as int);
                lemma_walk_weight(nodes@, vert, rs@, i as int + 1, e as int);
                lemma_range_weight_split(nodes@, vert, i as int, i as int + 1, e as int);
                lemma_range_weight_fits(nodes@, vert, i as int, e as int);
                let ch = children(nodes@, i as int);
                let f = |k: int| rs@[k];
                if is_reversed(l) {
                    assert(ch.reverse().map_values(f) =~= ch.map_values(f).reverse());
                    lemma_sum_weight_reverse(ch.map_values(f));
                }
                assert(sum_weight(kids@) <= range_weight(nodes@, vert, i as int, e as int));
                assert forall|j: int| 0 <= j < kids.len() implies (#[trigger] kids@[j]).wf() by {
                    if is_reversed(l) {
                        assert(kids@[j] == rs@[ch[ch.len() - 1 - j]]);
                    } else {
                        assert(kids@[j] == rs@[ch[j]]);
                    }
                }
                lemma_seq_weight(kids@);
                lemma_par_weight(kids@);
                lemma_max_bounds(kids@);
                lemma_nonneg(kids@);
            }
            if l == LayoutType::Grid {
                let spans = gather_spans(nodes, i, vert);
                let n = count_lines(&spans, 0xffff_ffff);
                let lines = grid_lines_of(&spans, &kids, n);
                proof {
                    lemma_seq_weight(lines@);
                    lemma_nonneg(lines@);
                }
                SizeRules::sum(&lines)
            } else if l.is_along(vert) {
                SizeRules::sum(&kids)
            } else {
                SizeRules::max_of(&kids)
            }
        },
        NodeKind::Frame { bh, bv } => {
            let kids = gather_child_rules(nodes, rs, i);
            proof {
                lemma_frame_kids(nodes@, vert, rs@, i as int);
                lemma_par_weight(kids@);
                lemma_max_bounds(kids@);
            }
            let b = if vert {
                bv
            } else {
                bh
            };
            let inner = SizeRules::max_of(&kids);
            let side = b.0 + b.1;
            let frame = SizeRules { min: side, ideal: side, margins: Margins(0, 0), stretch: StretchPolicy::Fixed };
            inner.surrounded_by(frame, false)
        },
    }
}

/// The spans of the children of node `i` on the given axis, in spatial order.
fn gather_spans(nodes: &Vec<Node>, i: usize, vert: bool) -> (spans: Vec<Span>)
    requires
        tree_wf(nodes@),
        i < nodes.len(),
    ensures
        spans@ == child_spans(nodes@, i as int, vert),
        forall|k: int| 0 <= k < spans.len() ==> {
            let sp = #[trigger] spans@[k];
            sp.len >= 1 && sp.first + sp.len <= u32::MAX
        },
{
    let ids = spatial_child_ids(nodes, i);
    proof {
        lemma_spatial_bounds(nodes@, i as int);
    }
    let mut spans: Vec<Span> = Vec::new();
    let mut k: usize = 0;
    while k < ids.len()
        invariant
            tree_wf(nodes@),
            k <= ids.len(),
            ids.len() == spatial_children(nodes@, i as int).len(),
            forall|j: int| 0 <= j < ids.len() ==> ids[j] == spatial_children(nodes@, i as int)[j],
            forall|j: int| 0 <= j < ids.len() ==> i < #[trigger] spatial_children(nodes@, i as int)[j] < nodes.len(),
            spans.len() == k,
            forall|j: int| 0 <= j < k ==> spans[j] == cell_span(nodes@[ids[j] as int].cell, vert),
            forall|j: int| 0 <= j < k ==> {
                let sp = #[trigger] spans@[j];
                sp.len >= 1 && sp.first + sp.len <= u32::MAX
            },
        decreases ids.len() - k,
    {
        let c = nodes[ids[k]].cell;
        proof {
            assert(nodes@[ids[k as int] as int].cell == c);
        }
        let sp = if vert {
            Span { first: c.1, len: c.3 }
        } else {
            Span { first: c.0, len: c.2 }
        };
        spans.push(sp);
        k = k + 1;
    }
    proof {
        assert(spans@ =~= child_spans(nodes@, i as int, vert));
    }
    spans
}

/// The number of lines that `spans` need.
fn count_lines(spans: &Vec<Span>, bound: usize) -> (n: usize)
    requires
        forall|k: int| 0 <= k < spans.len() ==> {
            let sp = #[trigger] spans@[k];
            sp.len >= 1 && sp.first + sp.len <= bound
        },
    ensures
        n == lines_needed(spans@),
        spans_ok(spans@, n as int),
        n <= bound,
{
    let mut n: usize = 0;
    let mut k: usize = 0;
    while k < spans.len()
        invariant
            k <= spans.len(),
            n <= bound,
            n == lines_needed(spans@.take(k as int)),
            forall|j: int| 0 <= j < spans.len() ==> {
                let sp = #[trigger] spans@[j];
                sp.len >= 1 && sp.first + sp.len <= bound
            },
            forall|j: int| 0 <= j < k ==> {
                let sp = #[trigger] spans@[j];
                sp.first + sp.len <= n
            },
        decreases spans.len() - k,
    {
        proof {
            assert(spans@.take(k as int + 1).drop_last() == spans@.take(k as int));
            assert(spans@.take(k as int + 1).last() == spans@[k as int]);
        }
        let e = spans[k].first as usize + spans[k].len as usize;
        if e > n {
            n = e;
        }
        k = k + 1;
    }
    proof {
        assert(spans@.take(k as int) == spans@);
    }
    n
}

/// The children of a frame weigh, together, no more than the frame's
/// subtree less its border, which fits in `u32`.
proof fn lemma_frame_kids(nodes: Seq<Node>, vert: bool, rs: Seq<SizeRules>, i: int)
    requires
        tree_wf(nodes),
        0 <= i < nodes.len(),
        nodes[i].kind is Frame,
        rs.len() == nodes.len(),
        forall|j: int| i < j < nodes.len() ==> (#[trigger] rs[j]).wf(),
        forall|j: int| i < j < nodes.len() ==> rule_weight(#[trigger] rs[j]) <= range_weight(nodes, vert, j, end_of(nodes, j)),
    ensures
        all_wf(child_rules(nodes, rs, i)),
        sum_weight(child_rules(nodes, rs, i)) + node_weight(nodes[i], vert) <= range_weight(nodes, vert, i, end_of(nodes, i)),
        range_weight(nodes, vert, i, end_of(nodes, i)) <= u32::MAX,
{
    let e = end_of(nodes, i);
    lemma_children_nested(nodes, i);
    lemma_walk_bounds(nodes, i + 1, e);
    lemma_walk_weight(nodes, vert, rs, i + 1, e);
    lemma_range_weight_split(nodes, vert, i, i + 1, e);
    lemma_range_weight_fits(nodes, vert, i, e);
    assert(range_weight(nodes, vert, i, i) == 0);
    assert(range_weight(nodes, vert, i, i + 1) == node_weight(nodes[i], vert));
    let ch = children(nodes, i);
    let kids = child_rules(nodes, rs, i);
    assert forall|j: int| 0 <= j < kids.len() implies (#[trigger] kids[j]).wf() by {
        assert(kids[j] == rs[ch[j]]);
    }
}

/// Setting the rule of node `i` keeps the rules of the nodes after it.
proof fn lemma_set_keeps_rules(nodes: Seq<Node>, vert: bool, rs0: Seq<SizeRules>, rs1: Seq<SizeRules>, i: int)
    requires
        tree_wf(nodes),
        0 <= i < nodes.len(),
        rs0.len() == nodes.len(),
        rs1 == rs0.update(i, node_rules(nodes, vert, rs0, i)),
        forall|j: int| i < j < nodes.len() ==> (#[trigger] rs0[j]) == node_rules(nodes, vert, rs0, j),
    ensures
        forall|j: int| i <= j < nodes.len() ==> (#[trigger] rs1[j]) == node_rules(nodes, vert, rs1, j),
{
    assert forall|j: int| i <= j < nodes.len() implies (#[trigger] rs1[j]) == node_rules(nodes, vert, rs1, j) by {
        lemma_node_rules_local(nodes, vert, rs1, rs0, j);
    }
}

/// The rule of every node of the tree on the given axis, and a bound on
/// each: no more than the weight of the node's subtree.
pub fn solve_rules(nodes: &Vec<Node>, vert: bool) -> (rs: Vec<SizeRules>)
    requires
        tree_wf(nodes@),
    ensures
        rules_solved(nodes@, vert, rs@),
        forall|i: int| 0 <= i < rs.len() ==> (#[trigger] rs[i]).wf(),
        forall|i: int| 0 <= i < rs.len() ==> rule_weight(#[trigger] rs[i]) <= range_weight(nodes@, vert, i, end_of(nodes@, i)),
{
    let n = nodes.len();
    let mut rs: Vec<SizeRules> = Vec::new();
    while rs.len() < n
        invariant
            rs.len() <= n,
        decreases n - rs.len(),
    {
        rs.push(SizeRules::empty());
    }
    let mut i: usize = n;
    while i > 0
        invariant
            tree_wf(nodes@),
            n == nodes.len(),
            rs.len() == n,
            i <= n,
            forall|j: int| i <= j < n ==> (#[trigger] rs[j]) == node_rules(nodes@, vert, rs@, j),
            forall|j: int| i <= j < n ==> (#[trigger] rs[j]).wf(),
            forall|j: int| i <= j < n ==> rule_weight(#[trigger] rs[j]) <= range_weight(nodes@, vert, j, end_of(nodes@, j)),
        decreases i,
    {
        i = i - 1;
        let ghost old_rs = rs@;
        let r = node_rule_of(nodes, &rs, i, vert);
        rs.set(i, r);
        proof {
            lemma_set_keeps_rules(nodes@, vert, old_rs, rs@, i as int);
            assert forall|j: int| i <= j < n implies (#[trigger] rs[j]).wf()
                && rule_weight(rs[j]) <= range_weight(nodes@, vert, j, end_of(nodes@, j)) by {
                if j > i {
                    assert(rs[j] == old_rs[j]);
                }
            }
        }
    }
    rs
}

fn leaf_wf(n: &Node) -> (r: bool)
    ensures
        r == (n.kind is Leaf ==> leaf_rule(*n, false).wf() && leaf_rule(*n, true).wf()),
{
    match n.kind {
        NodeKind::Leaf { horiz, vert } => horiz.min <= horiz.ideal && vert.min <= vert.ideal,
        _ => true,
    }
}

fn weight_of(n: &Node, vert: bool) -> (r: u64)
    ensures
        r == node_weight(*n, vert),
{
    match n.kind {
        NodeKind::Leaf { horiz, vert: v } => {
            let r = if vert {
                v
            } else {
                horiz
            };
            r.ideal as u64 + r.margins.0 as u64 + r.margins.1 as u64
        },
        NodeKind::Container(_) => 0,
        NodeKind::Frame { bh, bv } => if vert {
            bv.0 as u64 + bv.1 as u64
        } else {
            bh.0 as u64 + bh.1 as u64
        },
    }
}

/// Whether `nodes` is a well-formed arena.
pub fn check_nodes(nodes: &Vec<Node>) -> (r: bool)
    ensures
        r == tree_wf(nodes@),
{
    let n = nodes.len();
    if n == 0 || nodes[0].end != n {
        return false;
    }
    let mut wh: u64 = 0;
    let mut wv: u64 = 0;
    let mut i: usize = 0;
    while i < n
        invariant
            n == nodes.len(),
            n > 0,
            nodes[0].end == n,
            i <= n,
            wh == range_weight(nodes@, false, 0, i as int),
            wv == range_weight(nodes@, true, 0, i as int),
            wh <= u32::MAX,
            wv <= u32::MAX,
            forall|k: int| 0 <= k < i ==> k < #[trigger] end_of(nodes@, k) <= n,
            forall|k: int, j: int|
                0 <= k < i && k < j < end_of(nodes@, k) && j < n ==> #[trigger] end_of(nodes@, j) <= #[trigger] end_of(nodes@, k),
            forall|k: int| 0 <= k < i && (#[trigger] nodes@[k]).kind is Leaf ==> {
                &&& nodes@[k].end == k + 1
                &&& leaf_rule(nodes@[k], false).wf()
                &&& leaf_rule(nodes@[k], true).wf()
            },
            forall|k: int| 0 <= k < i ==> {
                let c = (#[trigger] nodes@[k]).cell;
                c.2 >= 1 && c.3 >= 1 && c.0 + c.2 <= u32::MAX && c.1 + c.3 <= u32::MAX
            },
        decreases n - i,
    {
        let e = nodes[i].end;
        if e <= i || e > n {
            proof {
                assert(!(i < end_of(nodes@, i as int) <= n));
            }
            return false;
        }
        let is_leaf = match nodes[i].kind {
            NodeKind::Leaf { .. } => true,
            _ => false,
        };
        let c = nodes[i].cell;
        if c.2 < 1 || c.3 < 1 || c.0 as u64 + c.2 as u64 > 0xffff_ffff || c.1 as u64 + c.3 as u64 > 0xffff_ffff {
            return false;
        }
        if (is_leaf && e != i + 1) || !leaf_wf(&nodes[i]) {
            proof {
                assert(nodes@[i as int].kind is Leaf);
            }
            return false;
        }
        let mut j: usize = i + 1;
        while j < e
            invariant
                n == nodes.len(),
                i < j <= e <= n,
                e == end_of(nodes@, i as int),
                forall|m: int| i < m < j ==> #[trigger] end_of(nodes@, m) <= e,
            decreases e - j,
        {
            if nodes[j].end > e {
                proof {
                    assert(end_of(nodes@, j as int) > end_of(nodes@, i as int));
                }
                return false;
            }
            j = j + 1;
        }
        let nh = wh + weight_of(&nodes[i], false);
        let nv = wv + weight_of(&nodes[i], true);
        if nh > 0xffff_ffff || nv > 0xffff_ffff {
            proof {
                lemma_range_weight_split(nodes@, false, 0, i as int + 1, n as int);
                lemma_range_weight_split(nodes@, true, 0, i as int + 1, n as int);
            }
            return false;
        }
        wh = nh;
        wv = nv;
        i = i + 1;
    }
    true
}

/// Children met later on a walk start after the subtrees of those met earlier.
proof fn lemma_walk_sorted(nodes: Seq<Node>, c: int, stop: int)
    requires
        tree_wf(nodes),
        0 < c <= stop <= nodes.len(),
        forall|j: int| c <= j < stop ==> #[trigger] end_of(nodes, j) <= stop,
    ensures
        forall|a: int, b: int| 0 <= a < b < child_walk(nodes, c, stop).len() ==>
            end_of(nodes, #[trigger] child_walk(nodes, c, stop)[a]) <= #[trigger] child_walk(nodes, c, stop)[b],
    decreases stop - c,
{
    lemma_walk_bounds(nodes, c, stop);
    if c < stop {
        let e = end_of(nodes, c);
        lemma_walk_sorted(nodes, e, stop);
        lemma_walk_bounds(nodes, e, stop);
        let w = child_walk(nodes, c, stop);
        let rest = child_walk(nodes, e, stop);
        assert forall|a: int, b: int| 0 <= a < b < w.len() implies end_of(nodes, #[trigger] w[a]) <= #[trigger] w[b] by {
            assert(w[b] == rest[b - 1]);
            if a > 0 {
                assert(w[a] == rest[a - 1]);
            }
        }
    }
}

/// Every node of `c..stop` lies in the subtree of a child met on the walk.
proof fn lemma_walk_covers(nodes: Seq<Node>, c: int, stop: int, j: int) -> (k: int)
    requires
        tree_wf(nodes),
        0 < c <= j < stop <= nodes.len(),
        forall|m: int| c <= m < stop ==> #[trigger] end_of(nodes, m) <= stop,
    ensures
        0 <= k < child_walk(nodes, c, stop).len(),
        child_walk(nodes, c, stop)[k] <= j < end_of(nodes, child_walk(nodes, c, stop)[k]),
    decreases stop - c,
{
    lemma_walk_bounds(nodes, c, stop);
    let e = end_of(nodes, c);
    if j < e {
        0
    } else {
        let k = lemma_walk_covers(nodes, e, stop, j);
        assert(child_walk(nodes, c, stop)[k + 1] == child_walk(nodes, e, stop)[k]);
        k + 1
    }
}

/// The position among the children of `i` of its child at spatial position `k`.
pub open spec fn child_index(nodes: Seq<Node>, i: int, k: int) -> int {
    if nodes[i].kind is Container && is_reversed(nodes[i].kind->Container_0) {
        children(nodes, i).len() - 1 - k
    } else {
        k
    }
}

proof fn lemma_spatial_is_child(nodes: Seq<Node>, i: int, k: int)
    requires
        tree_wf(nodes),
        0 <= i < nodes.len(),
        0 <= k < spatial_children(nodes, i).len(),
    ensures
        0 <= child_index(nodes, i, k) < children(nodes, i).len(),
        spatial_children(nodes, i)[k] == children(nodes, i)[child_index(nodes, i, k)],
{
}

/// No node is a child of two nodes, and no node is met twice among the
/// children of one node.
pub proof fn lemma_one_parent(nodes: Seq<Node>, i1: int, a: int, i2: int, b: int)
    requires
        tree_wf(nodes),
        0 <= i1 <= i2 < nodes.len(),
        0 <= a < spatial_children(nodes, i1).len(),
        0 <= b < spatial_children(nodes, i2).len(),
        i1 != i2 || a != b,
    ensures
        spatial_children(nodes, i1)[a] != spatial_children(nodes, i2)[b],
{
    lemma_spatial_bounds(nodes, i1);
    lemma_spatial_bounds(nodes, i2);
    lemma_spatial_is_child(nodes, i1, a);
    lemma_spatial_is_child(nodes, i2, b);
    lemma_children_nested(nodes, i1);
    lemma_children_nested(nodes, i2);
    let e1 = end_of(nodes, i1);
    lemma_walk_sorted(nodes, i1 + 1, e1);
    lemma_walk_bounds(nodes, i1 + 1, e1);
    let ch1 = children(nodes, i1);
    let c = spatial_children(nodes, i2)[b];
    let a1 = child_index(nodes, i1, a);
    if i1 == i2 {
        let b1 = child_index(nodes, i2, b);
        assert(a1 != b1);
        if a1 < b1 {
            assert(end_of(nodes, ch1[a1]) <= ch1[b1]);
        } else {
            assert(end_of(nodes, ch1[b1]) <= ch1[a1]);
        }
    } else if c == ch1[a1] {
        assert(i1 < i2 < e1);
        let kx = lemma_walk_covers(nodes, i1 + 1, e1, i2);
        let x = ch1[kx];
        if x < i2 {
            assert(end_of(nodes, i2) <= end_of(nodes, x));
        }
        if kx < a1 {
            assert(end_of(nodes, ch1[kx]) <= ch1[a1]);
        } else if kx > a1 {
            assert(end_of(nodes, ch1[a1]) <= ch1[kx]);
        }
    }
}

/// The start and extent that container `i` offers, on one axis, to its child
/// at spatial position `k`, out of its own start `p` and extent `len`:
/// in a grid, the lines the child spans and the margins between them; in a
/// frame, its own span less the border; along
/// the axis of another container, the child's share and the place after
/// the children before it; across it, the container's own span.
pub open spec fn offered(nodes: Seq<Node>, rs: Seq<SizeRules>, i: int, vert: bool, p: i32, len: u32, k: int) -> (i32, int) {
    if nodes[i].kind is Container && nodes[i].kind->Container_0 == LayoutType::Grid {
        let lines = grid_rules(nodes, vert, rs, i);
        let sp = child_spans(nodes, i, vert)[k];
        let last = sp.first + sp.len - 1;
        let a = seq_offset(lines, len as int, sp.first as int);
        let b = seq_offset(lines, len as int, last) + share_width(lines, len as int, last);
        (clamp_i32(p + a), clamp_to(b - a, u32::MAX as int))
    } else if nodes[i].kind is Frame {
        let b = border(nodes[i], vert);
        (clamp_i32(p + b.0), clamp_to(len - b.0 - b.1, u32::MAX as int))
    } else if nodes[i].kind is Container && lays_along(nodes[i].kind->Container_0, vert) {
        let s = child_rules(nodes, rs, i);
        (clamp_i32(p + seq_offset(s, len as int, k)), share_width(s, len as int, k))
    } else {
        (p, len as int)
    }
}

/// The rectangle of the child of container `i` at spatial position `k`,
/// given the container's rectangle `pr`: the space offered on each axis,
/// with the child's alignment applied.
pub open spec fn child_rect(nodes: Seq<Node>, hr: Seq<SizeRules>, vr: Seq<SizeRules>, i: int, pr: Rect, k: int) -> Rect {
    let c = spatial_children(nodes, i)[k];
    let (x, aw) = offered(nodes, hr, i, false, pr.pos.0, pr.size.0, k);
    let (y, ah) = offered(nodes, vr, i, true, pr.pos.1, pr.size.1, k);
    let w = aligned_len(aw, hr[c], nodes[c].align.horiz);
    let h = aligned_len(ah, vr[c], nodes[c].align.vert);
    Rect {
        pos: Coord(aligned_pos(x, aw, w, nodes[c].align.horiz), aligned_pos(y, ah, h, nodes[c].align.vert)),
        size: Size(w as u32, h as u32),
    }
}

/// Whether `rects` places every node: the root at `root`, and every child
/// where its parent's rectangle puts it.
pub open spec fn rects_placed(nodes: Seq<Node>, hr: Seq<SizeRules>, vr: Seq<SizeRules>, root: Rect, rects: Seq<Rect>) -> bool {
    &&& rects.len() == nodes.len()
    &&& rects[0] == root
    &&& forall|i: int, k: int| 0 <= i < nodes.len() && 0 <= k < spatial_children(nodes, i).len() ==>
        rects[#[trigger] spatial_children(nodes, i)[k]] == child_rect(nodes, hr, vr, i, rects[i], k)
}

/// The share of each line of `s` out of `len`, and where each starts.
fn line_offsets(s: &Vec<SizeRules>, len: u32) -> (r: (Vec<u32>, Vec<u64>))
    requires
        all_wf(s@),
        seq_fits(s@),
    ensures
        r.0.len() == s.len(),
        r.1.len() == s.len(),
        forall|j: int| 0 <= j < s.len() ==> r.0[j] == share_width(s@, len as int, j),
        forall|j: int| 0 <= j < s.len() ==> r.1[j] == seq_offset(s@, len as int, j),
        forall|j: int| 0 <= j < s.len() ==> r.1[j] + r.0[j] <= 2 * (u32::MAX as int),
{
    let widths = solve_seq(s, len);
    let mut offs: Vec<u64> = Vec::new();
    let mut wsum: u64 = 0;
    let mut gsum: u64 = 0;
    let mut k: usize = 0;
    while k < s.len()
        invariant
            k <= s.len(),
            all_wf(s@),
            seq_fits(s@),
            widths.len() == s.len(),
            forall|j: int| 0 <= j < s.len() ==> widths[j] == share_width(s@, len as int, j),
            offs.len() == k,
            forall|j: int| 0 <= j < k ==> offs[j] == seq_offset(s@, len as int, j),
            forall|j: int| 0 <= j < k ==> offs[j] + widths[j] <= 2 * (u32::MAX as int),
            k < s.len() ==> wsum + gsum == seq_offset(s@, len as int, k as int),
            k < s.len() ==> gsum == sum_gaps(s@.take(k as int + 1)),
        decreases s.len() - k,
    {
        proof {
            lemma_offset_bound(s@, len as int, k as int);
            assert(widths[k as int] == share_width(s@, len as int, k as int));
        }
        offs.push(wsum + gsum);
        wsum = wsum + widths[k] as u64;
        if k + 1 < s.len() {
            let a = s[k].margins.1;
            let b = s[k + 1].margins.0;
            let c = if a >= b {
                a
            } else {
                b
            };
            proof {
                let t = s@.take(k as int + 2);
                assert(t.drop_last() == s@.take(k as int + 1));
                assert(t[t.len() - 2] == s@[k as int]);
                lemma_offset_bound(s@, len as int, k as int + 1);
                lemma_prefix_fits(s@, k as int + 2);
                lemma_nonneg(t);
                assert(c as int == gap(s@[k as int], s@[k as int + 1]));
            }
            gsum = gsum + c as u64;
        }
        k = k + 1;
    }
    (widths, offs)
}

/// The starts and extents that container `i` offers its children on one axis.
fn offer_axis(nodes: &Vec<Node>, rs: &Vec<SizeRules>, i: usize, vert: bool, p: i32, len: u32) -> (r: Vec<(i32, u32)>)
    requires
        tree_wf(nodes@),
        i < nodes.len(),
        rules_solved(nodes@, vert, rs@),
        forall|j: int| 0 <= j < rs.len() ==> (#[trigger] rs[j]).wf(),
        forall|j: int| 0 <= j < rs.len() ==> rule_weight(#[trigger] rs[j]) <= range_weight(nodes@, vert, j, end_of(nodes@, j)),
    ensures
        r.len() == spatial_children(nodes@, i as int).len(),
        forall|k: int| 0 <= k < r.len() ==> r[k].0 == offered(nodes@, rs@, i as int, vert, p, len, k).0
            && r[k].1 as int == offered(nodes@, rs@, i as int, vert, p, len, k).1,
{
    let kids = gather_child_rules(nodes, rs, i);
    proof {
        lemma_kids_fit(nodes@, vert, rs@, i as int);
    }
    let (along, grid) = match nodes[i].kind {
        NodeKind::Container(l) => (l.is_along(vert), l == LayoutType::Grid),
        _ => (false, false),
    };
    let mut r: Vec<(i32, u32)> = Vec::new();
    if let NodeKind::Frame { bh, bv } = nodes[i].kind {
        let b = if vert {
            bv
        } else {
            bh
        };
        let inner = len as i64 - b.0 as i64 - b.1 as i64;
        let ext: u32 = if inner < 0 {
            0
        } else {
            inner as u32
        };
        let start = sat_i32(p as i64 + b.0 as i64);
        let mut k: usize = 0;
        while k < kids.len()
            invariant
                k <= kids.len(),
                kids@ == child_rules(nodes@, rs@, i as int),
                nodes@[i as int].kind is Frame,
                start == clamp_i32(p + border(nodes@[i as int], vert).0),
                ext == clamp_to(len - border(nodes@[i as int], vert).0 - border(nodes@[i as int], vert).1, u32::MAX as int),
                r.len() == k,
                forall|j: int| 0 <= j < k ==> r[j].0 == offered(nodes@, rs@, i as int, vert, p, len, j).0
                    && r[j].1 as int == offered(nodes@, rs@, i as int, vert, p, len, j).1,
            decreases kids.len() - k,
        {
            r.push((start, ext));
            k = k + 1;
        }
        return r;
    }
    if grid {
        let spans = gather_spans(nodes, i, vert);
        let n = count_lines(&spans, 0xffff_ffff);
        let lines = grid_lines_of(&spans, &kids, n);
        proof {
            lemma_seq_weight(lines@);
            lemma_nonneg(lines@);
        }
        let (widths, offs) = line_offsets(&lines, len);
        let mut k: usize = 0;
        while k < spans.len()
            invariant
                k <= spans.len(),
                spans@ == child_spans(nodes@, i as int, vert),
                spans.len() == spatial_children(nodes@, i as int).len(),
                spans_ok(spans@, n as int),
                lines@ == grid_rules(nodes@, vert, rs@, i as int),
                lines.len() == n,
                nodes@[i as int].kind == NodeKind::Container(LayoutType::Grid),
                widths.len() == n,
                offs.len() == n,
                forall|j: int| 0 <= j < n ==> widths[j] == share_width(lines@, len as int, j),
                forall|j: int| 0 <= j < n ==> offs[j] == seq_offset(lines@, len as int, j),
                forall|j: int| 0 <= j < n ==> offs[j] + widths[j] <= 2 * (u32::MAX as int),
                r.len() == k,
                forall|j: int| 0 <= j < k ==> r[j].0 == offered(nodes@, rs@, i as int, vert, p, len, j).0
                    && r[j].1 as int == offered(nodes@, rs@, i as int, vert, p, len, j).1,
            decreases spans.len() - k,
        {
            let sp = spans[k];
            proof {
                assert(sp == spans@[k as int]);
            }
            let f = sp.first as usize;
            let last = f + sp.len as usize - 1;
            let a = offs[f] as i64;
            let b = offs[last] as i64 + widths[last] as i64;
            let d = b - a;
            let ext: u32 = if d < 0 {
                0
            } else if d > 0xffff_ffff {
                0xffff_ffff
            } else {
                d as u32
            };
            r.push((sat_i32(p as i64 + a), ext));
            k = k + 1;
        }
        return r;
    }
    if !along {
        let mut k: usize = 0;
        while k < kids.len()
            invariant
                k <= kids.len(),
                r.len() == k,
                forall|j: int| 0 <= j < k ==> r[j] == (p, len),
            decreases kids.len() - k,
        {
            r.push((p, len));
            k = k + 1;
        }
        return r;
    }
    let (widths, offs) = line_offsets(&kids, len);
    let mut k: usize = 0;
    while k < kids.len()
        invariant
            k <= kids.len(),
            kids@ == child_rules(nodes@, rs@, i as int),
            nodes@[i as int].kind is Container && lays_along(nodes@[i as int].kind->Container_0, vert),
            nodes@[i as int].kind->Container_0 != LayoutType::Grid,
            widths.len() == kids.len(),
            offs.len() == kids.len(),
            forall|j: int| 0 <= j < kids.len() ==> widths[j] == share_width(kids@, len as int, j),
            forall|j: int| 0 <= j < kids.len() ==> offs[j] == seq_offset(kids@, len as int, j),
            forall|j: int| 0 <= j < kids.len() ==> offs[j] + widths[j] <= 2 * (u32::MAX as int),
            r.len() == k,
            forall|j: int| 0 <= j < k ==> r[j].0 == offered(nodes@, rs@, i as int, vert, p, len, j).0
                && r[j].1 as int == offered(nodes@, rs@, i as int, vert, p, len, j).1,
        decreases kids.len() - k,
    {
        r.push((sat_i32(p as i64 + offs[k] as i64), widths[k]));
        k = k + 1;
    }
    r
}

/// The rules of the children of a node fit in `u32` laid out one after the other.
proof fn lemma_kids_fit(nodes: Seq<Node>, vert: bool, rs: Seq<SizeRules>, i: int)
    requires
        tree_wf(nodes),
        0 <= i < nodes.len(),
        rules_solved(nodes, vert, rs),
        forall|j: int| 0 <= j < rs.len() ==> (#[trigger] rs[j]).wf(),
        forall|j: int| 0 <= j < rs.len() ==> rule_weight(#[trigger] rs[j]) <= range_weight(nodes, vert, j, end_of(nodes, j)),
    ensures
        seq_fits(child_rules(nodes, rs, i)),
        all_wf(child_rules(nodes, rs, i)),
        sum_weight(child_rules(nodes, rs, i)) <= u32::MAX,
{
    lemma_children_nested(nodes, i);
    lemma_walk_bounds(nodes, i + 1, end_of(nodes, i));
    let e = end_of(nodes, i);
    lemma_walk_weight(nodes, vert, rs, i + 1, e);
    lemma_range_weight_fits(nodes, vert, i + 1, e);
    let ch = children(nodes, i);
    let f = |k: int| rs[k];
    if nodes[i].kind is Container && is_reversed(nodes[i].kind->Container_0) {
        assert(ch.reverse().map_values(f) =~= ch.map_values(f).reverse());
        lemma_sum_weight_reverse(ch.map_values(f));
    } else if nodes[i].kind is Leaf {
        assert(nodes[i].end == i + 1);
        assert(child_rules(nodes, rs, i) =~= Seq::<SizeRules>::empty());
    }
    lemma_seq_weight(child_rules(nodes, rs, i));
    lemma_spatial_bounds(nodes, i);
    let kids = child_rules(nodes, rs, i);
    assert forall|j: int| 0 <= j < kids.len() implies (#[trigger] kids[j]).wf() by {
        assert(kids[j] == rs[spatial_children(nodes, i)[j]]);
    }
}

/// The rectangles of the children of container `i`, in spatial order,
/// given the container's rectangle `pr`.
fn place_children(nodes: &Vec<Node>, hr: &Vec<SizeRules>, vr: &Vec<SizeRules>, i: usize, pr: Rect) -> (r: Vec<Rect>)
    requires
        tree_wf(nodes@),
        i < nodes.len(),
        rules_solved(nodes@, false, hr@),
        rules_solved(nodes@, true, vr@),
        forall|j: int| 0 <= j < hr.len() ==> (#[trigger] hr[j]).wf(),
        forall|j: int| 0 <= j < vr.len() ==> (#[trigger] vr[j]).wf(),
        forall|j: int| 0 <= j < hr.len() ==> rule_weight(#[trigger] hr[j]) <= range_weight(nodes@, false, j, end_of(nodes@, j)),
        forall|j: int| 0 <= j < vr.len() ==> rule_weight(#[trigger] vr[j]) <= range_weight(nodes@, true, j, end_of(nodes@, j)),
    ensures
        r.len() == spatial_children(nodes@, i as int).len(),
        forall|k: int| 0 <= k < r.len() ==> r[k] == child_rect(nodes@, hr@, vr@, i as int, pr, k),
{
    let ids = spatial_child_ids(nodes, i);
    let hs = offer_axis(nodes, hr, i, false, pr.pos.0, pr.size.0);
    let vs = offer_axis(nodes, vr, i, true, pr.pos.1, pr.size.1);
    proof {
        lemma_spatial_bounds(nodes@, i as int);
    }
    let mut r: Vec<Rect> = Vec::new();
    let mut k: usize = 0;
    while k < ids.len()
        invariant
            k <= ids.len(),
            ids.len() == spatial_children(nodes@, i as int).len(),
            forall|j: int| 0 <= j < ids.len() ==> ids[j] == spatial_children(nodes@, i as int)[j],
            forall|j: int| 0 <= j < ids.len() ==> i < #[trigger] spatial_children(nodes@, i as int)[j] < nodes.len(),
            hs.len() == ids.len(),
            vs.len() == ids.len(),
            hr.len() == nodes.len(),
            vr.len() == nodes.len(),
            forall|j: int| 0 <= j < hs.len() ==> hs[j].0 == offered(nodes@, hr@, i as int, false, pr.pos.0, pr.size.0, j).0
                && hs[j].1 as int == offered(nodes@, hr@, i as int, false, pr.pos.0, pr.size.0, j).1,
            forall|j: int| 0 <= j < vs.len() ==> vs[j].0 == offered(nodes@, vr@, i as int, true, pr.pos.1, pr.size.1, j).0
                && vs[j].1 as int == offered(nodes@, vr@, i as int, true, pr.pos.1, pr.size.1, j).1,
            r.len() == k,
            forall|j: int| 0 <= j < k ==> r[j] == child_rect(nodes@, hr@, vr@, i as int, pr, j),
        decreases ids.len() - k,
    {
        let c = ids[k];
        let node = nodes[c];
        let (x, w) = align_axis(hs[k].0, hs[k].1, hr[c], node.align.horiz);
        let (y, h) = align_axis(vs[k].0, vs[k].1, vr[c], node.align.vert);
        r.push(Rect { pos: Coord(x, y), size: Size(w, h) });
        k = k + 1;
    }
    r
}

/// The rectangles of all nodes: the root gets `root`, and each container
/// splits its rectangle among its children.
pub fn place_all(nodes: &Vec<Node>, hr: &Vec<SizeRules>, vr: &Vec<SizeRules>, root: Rect) -> (rects: Vec<Rect>)
    requires
        tree_wf(nodes@),
        rules_solved(nodes@, false, hr@),
        rules_solved(nodes@, true, vr@),
        forall|j: int| 0 <= j < hr.len() ==> (#[trigger] hr[j]).wf(),
        forall|j: int| 0 <= j < vr.len() ==> (#[trigger] vr[j]).wf(),
        forall|j: int| 0 <= j < hr.len() ==> rule_weight(#[trigger] hr[j]) <= range_weight(nodes@, false, j, end_of(nodes@, j)),
        forall|j: int| 0 <= j < vr.len() ==> rule_weight(#[trigger] vr[j]) <= range_weight(nodes@, true, j, end_of(nodes@, j)),
    ensures
        rects_placed(nodes@, hr@, vr@, root, rects@),
{
    let n = nodes.len();
    let mut rects: Vec<Rect> = Vec::new();
    rects.push(root);
    while rects.len() < n
        invariant
            1 <= rects.len() <= n,
            n == nodes.len(),
            rects[0] == root,
        decreases n - rects.len(),
    {
        rects.push(root);
    }
    let mut i: usize = 0;
    while i < n
        invariant
            tree_wf(nodes@),
            n == nodes.len(),
            i <= n,
            rects.len() == n,
            rects[0] == root,
            rules_solved(nodes@, false, hr@),
            rules_solved(nodes@, true, vr@),
            forall|j: int| 0 <= j < hr.len() ==> (#[trigger] hr[j]).wf(),
            forall|j: int| 0 <= j < vr.len() ==> (#[trigger] vr[j]).wf(),
            forall|j: int| 0 <= j < hr.len() ==> rule_weight(#[trigger] hr[j]) <= range_weight(nodes@, false, j, end_of(nodes@, j)),
            forall|j: int| 0 <= j < vr.len() ==> rule_weight(#[trigger] vr[j]) <= range_weight(nodes@, true, j, end_of(nodes@, j)),
            forall|a: int, k: int| 0 <= a < i && 0 <= k < spatial_children(nodes@, a).len() ==>
                rects[#[trigger] spatial_children(nodes@, a)[k]] == child_rect(nodes@, hr@, vr@, a, rects[a], k),
        decreases n - i,
    {
        let pr = rects[i];
        let placed = place_children(nodes, hr, vr, i, pr);
        let ids = spatial_child_ids(nodes, i);
        proof {
            lemma_spatial_bounds(nodes@, i as int);
        }
        let mut k: usize = 0;
        while k < ids.len()
            invariant
                tree_wf(nodes@),
                n == nodes.len(),
                i < n,
                k <= ids.len(),
                rects.len() == n,
                rects[0] == root,
                rects[i as int] == pr,
                placed.len() == ids.len(),
                ids.len() == spatial_children(nodes@, i as int).len(),
                forall|j: int| 0 <= j < ids.len() ==> ids[j] == spatial_children(nodes@, i as int)[j],
                forall|j: int| 0 <= j < ids.len() ==> i < #[trigger] spatial_children(nodes@, i as int)[j] < nodes.len(),
                forall|j: int| 0 <= j < placed.len() ==> placed[j] == child_rect(nodes@, hr@, vr@, i as int, pr, j),
                forall|j: int| 0 <= j < k ==> rects[#[trigger] spatial_children(nodes@, i as int)[j]] == placed[j],
                forall|a: int, m: int| 0 <= a < i && 0 <= m < spatial_children(nodes@, a).len() ==>
                    rects[#[trigger] spatial_children(nodes@, a)[m]] == child_rect(nodes@, hr@, vr@, a, rects[a], m),
            decreases ids.len() - k,
        {
            let ghost before = rects@;
            let c = ids[k];
            rects.set(c, placed[k]);
            proof {
                assert forall|a: int, m: int| 0 <= a < i && 0 <= m < spatial_children(nodes@, a).len() implies
                    rects[#[trigger] spatial_children(nodes@, a)[m]] == child_rect(nodes@, hr@, vr@, a, rects[a], m) by {
                    lemma_one_parent(nodes@, a, m, i as int, k as int);
                    lemma_spatial_bounds(nodes@, a);
                    assert(before[spatial_children(nodes@, a)[m]] == child_rect(nodes@, hr@, vr@, a, before[a], m));
                }
                assert forall|j: int| 0 <= j < k + 1 implies rects[#[trigger] spatial_children(nodes@, i as int)[j]] == placed[j] by {
                    if j < k {
                        lemma_one_parent(nodes@, i as int, j, i as int, k as int);
                    }
                }
            }
            k = k + 1;
        }
        i = i + 1;
    }
    rects
}

/// A row or column offered at least its ideal size along its axis offers
/// every child at least the child's ideal size there, and the child, however
/// aligned, takes at least that much.
pub proof fn lemma_round_trip(nodes: Seq<Node>, rs: Seq<SizeRules>, vert: bool, i: int, k: int, p: i32, len: u32)
    requires
        tree_wf(nodes),
        rules_solved(nodes, vert, rs),
        forall|j: int| 0 <= j < rs.len() ==> (#[trigger] rs[j]).wf(),
        forall|j: int| 0 <= j < rs.len() ==> rule_weight(#[trigger] rs[j]) <= range_weight(nodes, vert, j, end_of(nodes, j)),
        0 <= i < nodes.len(),
        0 <= k < spatial_children(nodes, i).len(),
        nodes[i].kind is Container,
        nodes[i].kind->Container_0 != LayoutType::Grid,
        lays_along(nodes[i].kind->Container_0, vert),
        len >= rs[i].ideal,
    ensures
        offered(nodes, rs, i, vert, p, len, k).1 >= rs[spatial_children(nodes, i)[k]].ideal,
        forall|a: Align| aligned_len(#[trigger] offered(nodes, rs, i, vert, p, len, k).1,
            rs[spatial_children(nodes, i)[k]], a) >= rs[spatial_children(nodes, i)[k]].ideal,
{
    lemma_spatial_bounds(nodes, i);
    lemma_kids_fit(nodes, vert, rs, i);
    let s = child_rules(nodes, rs, i);
    assert(rs[i] == node_rules(nodes, vert, rs, i));
    assert(s[k] == rs[spatial_children(nodes, i)[k]]);
    lemma_ideal_round_trip(s, len as int);
}

} // verus!
