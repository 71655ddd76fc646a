//! A configured tree of widgets: its arena, its numbering, and the
//! rectangles its last layout pass gave each widget.

use vstd::prelude::*;
use crate::arena::{
    Node, WidgetId, check_nodes, end_of, lemma_rules_unique, place_all, rects_placed, rules_solved,
    solve_rules, tree_wf,
};
use crate::geom::{Coord, Rect, Size, rect_contains};
use crate::layout::AxisInfo;
use crate::size_rules::SizeRules;

verus! {

/// The rules of every node of `nodes` on the given axis.
pub open spec fn tree_rules(nodes: Seq<Node>, vert: bool) -> Seq<SizeRules> {
    choose|rs: Seq<SizeRules>| rules_solved(nodes, vert, rs)
}

/// Whether node `j` is the parent of node `i`: the nearest node before `i`
/// whose subtree holds `i`.
pub open spec fn is_parent(nodes: Seq<Node>, j: int, i: int) -> bool {
    &&& 0 <= j < i < nodes.len()
    &&& i < end_of(nodes, j)
    &&& forall|k: int| j < k < i ==> #[trigger] end_of(nodes, k) <= i
}

/// The last of the first `k` rectangles of `rects` that holds `c`.
pub open spec fn topmost(rects: Seq<Rect>, c: Coord, k: int) -> Option<int>
    decreases k,
{
    if k <= 0 {
        None
    } else if rect_contains(rects[k - 1], c) {
        Some(k - 1)
    } else {
        topmost(rects, c, k - 1)
    }
}

/// A tree of widgets. Widget `i` of the arena has the id `base + i`: ids
/// follow the pre-order of the tree, so the subtree of a widget has the ids
/// from its own up to, not including, `base + nodes[i].end`.
pub struct Tree {
    pub nodes: Vec<Node>,
    pub rects: Vec<Rect>,
    pub base: u32,
}

impl Tree {
    pub open spec fn wf(&self) -> bool {
        &&& tree_wf(self.nodes@)
        &&& self.rects.len() == self.nodes.len()
        &&& self.base + self.nodes.len() <= u32::MAX
    }

    /// The index in the arena of the widget `id`, if it is one of this tree's.
    pub open spec fn index_spec(&self, id: WidgetId) -> Option<int> {
        if self.base <= id.0 < self.base + self.nodes.len() {
            Some(id.0 - self.base)
        } else {
            None
        }
    }

    /// Whether every widget has the rectangle that a layout pass gives it
    /// when the whole tree gets `rect`.
    pub open spec fn laid_out(&self, rect: Rect) -> bool {
        rects_placed(self.nodes@, tree_rules(self.nodes@, false), tree_rules(self.nodes@, true), rect, self.rects@)
    }

    /// The widget that `find_id` gives for `coord`.
    pub open spec fn hit_id(&self, coord: Coord) -> Option<WidgetId> {
        match topmost(self.rects@, coord, self.rects.len() as int) {
            Some(i) => Some(WidgetId((self.base + i) as u32)),
            None => None,
        }
    }

    /// Whether the widget `id` is this tree's and grabs the presses that start on it.
    pub open spec fn grabs_spec(&self, id: WidgetId) -> bool {
        self.index_spec(id) is Some && self.nodes[self.index_spec(id)->0].grabs_press
    }

    /// A tree over `nodes`, numbered from 0, with every rectangle empty at
    /// the origin; `None` where `nodes` is not a well-formed arena or has
    /// more nodes than ids.
    pub fn new(nodes: Vec<Node>) -> (r: Option<Tree>)
        ensures
            r.is_some() <==> tree_wf(nodes@) && nodes.len() <= u32::MAX,
            r matches Some(t) ==> {
                &&& t.wf()
                &&& t.nodes@ == nodes@
                &&& t.base == 0
                &&& forall|i: int| 0 <= i < t.rects.len() ==> t.rects[i] == Rect { pos: Coord(0, 0), size: Size(0, 0) }
            },
    {
        if !check_nodes(&nodes) || nodes.len() > 0xffff_ffff {
            return None;
        }
        let mut rects: Vec<Rect> = Vec::new();
        while rects.len() < nodes.len()
            invariant
                rects.len() <= nodes.len(),
                forall|i: int| 0 <= i < rects.len() ==> rects[i] == (Rect { pos: Coord(0, 0), size: Size(0, 0) }),
            decreases nodes.len() - rects.len(),
        {
            rects.push(Rect { pos: Coord(0, 0), size: Size(0, 0) });
        }
        Some(Tree { nodes, rects, base: 0 })
    }

    /// Numbers the widgets again from `base`, in pre-order; ids handed out
    /// before no longer name the same widgets. Refused, with nothing changed,
    /// where the last id would not fit in `u32`.
    pub fn configure(&mut self, base: u32) -> (ok: bool)
        requires
            old(self).wf(),
        ensures
            final(self).wf(),
            ok == (base + old(self).nodes.len() <= u32::MAX),
            final(self).nodes == old(self).nodes,
            final(self).rects == old(self).rects,
            final(self).base == if ok {
                base
            } else {
                old(self).base
            },
    {
        if base as u64 + self.nodes.len() as u64 > 0xffff_ffff {
            return false;
        }
        self.base = base;
        true
    }

    /// The number of widgets.
    pub fn len(&self) -> (r: usize)
        ensures
            r == self.nodes.len(),
    {
        self.nodes.len()
    }

    /// The id of the root widget.
    pub fn root_id(&self) -> (r: WidgetId)
        ensures
            r == WidgetId(self.base),
    {
        WidgetId(self.base)
    }

    /// The index in the arena of the widget `id`, if it is one of this tree's.
    pub fn index_of(&self, id: WidgetId) -> (r: Option<usize>)
        requires
            self.wf(),
        ensures
            r matches Some(i) ==> self.index_spec(id) == Some(i as int),
            r is None ==> self.index_spec(id) is None,
    {
        if id.0 >= self.base && ((id.0 - self.base) as usize) < self.nodes.len() {
            Some((id.0 - self.base) as usize)
        } else {
            None
        }
    }

    /// The ids of the subtree of `id`: from `id` up to, not including, the
    /// second; `None` for an id that is not this tree's.
    pub fn id_range(&self, id: WidgetId) -> (r: Option<(WidgetId, WidgetId)>)
        requires
            self.wf(),
        ensures
            r is Some <==> self.index_spec(id) is Some,
            r matches Some(p) ==> p.0 == id && p.1.0 == self.base + end_of(self.nodes@, self.index_spec(id)->0),
    {
        match self.index_of(id) {
            Some(i) => {
                let e = self.nodes[i].end;
                proof {
                    assert(i < end_of(self.nodes@, i as int) <= self.nodes.len());
                }
                Some((id, WidgetId(self.base + e as u32)))
            },
            None => None,
        }
    }

    /// Whether `a` is `b` or has `b` in its subtree.
    pub fn is_ancestor(&self, a: WidgetId, b: WidgetId) -> (r: bool)
        requires
            self.wf(),
        ensures
            r == (self.index_spec(a) is Some && self.index_spec(b) is Some
                && self.index_spec(a)->0 <= self.index_spec(b)->0 < end_of(self.nodes@, self.index_spec(a)->0)),
    {
        match (self.index_of(a), self.index_of(b)) {
            (Some(i), Some(j)) => i <= j && j < self.nodes[i].end,
            _ => false,
        }
    }

    /// The rule of the whole tree on the axis of `axis`.
    pub fn size_rules(&self, axis: AxisInfo) -> (r: SizeRules)
        requires
            self.wf(),
        ensures
            r == tree_rules(self.nodes@, axis.vertical)[0],
            rules_solved(self.nodes@, axis.vertical, tree_rules(self.nodes@, axis.vertical)),
            r.wf(),
    {
        let rs = solve_rules(&self.nodes, axis.vertical);
        proof {
            let t = tree_rules(self.nodes@, axis.vertical);
            assert(rules_solved(self.nodes@, axis.vertical, t));
            lemma_rules_unique(self.nodes@, axis.vertical, rs@, t);
        }
        rs[0]
    }

    /// Gives the whole tree the rectangle `rect` and every widget its own,
    /// split from its parent's by the rules of the tree.
    pub fn set_rect(&mut self, rect: Rect)
        requires
            old(self).wf(),
        ensures
            final(self).wf(),
            final(self).nodes == old(self).nodes,
            final(self).base == old(self).base,
            rects_placed(final(self).nodes@, tree_rules(final(self).nodes@, false),
                tree_rules(final(self).nodes@, true), rect, final(self).rects@),
            final(self).laid_out(rect),
            rules_solved(final(self).nodes@, false, tree_rules(final(self).nodes@, false)),
            rules_solved(final(self).nodes@, true, tree_rules(final(self).nodes@, true)),
    {
        let hr = solve_rules(&self.nodes, false);
        let vr = solve_rules(&self.nodes, true);
        proof {
            let th = tree_rules(self.nodes@, false);
            let tv = tree_rules(self.nodes@, true);
            assert(rules_solved(self.nodes@, false, th));
            assert(rules_solved(self.nodes@, true, tv));
            lemma_rules_unique(self.nodes@, false, hr@, th);
            lemma_rules_unique(self.nodes@, true, vr@, tv);
        }
        self.rects = place_all(&self.nodes, &hr, &vr, rect);
    }

    /// The rectangle of the widget `id`.
    pub fn rect_of(&self, id: WidgetId) -> (r: Option<Rect>)
        requires
            self.wf(),
        ensures
            r is Some <==> self.index_spec(id) is Some,
            r matches Some(x) ==> x == self.rects[self.index_spec(id)->0],
    {
        match self.index_of(id) {
            Some(i) => Some(self.rects[i]),
            None => None,
        }
    }

    /// Whether a press that starts on the widget `id` grabs its source for it.
    pub fn grabs_press(&self, id: WidgetId) -> (r: bool)
        requires
            self.wf(),
        ensures
            r == self.grabs_spec(id),
    {
        match self.index_of(id) {
            Some(i) => self.nodes[i].grabs_press,
            None => false,
        }
    }

    /// The widget at `coord`: of the widgets whose rectangle holds it, the
    /// last in pre-order, which is drawn on top; `None` where no rectangle
    /// holds it.
    pub fn find_id(&self, coord: Coord) -> (r: Option<WidgetId>)
        requires
            self.wf(),
        ensures
            r == self.hit_id(coord),
    {
        let mut k: usize = self.rects.len();
        while k > 0
            invariant
                self.wf(),
                k <= self.rects.len(),
                topmost(self.rects@, coord, self.rects.len() as int) == topmost(self.rects@, coord, k as int),
            decreases k,
        {
            if self.rects[k - 1].contains(coord) {
                return Some(WidgetId(self.base + (k - 1) as u32));
            }
            k = k - 1;
        }
        None
    }

    /// The parent of the widget `id`: `None` for the root and for an id
    /// that is not this tree's.
    pub fn parent_of(&self, id: WidgetId) -> (r: Option<WidgetId>)
        requires
            self.wf(),
        ensures
            r is None <==> (self.index_spec(id) is None || self.index_spec(id) == Some(0int)),
            r matches Some(p) ==> self.index_spec(p) is Some && is_parent(self.nodes@, self.index_spec(p)->0, self.index_spec(id)->0),
    {
        let i = match self.index_of(id) {
            Some(i) => i,
            None => return None,
        };
        if i == 0 {
            return None;
        }
        let mut j: usize = i - 1;
        loop
            invariant
                self.wf(),
                0 < i < self.nodes.len(),
                j < i,
                self.index_spec(id) == Some(i as int),
                forall|k: int| j < k < i ==> #[trigger] end_of(self.nodes@, k) <= i,
            decreases j,
        {
            if self.nodes[j].end > i {
                return Some(WidgetId(self.base + j as u32));
            }
            if j == 0 {
                proof {
                    assert(end_of(self.nodes@, 0) == self.nodes.len());
                }
                return None;
            }
            j = j - 1;
        }
    }
}

} // verus!
