//! Windows: a tree of widgets with its event manager, sized to the window.

use vstd::prelude::*;
use crate::arena::{WidgetId, rules_solved};
use crate::event::{Action, Delivery, Event, PressSource};
use crate::geom::{Coord, Rect, Size, rect_contains};
use crate::layout::AxisInfo;
use crate::manager::{Grab, Manager, has_grab, move_event};
use crate::size_rules::SizeRules;
use crate::tree::{Tree, tree_rules};

verus! {

/// Size and position handling, the interface of the layout passes.
pub trait Layout {
    spec fn layout_wf(&self) -> bool;

    /// The rule of the whole on the vertical (`vert`) or horizontal axis.
    spec fn rules_spec(&self, vert: bool) -> SizeRules;

    /// Whether every part has the rectangle that a layout pass gives it
    /// when the whole gets `rect`.
    spec fn placed_spec(&self, rect: Rect) -> bool;

    /// The widget at `coord`.
    spec fn hit_spec(&self, coord: Coord) -> Option<WidgetId>;

    /// The rule of the whole on one axis.
    fn size_rules(&self, axis: AxisInfo) -> (r: SizeRules)
        requires
            self.layout_wf(),
        ensures
            r == self.rules_spec(axis.vertical),
            r.wf(),
    ;

    /// Gives the whole the rectangle `rect`, and every part its own.
    fn set_rect(&mut self, rect: Rect)
        requires
            old(self).layout_wf(),
        ensures
            final(self).layout_wf(),
            final(self).placed_spec(rect),
            final(self).rules_spec(false) == old(self).rules_spec(false),
            final(self).rules_spec(true) == old(self).rules_spec(true),
    ;

    /// The widget at `coord`, if any.
    fn find_id(&self, coord: Coord) -> (r: Option<WidgetId>)
        requires
            self.layout_wf(),
        ensures
            r == self.hit_spec(coord),
    ;
}

impl Layout for Tree {
    open spec fn layout_wf(&self) -> bool {
        self.wf()
    }

    open spec fn rules_spec(&self, vert: bool) -> SizeRules {
        tree_rules(self.nodes@, vert)[0]
    }

    open spec fn placed_spec(&self, rect: Rect) -> bool {
        self.laid_out(rect)
    }

    open spec fn hit_spec(&self, coord: Coord) -> Option<WidgetId> {
        self.hit_id(coord)
    }

    fn size_rules(&self, axis: AxisInfo) -> (r: SizeRules)
        ensures
            rules_solved(self.nodes@, axis.vertical, tree_rules(self.nodes@, axis.vertical)),
    {
        Tree::size_rules(self, axis)
    }

    fn set_rect(&mut self, rect: Rect)
        ensures
            final(self).nodes == old(self).nodes,
            final(self).base == old(self).base,
    {
        Tree::set_rect(self, rect)
    }

    fn find_id(&self, coord: Coord) -> (r: Option<WidgetId>) {
        Tree::find_id(self, coord)
    }
}

/// The least size of a whole tree.
pub open spec fn min_size_of(t: &Tree) -> Size {
    Size(tree_rules(t.nodes@, false)[0].min, tree_rules(t.nodes@, true)[0].min)
}

/// The ideal size of a whole tree.
pub open spec fn ideal_size_of(t: &Tree) -> Size {
    Size(tree_rules(t.nodes@, false)[0].ideal, tree_rules(t.nodes@, true)[0].ideal)
}

/// The size rules of `t` on both axes, as a least and an ideal size.
fn solve_sizes(t: &Tree) -> (r: (Size, Size))
    requires
        t.wf(),
    ensures
        r.0 == min_size_of(t),
        r.1 == ideal_size_of(t),
        rules_solved(t.nodes@, false, tree_rules(t.nodes@, false)),
        rules_solved(t.nodes@, true, tree_rules(t.nodes@, true)),
{
    let h = t.size_rules(AxisInfo { vertical: false, other: None });
    let v = t.size_rules(AxisInfo { vertical: true, other: Some(h.ideal) });
    (Size(h.min, v.min), Size(h.ideal, v.ideal))
}

/// A window holding one tree of widgets, with its event manager.
pub struct SimpleWindow {
    pub tree: Tree,
    pub manager: Manager,
    pub min_size: Size,
}

impl SimpleWindow {
    pub open spec fn wf(&self) -> bool {
        self.tree.wf() && self.manager.wf()
    }

    /// A window around `w`; its least size is unknown, so zero, until it is
    /// configured.
    pub fn new(w: Tree) -> (r: SimpleWindow)
        requires
            w.wf(),
        ensures
            r.wf(),
            r.tree == w,
            r.min_size == Size(0, 0),
            r.manager.grabs@.len() == 0,
            r.manager.timers@.len() == 0,
    {
        SimpleWindow { tree: w, manager: Manager::new(), min_size: Size(0, 0) }
    }

    /// Numbers the widgets from `base`, forgets the ids of the last
    /// numbering, records the least size of the window and lays the widgets
    /// out at that size from the origin. Refused, with nothing changed,
    /// where the ids would not fit in `u32`.
    pub fn configure_widgets(&mut self, base: u32) -> (ok: bool)
        requires
            old(self).wf(),
        ensures
            final(self).wf(),
            final(self).tree.nodes == old(self).tree.nodes,
            ok == (base + old(self).tree.nodes.len() <= u32::MAX),
            ok ==> final(self).tree.base == base && final(self).min_size == min_size_of(&final(self).tree)
                && final(self).manager.grabs@.len() == 0 && final(self).manager.timers@.len() == 0
                && final(self).manager.char_focus is None
                && final(self).tree.laid_out(Rect { pos: Coord(0, 0), size: final(self).min_size }),
            !ok ==> *final(self) == *old(self),
    {
        if base as u64 + self.tree.nodes.len() as u64 > 0xffff_ffff {
            return false;
        }
        self.tree.configure(base);
        self.manager.clear_ids();
        let (min, _) = solve_sizes(&self.tree);
        self.min_size = min;
        self.tree.set_rect(Rect { pos: Coord(0, 0), size: min });
        true
    }

    /// Lays the widgets out in a window of `size`, from the origin.
    pub fn resize(&mut self, size: Size)
        requires
            old(self).wf(),
        ensures
            final(self).wf(),
            final(self).tree.nodes == old(self).tree.nodes,
            final(self).tree.base == old(self).tree.base,
            final(self).tree.rects[0] == (Rect { pos: Coord(0, 0), size }),
            final(self).tree.laid_out(Rect { pos: Coord(0, 0), size }),
            rules_solved(final(self).tree.nodes@, false, tree_rules(final(self).tree.nodes@, false)),
            rules_solved(final(self).tree.nodes@, true, tree_rules(final(self).tree.nodes@, true)),
            final(self).min_size == old(self).min_size,
            final(self).manager == old(self).manager,
    {
        self.tree.set_rect(Rect { pos: Coord(0, 0), size });
    }

    /// Routes `action` to the widget `id`, where it is one of the window's.
    pub fn handle_action(&self, action: Action, id: WidgetId) -> (r: Option<Delivery>)
        requires
            self.wf(),
        ensures
            r == if self.tree.index_spec(id) is Some {
                Some(Delivery { id, event: crate::event::Event::Action(action) })
            } else {
                None
            },
    {
        self.manager.handle_action(&self.tree, id, action)
    }

    /// A press of `source` starts at `coord`: refused where `source` is
    /// grabbed already, else given to the widget there, which grabs
    /// `source` first where it grabs presses.
    pub fn handle_press_start(&mut self, source: PressSource, coord: Coord) -> (r: Option<Delivery>)
        requires
            old(self).wf(),
        ensures
            final(self).wf(),
            final(self).tree == old(self).tree,
            final(self).min_size == old(self).min_size,
            final(self).manager.timers == old(self).manager.timers,
            has_grab(old(self).manager.grabs@, source) ==> r is None && final(self).manager.grabs@
                == old(self).manager.grabs@,
            !has_grab(old(self).manager.grabs@, source) ==> match old(self).tree.hit_id(coord) {
                None => r is None && final(self).manager.grabs@ == old(self).manager.grabs@,
                Some(w) => {
                    &&& r == Some(Delivery { id: w, event: Event::PressStart { source, coord } })
                    &&& final(self).manager.grabs@ == if old(self).tree.grabs_spec(w) {
                        old(self).manager.grabs@.push(Grab { source, owner: w, start: coord, last: coord })
                    } else {
                        old(self).manager.grabs@
                    }
                },
            },
    {
        self.manager.handle_press_start(&self.tree, source, coord)
    }

    /// The press of `source` moves to `coord`: given to the owner of its
    /// grab, if any, wherever `coord` lies.
    pub fn handle_press_move(&mut self, source: PressSource, coord: Coord) -> (r: Option<Delivery>)
        requires
            old(self).wf(),
        ensures
            final(self).wf(),
            final(self).tree == old(self).tree,
            final(self).min_size == old(self).min_size,
            r is Some <==> has_grab(old(self).manager.grabs@, source),
            r is None ==> final(self).manager.grabs@ == old(self).manager.grabs@,
            forall|i: int| 0 <= i < old(self).manager.grabs.len() && (#[trigger] old(self).manager.grabs[i]).source
                == source ==> {
                &&& r == Some(Delivery {
                    id: old(self).manager.grabs[i].owner,
                    event: move_event(old(self).manager.grabs[i], coord),
                })
                &&& final(self).manager.grabs@ == old(self).manager.grabs@.update(
                    i,
                    Grab { last: coord, ..old(self).manager.grabs[i] },
                )
            },
    {
        self.manager.handle_press_move(source, coord)
    }

    /// The press of `source` ends at `coord`: its grab, if any, is released
    /// and its owner told, with the widget under `coord`, or none off the
    /// window, which cancels the press.
    pub fn handle_press_end(&mut self, source: PressSource, coord: Coord) -> (r: Option<Delivery>)
        requires
            old(self).wf(),
        ensures
            final(self).wf(),
            final(self).tree == old(self).tree,
            final(self).min_size == old(self).min_size,
            r is Some <==> has_grab(old(self).manager.grabs@, source),
            r is None ==> final(self).manager.grabs@ == old(self).manager.grabs@,
            forall|i: int| 0 <= i < old(self).manager.grabs.len() && (#[trigger] old(self).manager.grabs[i]).source
                == source ==> {
                &&& r == Some(Delivery {
                    id: old(self).manager.grabs[i].owner,
                    event: Event::PressEnd {
                        source,
                        end_id: if rect_contains(old(self).tree.rects[0], coord) {
                            old(self).tree.hit_id(coord)
                        } else {
                            None
                        },
                        coord,
                    },
                })
                &&& final(self).manager.grabs@ == old(self).manager.grabs@.remove(i)
            },
    {
        self.manager.handle_press_end(&self.tree, source, coord)
    }
}

/// When a window calls back its owner.
#[derive(Clone, Copy, Debug, PartialEq, Eq, Structural)]
pub enum Callback {
    /// When the window starts.
    Start,
    /// When the window closes.
    Close,
}

/// A window with a title, which may hold the window to the least and the
/// ideal size of its widgets. `callbacks` lists the conditions its owner
/// asked to be called on; the owner keeps what to call, by index.
pub struct Window {
    pub title: String,
    pub enforce_min: bool,
    pub enforce_max: bool,
    pub w: Tree,
    pub callbacks: Vec<Callback>,
}

impl Window {
    /// A window titled `title` around `w`; by default its least size is
    /// enforced and its greatest is not.
    pub fn new(title: String, w: Tree) -> (r: Window)
        requires
            w.wf(),
        ensures
            r.title@ == title@,
            r.enforce_min,
            !r.enforce_max,
            r.w == w,
            r.callbacks@.len() == 0,
    {
        Window { title, enforce_min: true, enforce_max: false, w, callbacks: Vec::new() }
    }

    /// Asks to be called on `condition`; returns the index of the request.
    pub fn add_callback(&mut self, condition: Callback) -> (index: usize)
        ensures
            index == old(self).callbacks.len(),
            final(self).callbacks@ == old(self).callbacks@.push(condition),
            final(self).title == old(self).title,
            final(self).w == old(self).w,
            final(self).enforce_min == old(self).enforce_min,
            final(self).enforce_max == old(self).enforce_max,
    {
        let index = self.callbacks.len();
        self.callbacks.push(condition);
        index
    }

    /// Each request to be called, with its index.
    pub fn callbacks(&self) -> (r: Vec<(usize, Callback)>)
        ensures
            r.len() == self.callbacks.len(),
            forall|k: int| 0 <= k < r.len() ==> r[k] == (k as usize, self.callbacks[k]),
    {
        let mut r: Vec<(usize, Callback)> = Vec::new();
        let mut k: usize = 0;
        while k < self.callbacks.len()
            invariant
                k <= self.callbacks.len(),
                r.len() == k,
                forall|j: int| 0 <= j < k ==> r[j] == (j as usize, self.callbacks[j]),
            decreases self.callbacks.len() - k,
        {
            r.push((k, self.callbacks[k]));
            k = k + 1;
        }
        r
    }

    /// Says whether the least and the greatest size are enforced.
    pub fn set_enforce_size(&mut self, min: bool, max: bool)
        ensures
            final(self).enforce_min == min,
            final(self).enforce_max == max,
            final(self).title == old(self).title,
            final(self).w == old(self).w,
            final(self).callbacks == old(self).callbacks,
    {
        self.enforce_min = min;
        self.enforce_max = max;
    }

    pub fn title(&self) -> (r: &str)
        ensures
            r@ == self.title@,
    {
        self.title.as_str()
    }

    /// The least size to enforce, if any, and the ideal size.
    pub fn find_size(&self) -> (r: (Option<Size>, Size))
        requires
            self.w.wf(),
        ensures
            r.0 == if self.enforce_min {
                Some(min_size_of(&self.w))
            } else {
                None
            },
            r.1 == ideal_size_of(&self.w),
            rules_solved(self.w.nodes@, false, tree_rules(self.w.nodes@, false)),
            rules_solved(self.w.nodes@, true, tree_rules(self.w.nodes@, true)),
    {
        let (min, ideal) = solve_sizes(&self.w);
        (if self.enforce_min {
            Some(min)
        } else {
            None
        }, ideal)
    }

    /// Lays the widgets out in a window of `size`; returns the least and the
    /// greatest size to enforce, where they are enforced.
    pub fn resize(&mut self, size: Size) -> (r: (Option<Size>, Option<Size>))
        requires
            old(self).w.wf(),
        ensures
            final(self).w.wf(),
            final(self).w.nodes == old(self).w.nodes,
            final(self).w.base == old(self).w.base,
            final(self).w.rects[0] == (Rect { pos: Coord(0, 0), size }),
            final(self).w.laid_out(Rect { pos: Coord(0, 0), size }),
            rules_solved(final(self).w.nodes@, false, tree_rules(final(self).w.nodes@, false)),
            rules_solved(final(self).w.nodes@, true, tree_rules(final(self).w.nodes@, true)),
            final(self).title == old(self).title,
            final(self).enforce_min == old(self).enforce_min,
            final(self).enforce_max == old(self).enforce_max,
            r.0 == if old(self).enforce_min {
                Some(min_size_of(&old(self).w))
            } else {
                None
            },
            r.1 == if old(self).enforce_max {
                Some(ideal_size_of(&old(self).w))
            } else {
                None
            },
    {
        let (min, ideal) = solve_sizes(&self.w);
        self.w.set_rect(Rect { pos: Coord(0, 0), size });
        (if self.enforce_min {
            Some(min)
        } else {
            None
        }, if self.enforce_max {
            Some(ideal)
        } else {
            None
        })
    }
}

impl Layout for Window {
    open spec fn layout_wf(&self) -> bool {
        self.w.wf()
    }

    /// The window adds nothing to the rule of its widgets.
    open spec fn rules_spec(&self, vert: bool) -> SizeRules {
        tree_rules(self.w.nodes@, vert)[0]
    }

    open spec fn placed_spec(&self, rect: Rect) -> bool {
        self.w.laid_out(rect)
    }

    open spec fn hit_spec(&self, coord: Coord) -> Option<WidgetId> {
        self.w.hit_id(coord)
    }

    fn size_rules(&self, axis: AxisInfo) -> (r: SizeRules)
        ensures
            r == tree_rules(self.w.nodes@, axis.vertical)[0],
            rules_solved(self.w.nodes@, axis.vertical, tree_rules(self.w.nodes@, axis.vertical)),
    {
        self.w.size_rules(axis)
    }

    fn set_rect(&mut self, rect: Rect)
        ensures
            final(self).w.nodes == old(self).w.nodes,
            final(self).w.base == old(self).w.base,
            final(self).w.laid_out(rect),
            final(self).title == old(self).title,
            final(self).enforce_min == old(self).enforce_min,
            final(self).enforce_max == old(self).enforce_max,
    {
        self.w.set_rect(rect)
    }

    fn find_id(&self, coord: Coord) -> (r: Option<WidgetId>)
        ensures
            r == self.w.hit_id(coord),
    {
        self.w.find_id(coord)
    }
}

} // verus!
