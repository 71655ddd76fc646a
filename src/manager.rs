//! The event manager: press grabs, timers, keyboard focus and redraw
//! requests, and the routing of input to a single widget.

use vstd::prelude::*;
use crate::arena::WidgetId;
use crate::event::{Action, Delivery, Event, PressSource, Response};
use crate::geom::{Coord, clamp_i32, rect_contains};
use crate::tree::Tree;

verus! {

/// A widget's claim on every further event of one input source, until the
/// press ends.
#[derive(Clone, Copy, Debug, PartialEq, Eq, Structural)]
pub struct Grab {
    pub source: PressSource,
    pub owner: WidgetId,
    pub start: Coord,
    pub last: Coord,
}

/// A widget's request to be woken at `deadline`.
#[derive(Clone, Copy, Debug, PartialEq, Eq, Structural)]
pub struct TimerRequest {
    pub deadline: u64,
    pub owner: WidgetId,
}

/// No input source is grabbed twice.
pub open spec fn grabs_unique(gs: Seq<Grab>) -> bool {
    forall|i: int, j: int| 0 <= i < j < gs.len() ==> (#[trigger] gs[i]).source != (#[trigger] gs[j]).source
}

/// No widget holds two requests, and requests are kept by deadline.
pub open spec fn timers_ok(ts: Seq<TimerRequest>) -> bool {
    &&& forall|i: int, j: int| 0 <= i < j < ts.len() ==> (#[trigger] ts[i]).owner != (#[trigger] ts[j]).owner
    &&& forall|i: int, j: int| 0 <= i <= j < ts.len() ==> (#[trigger] ts[i]).deadline <= (#[trigger] ts[j]).deadline
}

/// Every manager keeps at most one grab per input source: two grabs of one
/// source are the same grab. Each operation of the manager keeps this, and
/// a press that starts on a grabbed source adds none.
pub proof fn lemma_grab_exclusive(gs: Seq<Grab>, i: int, j: int)
    requires
        grabs_unique(gs),
        0 <= i < gs.len(),
        0 <= j < gs.len(),
        gs[i].source == gs[j].source,
    ensures
        i == j,
{
    if i < j {
        assert(gs[i].source != gs[j].source);
    } else if j < i {
        assert(gs[j].source != gs[i].source);
    }
}

/// Whether `src` is grabbed in `gs`.
pub open spec fn has_grab(gs: Seq<Grab>, src: PressSource) -> bool {
    exists|i: int| 0 <= i < gs.len() && (#[trigger] gs[i]).source == src
}

/// Whether `o` holds a request for `d` in `ts`.
pub open spec fn has_timer(ts: Seq<TimerRequest>, o: WidgetId, d: u64) -> bool {
    exists|i: int| 0 <= i < ts.len() && (#[trigger] ts[i]).owner == o && ts[i].deadline == d
}

/// The deadline `delay` after `now`; the largest time where that is later.
pub open spec fn deadline_after(now: u64, delay: u64) -> u64 {
    if now + delay > u64::MAX {
        u64::MAX
    } else {
        (now + delay) as u64
    }
}

/// `new` is `old` after a request of `id` for `d`: that request replaces
/// any earlier one of `id`, and every other widget keeps its own.
pub open spec fn timer_updated(old: Seq<TimerRequest>, new: Seq<TimerRequest>, id: WidgetId, d: u64) -> bool {
    &&& timers_ok(new)
    &&& forall|o: WidgetId, e: u64| o != id ==> (has_timer(new, o, e) <==> has_timer(old, o, e))
    &&& forall|e: u64| has_timer(new, id, e) <==> e == d
}

/// `fired` holds, in deadline order, one timer update for each request of
/// `old` that is due at `now`, and `new` keeps the requests not yet due.
pub open spec fn timers_fired(old: Seq<TimerRequest>, new: Seq<TimerRequest>, fired: Seq<Delivery>, now: u64) -> bool {
    &&& fired.len() <= old.len()
    &&& forall|i: int| 0 <= i < fired.len() ==> {
        &&& #[trigger] fired[i] == (Delivery { id: old[i].owner, event: Event::Action(Action::TimerUpdate) })
        &&& old[i].deadline <= now
    }
    &&& forall|i: int| fired.len() <= i < old.len() ==> (#[trigger] old[i]).deadline > now
    &&& new == old.skip(fired.len() as int)
}

/// The press event that the owner of grab `g` gets when its press moves to `coord`.
pub open spec fn move_event(g: Grab, coord: Coord) -> Event {
    Event::PressMove {
        source: g.source,
        coord,
        delta: Coord(clamp_i32(coord.0 - g.last.0), clamp_i32(coord.1 - g.last.1)),
    }
}

/// Removing the request at `i`, which is `id`'s where `i` is in range, leaves
/// the others in order and `id` with none.
proof fn lemma_timer_removed(t0: Seq<TimerRequest>, t1: Seq<TimerRequest>, i: int, id: WidgetId)
    requires
        timers_ok(t0),
        0 <= i <= t0.len(),
        forall|j: int| 0 <= j < i ==> (#[trigger] t0[j]).owner != id,
        i < t0.len() ==> t0[i].owner == id && t1 == t0.remove(i),
        i == t0.len() ==> t1 == t0,
    ensures
        timers_ok(t1),
        forall|j: int| 0 <= j < t1.len() ==> (#[trigger] t1[j]).owner != id,
        forall|o: WidgetId, e: u64| o != id ==> (has_timer(t1, o, e) <==> has_timer(t0, o, e)),
{
    assert(timers_ok(t1)) by {
        if i < t0.len() {
            assert forall|a: int, b: int| 0 <= a <= b < t1.len() implies (#[trigger] t1[a]).deadline <= (#[trigger] t1[b]).deadline by {
                let a0 = if a < i { a } else { a + 1 };
                let b0 = if b < i { b } else { b + 1 };
                assert(t1[a] == t0[a0]);
                assert(t1[b] == t0[b0]);
            }
            assert forall|a: int, b: int| 0 <= a < b < t1.len() implies (#[trigger] t1[a]).owner != (#[trigger] t1[b]).owner by {
                let a0 = if a < i { a } else { a + 1 };
                let b0 = if b < i { b } else { b + 1 };
                assert(t1[a] == t0[a0]);
                assert(t1[b] == t0[b0]);
            }
        }
    }
    assert forall|j: int| 0 <= j < t1.len() implies (#[trigger] t1[j]).owner != id by {
        if i < t0.len() {
            let j0 = if j < i { j } else { j + 1 };
            assert(t1[j] == t0[j0]);
            if j0 > i {
                assert(t0[i].owner != t0[j0].owner);
            }
        }
    }
    assert forall|o: WidgetId, e: u64| o != id implies (has_timer(t1, o, e) <==> has_timer(t0, o, e)) by {
        if i < t0.len() {
            if has_timer(t0, o, e) {
                let k = choose|k: int| 0 <= k < t0.len() && (#[trigger] t0[k]).owner == o && t0[k].deadline == e;
                assert(k != i);
                let k1 = if k < i { k } else { k - 1 };
                assert(t1[k1] == t0[k]);
            }
            if has_timer(t1, o, e) {
                let k = choose|k: int| 0 <= k < t1.len() && (#[trigger] t1[k]).owner == o && t1[k].deadline == e;
                let k0 = if k < i { k } else { k + 1 };
                assert(t1[k] == t0[k0]);
            }
        }
    }
}

/// Inserting `req` at `p`, after the requests due no later and before those
/// due later, keeps the requests in order and gives its owner that one alone.
proof fn lemma_timer_inserted(t1: Seq<TimerRequest>, t2: Seq<TimerRequest>, p: int, req: TimerRequest)
    requires
        timers_ok(t1),
        0 <= p <= t1.len(),
        forall|j: int| 0 <= j < t1.len() ==> (#[trigger] t1[j]).owner != req.owner,
        forall|j: int| 0 <= j < p ==> (#[trigger] t1[j]).deadline <= req.deadline,
        p < t1.len() ==> t1[p].deadline > req.deadline,
        t2 == t1.insert(p, req),
    ensures
        timer_updated(t1, t2, req.owner, req.deadline),
{
    let d = req.deadline;
    let id = req.owner;
    assert forall|a: int, b: int| 0 <= a <= b < t2.len() implies (#[trigger] t2[a]).deadline <= (#[trigger] t2[b]).deadline by {
        if a < p && b < p {
            assert(t2[a] == t1[a] && t2[b] == t1[b]);
        } else if a < p && b == p {
            assert(t2[a] == t1[a]);
        } else if a < p {
            assert(t2[a] == t1[a] && t2[b] == t1[b - 1]);
        } else if a == p && b > p {
            assert(t2[b] == t1[b - 1]);
            assert(t1[p].deadline > d);
            assert(t1[p].deadline <= t1[b - 1].deadline);
        } else if a > p {
            assert(t2[a] == t1[a - 1] && t2[b] == t1[b - 1]);
        }
    }
    assert forall|a: int, b: int| 0 <= a < b < t2.len() implies (#[trigger] t2[a]).owner != (#[trigger] t2[b]).owner by {
        if a < p && b < p {
            assert(t2[a] == t1[a] && t2[b] == t1[b]);
        } else if a < p && b == p {
            assert(t2[a] == t1[a]);
        } else if a < p {
            assert(t2[a] == t1[a] && t2[b] == t1[b - 1]);
        } else if a == p {
            assert(t2[b] == t1[b - 1]);
        } else {
            assert(t2[a] == t1[a - 1] && t2[b] == t1[b - 1]);
        }
    }
    assert forall|o: WidgetId, e: u64| o != id implies (has_timer(t2, o, e) <==> has_timer(t1, o, e)) by {
        if has_timer(t1, o, e) {
            let k = choose|k: int| 0 <= k < t1.len() && (#[trigger] t1[k]).owner == o && t1[k].deadline == e;
            let k2 = if k < p { k } else { k + 1 };
            assert(t2[k2] == t1[k]);
        }
        if has_timer(t2, o, e) {
            let k = choose|k: int| 0 <= k < t2.len() && (#[trigger] t2[k]).owner == o && t2[k].deadline == e;
            assert(k != p);
            let k1 = if k < p { k } else { k - 1 };
            assert(t2[k] == t1[k1]);
        }
    }
    assert forall|e: u64| has_timer(t2, id, e) <==> e == d by {
        if e == d {
            assert(t2[p] == req);
        }
        if has_timer(t2, id, e) {
            let k = choose|k: int| 0 <= k < t2.len() && (#[trigger] t2[k]).owner == id && t2[k].deadline == e;
            if k != p {
                let k1 = if k < p { k } else { k - 1 };
                assert(t2[k] == t1[k1]);
            }
        }
    }
}

/// Two requests of one widget before either fires leave it one request, for
/// the deadline asked last. A firing at any time then gives that widget
/// exactly one timer update if that deadline has come, and none otherwise,
/// even where the first deadline has passed; once it has fired, the widget
/// holds no request.
pub proof fn lemma_timer_coalescing(
    t0: Seq<TimerRequest>,
    t1: Seq<TimerRequest>,
    t2: Seq<TimerRequest>,
    t3: Seq<TimerRequest>,
    fired: Seq<Delivery>,
    id: WidgetId,
    d1: u64,
    d2: u64,
    now: u64,
)
    requires
        timers_ok(t0),
        timer_updated(t0, t1, id, d1),
        timer_updated(t1, t2, id, d2),
        timers_fired(t2, t3, fired, now),
    ensures
        forall|e: u64| has_timer(t2, id, e) <==> e == d2,
        d2 <= now ==> exists|k: int| 0 <= k < fired.len() && (#[trigger] fired[k]).id == id,
        forall|k1: int, k2: int| 0 <= k1 < fired.len() && 0 <= k2 < fired.len() && (#[trigger] fired[k1]).id == id
            && (#[trigger] fired[k2]).id == id ==> k1 == k2,
        d2 > now ==> forall|k: int| 0 <= k < fired.len() ==> (#[trigger] fired[k]).id != id,
        d2 <= now ==> forall|e: u64| !has_timer(t3, id, e),
{
    assert(has_timer(t2, id, d2));
    let w = choose|w: int| 0 <= w < t2.len() && (#[trigger] t2[w]).owner == id && t2[w].deadline == d2;
    let n = fired.len() as int;
    assert forall|k: int| 0 <= k < n && (#[trigger] fired[k]).id == id implies k == w by {
        assert(fired[k].id == t2[k].owner);
        if k < w {
            assert(t2[k].owner != t2[w].owner);
        } else if k > w {
            assert(t2[w].owner != t2[k].owner);
        }
    }
    if d2 <= now {
        if w >= n {
            assert(t2[w].deadline > now);
        }
        assert(fired[w].id == id);
        assert forall|e: u64| !has_timer(t3, id, e) by {
            if has_timer(t3, id, e) {
                let j = choose|j: int| 0 <= j < t3.len() && (#[trigger] t3[j]).owner == id && t3[j].deadline == e;
                assert(t3[j] == t2[j + n]);
                assert(t2[w].owner != t2[j + n].owner);
            }
        }
    }
}

/// The state that routes input: grabs, timers, keyboard focus and the
/// redraw flag. One per window.
pub struct Manager {
    pub grabs: Vec<Grab>,
    pub timers: Vec<TimerRequest>,
    pub char_focus: Option<WidgetId>,
    pub redraw: bool,
}

impl Manager {
    pub open spec fn wf(&self) -> bool {
        &&& grabs_unique(self.grabs@)
        &&& timers_ok(self.timers@)
    }

    /// A manager with no grab, no timer, no focus and nothing to redraw.
    pub fn new() -> (r: Manager)
        ensures
            r.wf(),
            r.grabs@.len() == 0,
            r.timers@.len() == 0,
            r.char_focus is None,
            !r.redraw,
    {
        Manager { grabs: Vec::new(), timers: Vec::new(), char_focus: None, redraw: false }
    }

    /// The position of the grab of `source`, if it is grabbed.
    pub fn find_grab(&self, source: PressSource) -> (r: Option<usize>)
        ensures
            r matches Some(i) ==> i < self.grabs.len() && self.grabs[i as int].source == source,
            r is None ==> !has_grab(self.grabs@, source),
    {
        let mut i: usize = 0;
        while i < self.grabs.len()
            invariant
                i <= self.grabs.len(),
                forall|j: int| 0 <= j < i ==> (#[trigger] self.grabs[j]).source != source,
            decreases self.grabs.len() - i,
        {
            if self.grabs[i].source == source {
                return Some(i);
            }
            i = i + 1;
        }
        None
    }

    /// The grab of `source`, if it is grabbed.
    pub fn grab_of(&self, source: PressSource) -> (r: Option<Grab>)
        ensures
            r is Some <==> has_grab(self.grabs@, source),
            r matches Some(g) ==> g.source == source && self.grabs@.contains(g),
    {
        match self.find_grab(source) {
            Some(i) => Some(self.grabs[i]),
            None => None,
        }
    }

    /// Grabs `source` for `id`, the press starting at `coord`; refused where
    /// `source` is grabbed already.
    pub fn request_grab(&mut self, id: WidgetId, source: PressSource, coord: Coord) -> (ok: bool)
        requires
            old(self).wf(),
        ensures
            final(self).wf(),
            ok == !has_grab(old(self).grabs@, source),
            final(self).grabs@ == if ok {
                old(self).grabs@.push(Grab { source, owner: id, start: coord, last: coord })
            } else {
                old(self).grabs@
            },
            final(self).timers == old(self).timers,
            final(self).char_focus == old(self).char_focus,
            final(self).redraw == old(self).redraw,
    {
        match self.find_grab(source) {
            Some(_) => false,
            None => {
                let ghost before = self.grabs@;
                self.grabs.push(Grab { source, owner: id, start: coord, last: coord });
                proof {
                    assert forall|i: int, j: int| 0 <= i < j < self.grabs@.len() implies
                        (#[trigger] self.grabs@[i]).source != (#[trigger] self.grabs@[j]).source by {
                        if j == before.len() {
                            assert(before[i] == self.grabs@[i]);
                        }
                    }
                }
                true
            },
        }
    }

    /// A press of `source` starts at `coord`. Refused where `source` is
    /// grabbed already. Otherwise the widget at `coord`, if any, gets the
    /// press, after `source` has been grabbed for it where it grabs presses.
    pub fn handle_press_start(&mut self, tree: &Tree, source: PressSource, coord: Coord) -> (r: Option<Delivery>)
        requires
            old(self).wf(),
            tree.wf(),
        ensures
            final(self).wf(),
            final(self).timers == old(self).timers,
            final(self).char_focus == old(self).char_focus,
            final(self).redraw == old(self).redraw,
            has_grab(old(self).grabs@, source) ==> r is None && final(self).grabs@ == old(self).grabs@,
            !has_grab(old(self).grabs@, source) ==> match tree.hit_id(coord) {
                None => r is None && final(self).grabs@ == old(self).grabs@,
                Some(w) => {
                    &&& r == Some(Delivery { id: w, event: Event::PressStart { source, coord } })
                    &&& final(self).grabs@ == if tree.grabs_spec(w) {
                        old(self).grabs@.push(Grab { source, owner: w, start: coord, last: coord })
                    } else {
                        old(self).grabs@
                    }
                },
            },
    {
        if self.find_grab(source).is_some() {
            return None;
        }
        match tree.find_id(coord) {
            None => None,
            Some(w) => {
                if tree.grabs_press(w) {
                    self.request_grab(w, source, coord);
                }
                Some(Delivery { id: w, event: Event::PressStart { source, coord } })
            },
        }
    }

    /// The press of `source` moves to `coord`. Where `source` is grabbed, the
    /// owner of the grab gets the move, wherever `coord` lies, with the move
    /// since the last one seen; that grab then remembers `coord`. An ungrabbed
    /// press goes to nobody.
    pub fn handle_press_move(&mut self, source: PressSource, coord: Coord) -> (r: Option<Delivery>)
        requires
            old(self).wf(),
        ensures
            final(self).wf(),
            final(self).timers == old(self).timers,
            final(self).char_focus == old(self).char_focus,
            final(self).redraw == old(self).redraw,
            r is Some <==> has_grab(old(self).grabs@, source),
            r is None ==> final(self).grabs@ == old(self).grabs@,
            forall|i: int| 0 <= i < old(self).grabs.len() && (#[trigger] old(self).grabs[i]).source == source ==> {
                &&& r == Some(Delivery { id: old(self).grabs[i].owner, event: move_event(old(self).grabs[i], coord) })
                &&& final(self).grabs@ == old(self).grabs@.update(i, Grab { last: coord, ..old(self).grabs[i] })
            },
    {
        match self.find_grab(source) {
            None => None,
            Some(i) => {
                let g = self.grabs[i];
                let delta = coord.sub_sat(g.last);
                let ghost before = self.grabs@;
                self.grabs.set(i, Grab { last: coord, ..g });
                proof {
                    assert forall|a: int, b: int| 0 <= a < b < self.grabs@.len() implies
                        (#[trigger] self.grabs@[a]).source != (#[trigger] self.grabs@[b]).source by {
                        assert(self.grabs@[a].source == before[a].source);
                        assert(self.grabs@[b].source == before[b].source);
                    }
                    assert forall|j: int| 0 <= j < before.len() && (#[trigger] before[j]).source == source implies j == i by {
                        if j < i {
                            assert(before[j].source != before[i as int].source);
                        } else if j > i {
                            assert(before[i as int].source != before[j].source);
                        }
                    }
                }
                Some(Delivery { id: g.owner, event: Event::PressMove { source, coord, delta } })
            },
        }
    }

    /// The press of `source` ends at `coord`. Where `source` is grabbed, the
    /// grab is released and its owner gets the end, naming the widget under
    /// `coord`; off the surface (the root's rectangle) it names none, which
    /// cancels the press. An ungrabbed press goes to nobody.
    pub fn handle_press_end(&mut self, tree: &Tree, source: PressSource, coord: Coord) -> (r: Option<Delivery>)
        requires
            old(self).wf(),
            tree.wf(),
        ensures
            final(self).wf(),
            final(self).timers == old(self).timers,
            final(self).char_focus == old(self).char_focus,
            final(self).redraw == old(self).redraw,
            r is Some <==> has_grab(old(self).grabs@, source),
            r is None ==> final(self).grabs@ == old(self).grabs@,
            forall|i: int| 0 <= i < old(self).grabs.len() && (#[trigger] old(self).grabs[i]).source == source ==> {
                &&& r == Some(Delivery {
                    id: old(self).grabs[i].owner,
                    event: Event::PressEnd {
                        source,
                        end_id: if rect_contains(tree.rects[0], coord) {
                            tree.hit_id(coord)
                        } else {
                            None
                        },
                        coord,
                    },
                })
                &&& final(self).grabs@ == old(self).grabs@.remove(i)
            },
    {
        match self.find_grab(source) {
            None => None,
            Some(i) => {
                let g = self.grabs[i];
                let end_id = if tree.rects[0].contains(coord) {
                    tree.find_id(coord)
                } else {
                    None
                };
                let ghost before = self.grabs@;
                self.grabs.remove(i);
                proof {
                    assert forall|a: int, b: int| 0 <= a < b < self.grabs@.len() implies
                        (#[trigger] self.grabs@[a]).source != (#[trigger] self.grabs@[b]).source by {
                        let a0 = if a < i { a } else { a + 1 };
                        let b0 = if b < i { b } else { b + 1 };
                        assert(self.grabs@[a] == before[a0]);
                        assert(self.grabs@[b] == before[b0]);
                    }
                    assert forall|j: int| 0 <= j < before.len() && (#[trigger] before[j]).source == source implies j == i by {
                        if j < i {
                            assert(before[j].source != before[i as int].source);
                        } else if j > i {
                            assert(before[i as int].source != before[j].source);
                        }
                    }
                }
                Some(Delivery { id: g.owner, event: Event::PressEnd { source, end_id, coord } })
            },
        }
    }

    /// An action for the widget `id`: delivered where `id` is a widget of
    /// `tree`, else dropped.
    pub fn handle_action(&self, tree: &Tree, id: WidgetId, action: Action) -> (r: Option<Delivery>)
        requires
            tree.wf(),
        ensures
            r == if tree.index_spec(id) is Some {
                Some(Delivery { id, event: Event::Action(action) })
            } else {
                None
            },
    {
        match tree.index_of(id) {
            Some(_) => Some(Delivery { id, event: Event::Action(action) }),
            None => None,
        }
    }

    /// Asks for a timer update for `id` `delay` after `now`. The request
    /// replaces any earlier one of `id`, sooner or later.
    pub fn update_on_timer(&mut self, now: u64, delay: u64, id: WidgetId)
        requires
            old(self).wf(),
        ensures
            final(self).wf(),
            timer_updated(old(self).timers@, final(self).timers@, id, deadline_after(now, delay)),
            final(self).grabs == old(self).grabs,
            final(self).char_focus == old(self).char_focus,
            final(self).redraw == old(self).redraw,
    {
        let d: u64 = if now > u64::MAX - delay {
            u64::MAX
        } else {
            now + delay
        };
        let ghost t0 = self.timers@;
        let mut i: usize = 0;
        while i < self.timers.len() && self.timers[i].owner != id
            invariant
                self.timers@ == t0,
                i <= self.timers.len(),
                forall|j: int| 0 <= j < i ==> (#[trigger] self.timers[j]).owner != id,
            decreases self.timers.len() - i,
        {
            i = i + 1;
        }
        if i < self.timers.len() {
            self.timers.remove(i);
        }
        let ghost t1 = self.timers@;
        proof {
            lemma_timer_removed(t0, t1, i as int, id);
        }
        let mut p: usize = 0;
        while p < self.timers.len() && self.timers[p].deadline <= d
            invariant
                self.timers@ == t1,
                p <= self.timers.len(),
                forall|j: int| 0 <= j < p ==> (#[trigger] self.timers[j]).deadline <= d,
            decreases self.timers.len() - p,
        {
            p = p + 1;
        }
        let req = TimerRequest { deadline: d, owner: id };
        self.timers.insert(p, req);
        proof {
            lemma_timer_inserted(t1, self.timers@, p as int, req);
        }
    }

    /// Takes the requests that are due at `now`, in deadline order, and
    /// gives a timer update for each to its owner. A widget that wants
    /// another update asks again.
    pub fn fire_timers(&mut self, now: u64) -> (fired: Vec<Delivery>)
        requires
            old(self).wf(),
        ensures
            final(self).wf(),
            timers_fired(old(self).timers@, final(self).timers@, fired@, now),
            final(self).grabs == old(self).grabs,
            final(self).char_focus == old(self).char_focus,
            final(self).redraw == old(self).redraw,
    {
        let ghost t0 = self.timers@;
        let mut fired: Vec<Delivery> = Vec::new();
        let mut m: usize = 0;
        while m < self.timers.len() && self.timers[m].deadline <= now
            invariant
                self.timers@ == t0,
                m <= self.timers.len(),
                fired.len() == m,
                forall|i: int| 0 <= i < m ==> {
                    &&& #[trigger] fired[i] == (Delivery { id: t0[i].owner, event: Event::Action(Action::TimerUpdate) })
                    &&& t0[i].deadline <= now
                },
            decreases self.timers.len() - m,
        {
            fired.push(Delivery { id: self.timers[m].owner, event: Event::Action(Action::TimerUpdate) });
            m = m + 1;
        }
        let mut rest: Vec<TimerRequest> = Vec::new();
        let mut k: usize = m;
        while k < self.timers.len()
            invariant
                self.timers@ == t0,
                m <= k <= self.timers.len(),
                rest@ == t0.subrange(m as int, k as int),
            decreases self.timers.len() - k,
        {
            rest.push(self.timers[k]);
            proof {
                assert(rest@ =~= t0.subrange(m as int, k as int + 1));
            }
            k = k + 1;
        }
        self.timers = rest;
        proof {
            assert(self.timers@ =~= t0.skip(m as int));
            assert forall|i: int| m <= i < t0.len() implies (#[trigger] t0[i]).deadline > now by {
                assert(t0[m as int].deadline <= t0[i].deadline);
            }
            let t1 = self.timers@;
            assert forall|a: int, b: int| 0 <= a <= b < t1.len() implies (#[trigger] t1[a]).deadline <= (#[trigger] t1[b]).deadline by {
                assert(t1[a] == t0[a + m] && t1[b] == t0[b + m]);
            }
            assert forall|a: int, b: int| 0 <= a < b < t1.len() implies (#[trigger] t1[a]).owner != (#[trigger] t1[b]).owner by {
                assert(t1[a] == t0[a + m] && t1[b] == t0[b + m]);
            }
        }
        fired
    }

    /// The earliest deadline asked for, if any.
    pub fn next_deadline(&self) -> (r: Option<u64>)
        requires
            self.wf(),
        ensures
            r is None <==> self.timers@.len() == 0,
            r matches Some(d) ==> d == self.timers[0].deadline
                && forall|i: int| 0 <= i < self.timers.len() ==> d <= (#[trigger] self.timers[i]).deadline,
    {
        if self.timers.len() == 0 {
            None
        } else {
            Some(self.timers[0].deadline)
        }
    }

    /// Asks for the surface to be drawn again. Any number of requests before
    /// the next frame make one redraw.
    pub fn redraw(&mut self, id: WidgetId)
        ensures
            final(self).redraw,
            final(self).grabs == old(self).grabs,
            final(self).timers == old(self).timers,
            final(self).char_focus == old(self).char_focus,
    {
        self.redraw = true;
    }

    /// Whether a redraw was asked for since the last call; clears the request.
    pub fn take_redraw(&mut self) -> (r: bool)
        ensures
            r == old(self).redraw,
            !final(self).redraw,
            final(self).grabs == old(self).grabs,
            final(self).timers == old(self).timers,
            final(self).char_focus == old(self).char_focus,
    {
        let r = self.redraw;
        self.redraw = false;
        r
    }

    /// Gives the keyboard focus to `id`, a widget of `tree`; the widget
    /// that had it, if another, is told it lost it. An id not of `tree`
    /// changes nothing.
    pub fn request_char_focus(&mut self, tree: &Tree, id: WidgetId) -> (r: Option<Delivery>)
        requires
            tree.wf(),
        ensures
            final(self).grabs == old(self).grabs,
            final(self).timers == old(self).timers,
            final(self).redraw == old(self).redraw,
            tree.index_spec(id) is None ==> r is None && final(self).char_focus == old(self).char_focus,
            tree.index_spec(id) is Some ==> {
                &&& final(self).char_focus == Some(id)
                &&& r == match old(self).char_focus {
                    Some(p) => if p != id {
                        Some(Delivery { id: p, event: Event::Action(Action::LostCharFocus) })
                    } else {
                        None
                    },
                    None => None,
                }
            },
    {
        if tree.index_of(id).is_none() {
            return None;
        }
        let prev = self.char_focus;
        self.char_focus = Some(id);
        match prev {
            Some(p) => if p != id {
                Some(Delivery { id: p, event: Event::Action(Action::LostCharFocus) })
            } else {
                None
            },
            None => None,
        }
    }

    /// A character typed: it goes to the widget with the keyboard focus, if any.
    pub fn receive_char(&self, c: char) -> (r: Option<Delivery>)
        ensures
            r == match self.char_focus {
                Some(p) => Some(Delivery { id: p, event: Event::Action(Action::ReceivedCharacter(c)) }),
                None => None,
            },
    {
        match self.char_focus {
            Some(p) => Some(Delivery { id: p, event: Event::Action(Action::ReceivedCharacter(c)) }),
            None => None,
        }
    }

    /// Forgets every id: grabs, timers and focus. For use after the tree is
    /// numbered again, when old ids no longer name the same widgets.
    pub fn clear_ids(&mut self)
        ensures
            final(self).wf(),
            final(self).grabs@.len() == 0,
            final(self).timers@.len() == 0,
            final(self).char_focus is None,
            final(self).redraw == old(self).redraw,
    {
        self.grabs = Vec::new();
        self.timers = Vec::new();
        self.char_focus = None;
    }

    /// Passes on what the widget `id` did not handle: the event goes to its
    /// parent. A handled event, or one the root did not handle, goes no further.
    pub fn bubble<M>(&self, tree: &Tree, id: WidgetId, response: Response<M>) -> (r: Option<Delivery>)
        requires
            tree.wf(),
        ensures
            response is Unhandled && tree.index_spec(id) is Some && tree.index_spec(id) != Some(0int) ==> {
                &&& r is Some
                &&& r->0.event == response->Unhandled_0
                &&& tree.index_spec(r->0.id) is Some
                &&& crate::tree::is_parent(tree.nodes@, tree.index_spec(r->0.id)->0, tree.index_spec(id)->0)
            },
            !(response is Unhandled && tree.index_spec(id) is Some && tree.index_spec(id) != Some(0int)) ==> r is None,
    {
        match response {
            Response::Unhandled(event) => match tree.parent_of(id) {
                Some(p) => Some(Delivery { id: p, event }),
                None => None,
            },
            _ => None,
        }
    }
}

} // verus!
