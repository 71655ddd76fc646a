use kas::{
    Action, Align, AlignHints, Coord, Delivery, Event, LayoutType, Manager, Margins, MouseButton,
    Node, PressSource, Rect, Response, Size, SizeRules, StretchPolicy, Tree, WidgetId,
};

fn rule(min: u32, ideal: u32) -> SizeRules {
    SizeRules::new(min, ideal, Margins(0, 0), StretchPolicy::Fixed)
}

fn hints() -> AlignHints {
    AlignHints::new(Align::Default, Align::Default)
}

/// A 45x10 row: widget 1 (x 0..20) grabs presses, widget 2 (x 20..45) does not.
fn surface() -> Tree {
    let nodes = vec![
        Node::container(LayoutType::Right, 3, hints()),
        Node::leaf(1, rule(10, 20), rule(10, 10), hints(), true),
        Node::leaf(2, rule(15, 25), rule(10, 10), hints(), false),
    ];
    let mut t = Tree::new(nodes).unwrap();
    t.set_rect(Rect::new(Coord(0, 0), Size(45, 10)));
    t
}

const LEFT: PressSource = PressSource::Mouse(MouseButton::Left);

#[test]
fn drag_leaves_widget_then_cancels() {
    let t = surface();
    let mut m = Manager::new();
    let w = WidgetId(1);
    let mut got = Vec::new();
    got.extend(m.handle_press_start(&t, LEFT, Coord(5, 5)));
    got.extend(m.handle_press_move(LEFT, Coord(100, 5)));
    got.extend(m.handle_press_end(&t, LEFT, Coord(200, 200)));
    assert_eq!(got.len(), 3);
    assert!(got.iter().all(|d| d.id == w));
    assert_eq!(got[0].event, Event::PressStart { source: LEFT, coord: Coord(5, 5) });
    assert_eq!(got[1].event, Event::PressMove { source: LEFT, coord: Coord(100, 5), delta: Coord(95, 0) });
    assert_eq!(got[2].event, Event::PressEnd { source: LEFT, end_id: None, coord: Coord(200, 200) });
    assert!(m.grab_of(LEFT).is_none());
}

#[test]
fn press_end_on_surface_names_widget() {
    let t = surface();
    let mut m = Manager::new();
    m.handle_press_start(&t, LEFT, Coord(5, 5));
    let d = m.handle_press_end(&t, LEFT, Coord(30, 5)).unwrap();
    assert_eq!(d.id, WidgetId(1));
    assert_eq!(d.event, Event::PressEnd { source: LEFT, end_id: Some(WidgetId(2)), coord: Coord(30, 5) });
}

#[test]
fn second_press_start_on_grabbed_source_rejected() {
    let t = surface();
    let mut m = Manager::new();
    assert!(m.handle_press_start(&t, LEFT, Coord(5, 5)).is_some());
    assert_eq!(m.grabs.len(), 1);
    assert_eq!(m.handle_press_start(&t, LEFT, Coord(6, 6)), None);
    assert_eq!(m.grabs.len(), 1);
    assert_eq!(m.grabs[0].owner, WidgetId(1));
    assert!(!m.request_grab(WidgetId(2), LEFT, Coord(0, 0)));
    // another source may grab alongside
    let touch = PressSource::Touch(4);
    assert!(m.handle_press_start(&t, touch, Coord(2, 2)).is_some());
    assert_eq!(m.grabs.len(), 2);
}

#[test]
fn press_on_widget_without_grab() {
    let t = surface();
    let mut m = Manager::new();
    let d = m.handle_press_start(&t, LEFT, Coord(30, 5)).unwrap();
    assert_eq!(d.id, WidgetId(2));
    assert!(m.grabs.is_empty());
    assert_eq!(m.handle_press_move(LEFT, Coord(31, 5)), None);
    assert_eq!(m.handle_press_end(&t, LEFT, Coord(31, 5)), None);
    assert_eq!(m.handle_press_start(&t, LEFT, Coord(300, 5)), None);
}

#[test]
fn press_move_delta_accumulates_from_last() {
    let t = surface();
    let mut m = Manager::new();
    m.handle_press_start(&t, LEFT, Coord(5, 5));
    m.handle_press_move(LEFT, Coord(8, 4));
    let d = m.handle_press_move(LEFT, Coord(10, 10)).unwrap();
    assert_eq!(d.event, Event::PressMove { source: LEFT, coord: Coord(10, 10), delta: Coord(2, 6) });
    let g = m.grab_of(LEFT).unwrap();
    assert_eq!((g.start, g.last), (Coord(5, 5), Coord(10, 10)));
}

#[test]
fn second_timer_request_replaces_first() {
    let mut m = Manager::new();
    let id = WidgetId(7);
    m.update_on_timer(0, 5_000, id);
    m.update_on_timer(0, 1_000, id);
    assert_eq!(m.timers.len(), 1);
    assert_eq!(m.next_deadline(), Some(1_000));
    assert!(m.fire_timers(999).is_empty());
    let fired = m.fire_timers(1_000);
    assert_eq!(fired, vec![Delivery { id, event: Event::Action(Action::TimerUpdate) }]);
    assert!(m.fire_timers(5_000).is_empty());
    assert_eq!(m.next_deadline(), None);
}

#[test]
fn later_request_wins_even_when_later() {
    let mut m = Manager::new();
    let id = WidgetId(3);
    m.update_on_timer(0, 1_000, id);
    m.update_on_timer(0, 5_000, id);
    assert!(m.fire_timers(1_000).is_empty());
    assert_eq!(m.fire_timers(5_000).len(), 1);
}

#[test]
fn timers_fire_in_deadline_order() {
    let mut m = Manager::new();
    m.update_on_timer(10, 30, WidgetId(1));
    m.update_on_timer(10, 10, WidgetId(2));
    m.update_on_timer(10, 20, WidgetId(3));
    m.update_on_timer(10, 100, WidgetId(4));
    let ids: Vec<WidgetId> = m.fire_timers(40).iter().map(|d| d.id).collect();
    assert_eq!(ids, vec![WidgetId(2), WidgetId(3), WidgetId(1)]);
    assert_eq!(m.timers.len(), 1);
    // a deadline past the largest time is held there
    m.update_on_timer(u64::MAX - 1, 10, WidgetId(5));
    assert_eq!(m.timers[1].deadline, u64::MAX);
}

#[test]
fn redraw_requests_coalesce() {
    let mut m = Manager::new();
    assert!(!m.take_redraw());
    m.redraw(WidgetId(1));
    m.redraw(WidgetId(2));
    assert!(m.take_redraw());
    assert!(!m.take_redraw());
}

#[test]
fn char_focus_moves() {
    let t = surface();
    let mut m = Manager::new();
    assert_eq!(m.receive_char('a'), None);
    assert_eq!(m.request_char_focus(&t, WidgetId(1)), None);
    assert_eq!(
        m.receive_char('a'),
        Some(Delivery { id: WidgetId(1), event: Event::Action(Action::ReceivedCharacter('a')) })
    );
    assert_eq!(
        m.request_char_focus(&t, WidgetId(2)),
        Some(Delivery { id: WidgetId(1), event: Event::Action(Action::LostCharFocus) })
    );
    assert_eq!(m.request_char_focus(&t, WidgetId(9)), None);
    assert_eq!(m.char_focus, Some(WidgetId(2)));
    m.clear_ids();
    assert_eq!(m.char_focus, None);
}

#[test]
fn actions_by_id() {
    let t = surface();
    let m = Manager::new();
    assert_eq!(
        m.handle_action(&t, WidgetId(2), Action::Activate),
        Some(Delivery { id: WidgetId(2), event: Event::Action(Action::Activate) })
    );
    assert_eq!(m.handle_action(&t, WidgetId(3), Action::Activate), None);
}

#[test]
fn press_source_primary() {
    assert!(PressSource::Mouse(MouseButton::Left).is_primary());
    assert!(!PressSource::Mouse(MouseButton::Right).is_primary());
    assert!(PressSource::Touch(17).is_primary());
}

#[test]
fn responses() {
    let r: Response<u8> = Response::Msg(3);
    assert!(r.is_handled());
    let u: Response<u8> = Response::Unhandled(Event::Action(Action::Activate));
    assert!(!u.is_handled());
}

#[test]
fn unhandled_events_bubble_to_parent() {
    let t = surface();
    let m = Manager::new();
    let ev = Event::Action(Action::Scroll(kas::ScrollDelta::LineDelta(0, 3)));
    assert_eq!(
        m.bubble(&t, WidgetId(2), Response::<u8>::Unhandled(ev)),
        Some(Delivery { id: WidgetId(0), event: ev })
    );
    assert_eq!(m.bubble(&t, WidgetId(0), Response::<u8>::Unhandled(ev)), None);
    assert_eq!(m.bubble(&t, WidgetId(2), Response::<u8>::Msg(1)), None);
    assert_eq!(m.bubble(&t, WidgetId(2), Response::<u8>::Handled), None);
}
