use kas::{
    Action, Callback, Align, AlignHints, Coord, Delivery, Event, Layout, LayoutType, Margins, Node, Rect,
    SimpleWindow, Size, SizeRules, StretchPolicy, Tree, WidgetId, Window,
};

fn rule(min: u32, ideal: u32) -> SizeRules {
    SizeRules::new(min, ideal, Margins(0, 0), StretchPolicy::Fixed)
}

fn hints() -> AlignHints {
    AlignHints::new(Align::Default, Align::Default)
}

fn tree() -> Tree {
    let nodes = vec![
        Node::container(LayoutType::Right, 3, hints()),
        Node::leaf(1, rule(10, 20), rule(8, 12), hints(), false),
        Node::leaf(2, rule(15, 25), rule(6, 10), hints(), false),
    ];
    Tree::new(nodes).unwrap()
}

#[test]
fn simple_window_configure_and_resize() {
    let mut w = SimpleWindow::new(tree());
    assert_eq!(w.min_size, Size(0, 0));
    assert!(w.configure_widgets(1));
    assert_eq!(w.min_size, Size(25, 8));
    // configuring lays the widgets out at the least size
    assert_eq!(w.tree.rects[2], Rect::new(Coord(10, 0), Size(15, 8)));
    assert_eq!(w.tree.root_id(), WidgetId(1));
    w.resize(Size(45, 12));
    assert_eq!(w.tree.rects[2], Rect::new(Coord(20, 0), Size(25, 10)));
    assert_eq!(
        w.handle_action(Action::Activate, WidgetId(3)),
        Some(Delivery { id: WidgetId(3), event: Event::Action(Action::Activate) })
    );
    assert_eq!(w.handle_action(Action::Activate, WidgetId(4)), None);
    assert!(!w.configure_widgets(u32::MAX));
}

#[test]
fn window_sizes() {
    let mut w = Window::new(String::from("hello"), tree());
    assert_eq!(w.title(), "hello");
    assert_eq!(w.find_size(), (Some(Size(25, 8)), Size(45, 12)));
    assert_eq!(w.resize(Size(50, 20)), (Some(Size(25, 8)), None));
    w.set_enforce_size(false, true);
    assert_eq!(w.find_size(), (None, Size(45, 12)));
    assert_eq!(w.resize(Size(50, 20)), (None, Some(Size(45, 12))));
    assert_eq!(w.w.rects[0], Rect::new(Coord(0, 0), Size(50, 20)));
    assert_eq!(Layout::find_id(&w, Coord(30, 3)), Some(WidgetId(2)));
    assert_eq!(Layout::size_rules(&w, kas::AxisInfo::new(false, None)).ideal, 45);
}

#[test]
fn window_callbacks() {
    let mut w = Window::new(String::from("cb"), tree());
    assert_eq!(w.add_callback(Callback::Start), 0);
    assert_eq!(w.add_callback(Callback::Close), 1);
    assert_eq!(w.callbacks(), vec![(0, Callback::Start), (1, Callback::Close)]);
}

#[test]
fn simple_window_routes_presses() {
    let nodes = vec![
        Node::container(LayoutType::Right, 3, hints()),
        Node::leaf(1, rule(10, 20), rule(8, 12), hints(), true),
        Node::leaf(2, rule(15, 25), rule(6, 10), hints(), false),
    ];
    let mut w = SimpleWindow::new(Tree::new(nodes).unwrap());
    w.resize(Size(45, 12));
    let src = kas::PressSource::Touch(1);
    let start = w.handle_press_start(src, Coord(5, 5)).unwrap();
    assert_eq!(start.id, WidgetId(1));
    assert_eq!(w.handle_press_start(src, Coord(30, 5)), None);
    assert_eq!(w.manager.grabs.len(), 1);
    let mv = w.handle_press_move(src, Coord(60, 5)).unwrap();
    assert_eq!(mv.event, Event::PressMove { source: src, coord: Coord(60, 5), delta: Coord(55, 0) });
    let end = w.handle_press_end(src, Coord(60, 5)).unwrap();
    assert_eq!(end.event, Event::PressEnd { source: src, end_id: None, coord: Coord(60, 5) });
    assert!(w.manager.grabs.is_empty());
}
