use kas::{
    Align, AlignHints, AxisInfo, ChildLayout, Coord, GridPos, Layout, LayoutType, Margins, Node,
    Rect, Size, SizeRules, StretchPolicy, Tree, WidgetAttrArgs, WidgetId,
};

fn rule(min: u32, ideal: u32) -> SizeRules {
    SizeRules::new(min, ideal, Margins(0, 0), StretchPolicy::Fixed)
}

fn stretchy(min: u32, ideal: u32, stretch: StretchPolicy) -> SizeRules {
    SizeRules::new(min, ideal, Margins(0, 0), stretch)
}

fn hints() -> AlignHints {
    AlignHints::new(Align::Default, Align::Default)
}

/// A row of leaves with the given horizontal rules, each 10 high.
fn row(rules: &[SizeRules]) -> Tree {
    let mut nodes = vec![Node::container(LayoutType::Right, rules.len() + 1, hints())];
    for (i, r) in rules.iter().enumerate() {
        nodes.push(Node::leaf(i + 1, *r, rule(10, 10), hints(), false));
    }
    Tree::new(nodes).unwrap()
}

fn horiz() -> AxisInfo {
    AxisInfo::new(false, None)
}

fn vert() -> AxisInfo {
    AxisInfo::new(true, None)
}

#[test]
fn macro_test_layout() {
    fn check_props<T: Layout>(_x: T) {}

    let label = "text";
    let w = label.len() as u32 * 8;
    let nodes = vec![
        Node::container(LayoutType::Single, 2, hints()),
        Node::leaf(1, rule(w, w), rule(16, 16), hints(), false),
    ];
    let t = Tree::new(nodes).unwrap();
    assert_eq!(t.size_rules(horiz()).min_size(), 32);
    check_props(t);
}

#[test]
fn row_rules_add_up() {
    let t = row(&[rule(10, 20), rule(15, 25)]);
    let r = t.size_rules(horiz());
    assert_eq!(r.min, 25);
    assert_eq!(r.ideal, 45);
    assert_eq!(r.stretch, StretchPolicy::Fixed);
    // across the row the children lie over one another
    let v = t.size_rules(vert());
    assert_eq!((v.min, v.ideal), (10, 10));
}

#[test]
fn row_at_ideal_width_gives_ideals() {
    let mut t = row(&[rule(10, 20), rule(15, 25)]);
    t.set_rect(Rect::new(Coord(0, 0), Size(45, 10)));
    assert_eq!(t.rects[1], Rect::new(Coord(0, 0), Size(20, 10)));
    assert_eq!(t.rects[2], Rect::new(Coord(20, 0), Size(25, 10)));
}

#[test]
fn row_at_min_width_gives_minima() {
    let mut t = row(&[rule(10, 20), rule(15, 25)]);
    t.set_rect(Rect::new(Coord(0, 0), Size(25, 10)));
    assert_eq!(t.rects[1].size.0, 10);
    assert_eq!(t.rects[2].size.0, 15);
    assert_eq!(t.rects[2].pos.0, 10);
}

#[test]
fn below_min_children_keep_min() {
    let mut t = row(&[rule(10, 20), rule(15, 25)]);
    t.set_rect(Rect::new(Coord(0, 0), Size(5, 10)));
    assert_eq!(t.rects[1].size.0, 10);
    assert_eq!(t.rects[2].size.0, 15);
}

#[test]
fn between_min_and_ideal_first_child_first() {
    let mut t = row(&[rule(10, 20), rule(15, 25)]);
    t.set_rect(Rect::new(Coord(0, 0), Size(30, 10)));
    assert_eq!(t.rects[1].size.0, 15);
    assert_eq!(t.rects[2].size.0, 15);
}

#[test]
fn excess_goes_to_highest_policy() {
    let mut t = row(&[
        stretchy(10, 20, StretchPolicy::LowUtility),
        stretchy(10, 20, StretchPolicy::Filler),
        stretchy(10, 20, StretchPolicy::Filler),
    ]);
    t.set_rect(Rect::new(Coord(0, 0), Size(65, 10)));
    // 5 beyond the ideal sizes: the two fillers share it, the first one more
    assert_eq!(t.rects[1].size.0, 20);
    assert_eq!(t.rects[2].size.0, 23);
    assert_eq!(t.rects[3].size.0, 22);
    assert_eq!(t.rects[3].pos.0, 43);
    let r = t.size_rules(horiz());
    assert_eq!(r.stretch, StretchPolicy::Filler);
}

#[test]
fn fixed_children_leave_excess() {
    let mut t = row(&[rule(10, 20), rule(15, 25)]);
    t.set_rect(Rect::new(Coord(0, 0), Size(100, 10)));
    assert_eq!(t.rects[1].size.0, 20);
    assert_eq!(t.rects[2].size.0, 25);
}

#[test]
fn round_trip_ideal_uniform_stretch() {
    let rules = [
        stretchy(3, 7, StretchPolicy::HighUtility),
        stretchy(5, 9, StretchPolicy::HighUtility),
        stretchy(1, 4, StretchPolicy::HighUtility),
    ];
    let mut t = row(&rules);
    let r = t.size_rules(horiz());
    assert_eq!(r.ideal, 20);
    for w in [20u32, 21, 29, 100] {
        t.set_rect(Rect::new(Coord(0, 0), Size(w, 10)));
        for (i, c) in rules.iter().enumerate() {
            assert!(t.rects[i + 1].size.0 >= c.ideal);
        }
    }
}

#[test]
fn size_rules_twice_same() {
    let t = row(&[rule(10, 20), rule(15, 25)]);
    assert_eq!(t.size_rules(horiz()), t.size_rules(horiz()));
    assert_eq!(t.size_rules(vert()), t.size_rules(vert()));
}

#[test]
fn empty_container_rules() {
    let t = Tree::new(vec![Node::container(LayoutType::Down, 1, hints())]).unwrap();
    let r = t.size_rules(vert());
    assert_eq!(r, SizeRules::empty());
    assert_eq!((r.min, r.ideal, r.stretch), (0, 0, StretchPolicy::Fixed));
}

#[test]
fn sequential_sum_and_parallel_max() {
    let rules = vec![rule(10, 20), rule(15, 25), rule(4, 30)];
    let s = SizeRules::sum(&rules);
    assert_eq!((s.min, s.ideal), (29, 75));
    assert!(s.min <= s.ideal);
    let p = SizeRules::max_of(&rules);
    assert_eq!((p.min, p.ideal), (15, 30));
    for r in &rules {
        assert!(p.min >= r.min);
    }
}

#[test]
fn margins_between_neighbours() {
    let a = SizeRules::new(10, 20, Margins(1, 4), StretchPolicy::Fixed);
    let b = SizeRules::new(5, 5, Margins(3, 2), StretchPolicy::LowUtility);
    let s = SizeRules::sum(&vec![a, b]);
    assert_eq!((s.min, s.ideal), (19, 29));
    assert_eq!(s.margins, Margins(1, 2));
    assert_eq!(s.stretch, StretchPolicy::LowUtility);
    let mut c = a;
    c.append(b);
    assert_eq!(c, s);
    let mut m = a;
    m.max_with(b);
    assert_eq!(m, SizeRules::new(10, 20, Margins(3, 4), StretchPolicy::LowUtility));
}

#[test]
fn surround_adds_frame() {
    let content = SizeRules::new(10, 20, Margins(0, 0), StretchPolicy::Fixed);
    let frame = SizeRules::new(4, 4, Margins(2, 2), StretchPolicy::Filler);
    let r = content.surrounded_by(frame, false);
    assert_eq!((r.min, r.ideal, r.stretch), (14, 24, StretchPolicy::Fixed));
    assert_eq!(r.margins, Margins(2, 2));
    let e = content.surrounded_by(frame, true);
    assert_eq!(e.stretch, StretchPolicy::Filler);
}

#[test]
fn new_raises_ideal_to_min() {
    let r = SizeRules::new(30, 10, Margins(0, 0), StretchPolicy::Fixed);
    assert_eq!((r.min, r.ideal), (30, 30));
    let f = SizeRules::fixed(7, Margins(1, 1));
    assert_eq!((f.min, f.ideal, f.stretch), (7, 7, StretchPolicy::Fixed));
}

#[test]
fn stretch_policy_order() {
    assert_eq!(StretchPolicy::Fixed.max(StretchPolicy::Filler), StretchPolicy::Filler);
    assert_eq!(StretchPolicy::HighUtility.max(StretchPolicy::LowUtility), StretchPolicy::HighUtility);
    assert!(StretchPolicy::Fixed.rank() < StretchPolicy::LowUtility.rank());
}

#[test]
fn reversed_row_places_first_child_right() {
    let nodes = vec![
        Node::container(LayoutType::Left, 3, hints()),
        Node::leaf(1, rule(10, 20), rule(10, 10), hints(), false),
        Node::leaf(2, rule(15, 25), rule(10, 10), hints(), false),
    ];
    let mut t = Tree::new(nodes).unwrap();
    t.set_rect(Rect::new(Coord(0, 0), Size(45, 10)));
    assert_eq!(t.rects[1], Rect::new(Coord(25, 0), Size(20, 10)));
    assert_eq!(t.rects[2], Rect::new(Coord(0, 0), Size(25, 10)));
}

#[test]
fn column_with_alignment_across() {
    let nodes = vec![
        Node::container(LayoutType::Down, 3, hints()),
        Node::leaf(1, rule(10, 20), rule(5, 10), AlignHints::new(Align::Centre, Align::Default), false),
        Node::leaf(2, stretchy(10, 20, StretchPolicy::Filler), rule(5, 10), AlignHints::new(Align::BR, Align::Default), false),
    ];
    let mut t = Tree::new(nodes).unwrap();
    t.set_rect(Rect::new(Coord(100, 50), Size(40, 20)));
    // across the column, the first child is centred and the second aligned to the right
    assert_eq!(t.rects[1], Rect::new(Coord(110, 50), Size(20, 10)));
    assert_eq!(t.rects[2], Rect::new(Coord(120, 60), Size(20, 10)));
}

#[test]
fn nested_containers_and_find_id() {
    let nodes = vec![
        Node::container(LayoutType::Down, 5, hints()),
        Node::container(LayoutType::Right, 4, hints()),
        Node::leaf(2, rule(10, 10), rule(10, 10), hints(), false),
        Node::leaf(3, rule(10, 10), rule(10, 10), hints(), false),
        Node::leaf(4, rule(20, 20), rule(10, 10), hints(), false),
    ];
    let mut t = Tree::new(nodes).unwrap();
    let h = t.size_rules(horiz());
    let v = t.size_rules(vert());
    assert_eq!((h.min, v.min), (20, 20));
    t.set_rect(Rect::new(Coord(0, 0), Size(20, 20)));
    assert_eq!(t.rects[3], Rect::new(Coord(10, 0), Size(10, 10)));
    assert_eq!(t.rects[4], Rect::new(Coord(0, 10), Size(20, 10)));
    assert_eq!(t.find_id(Coord(15, 5)), Some(WidgetId(3)));
    assert_eq!(t.find_id(Coord(5, 15)), Some(WidgetId(4)));
    assert_eq!(t.find_id(Coord(50, 50)), None);
    assert!(t.is_ancestor(WidgetId(1), WidgetId(3)));
    assert!(!t.is_ancestor(WidgetId(2), WidgetId(3)));
    assert_eq!(t.id_range(WidgetId(1)), Some((WidgetId(1), WidgetId(4))));
    assert!(t.configure(100));
    assert_eq!(t.find_id(Coord(15, 5)), Some(WidgetId(103)));
    assert_eq!(t.index_of(WidgetId(3)), None);
    assert_eq!(t.root_id(), WidgetId(100));
    assert!(!t.configure(u32::MAX));
}

#[test]
fn malformed_arenas_refused() {
    // a subtree that runs past its parent's
    let bad = vec![
        Node::container(LayoutType::Right, 3, hints()),
        Node::container(LayoutType::Right, 4, hints()),
        Node::leaf(2, rule(1, 1), rule(1, 1), hints(), false),
    ];
    assert!(Tree::new(bad).is_none());
    assert!(Tree::new(vec![]).is_none());
    let ill = vec![Node::leaf(0, SizeRules { min: 5, ideal: 1, margins: Margins(0, 0), stretch: StretchPolicy::Fixed }, rule(1, 1), hints(), false)];
    assert!(Tree::new(ill).is_none());
    let heavy = vec![
        Node::container(LayoutType::Right, 3, hints()),
        Node::leaf(1, rule(1, u32::MAX), rule(1, 1), hints(), false),
        Node::leaf(2, rule(1, 1), rule(1, 1), hints(), false),
    ];
    assert!(Tree::new(heavy).is_none());
}

#[test]
fn layout_kinds() {
    assert_eq!(LayoutType::Right.child_layout(), ChildLayout::Horizontal);
    assert_eq!(LayoutType::Up.child_layout(), ChildLayout::Vertical);
    assert_eq!(LayoutType::Single.child_layout(), ChildLayout::Single);
    assert_eq!(LayoutType::Grid.child_layout(), ChildLayout::Grid);
    assert!(LayoutType::Left.reversed());
    assert!(LayoutType::Down.is_along(true));
    let args = WidgetAttrArgs { col: Some(2), row: None, cspan: None, rspan: Some(3), halign: Some(Align::Centre), valign: None };
    assert_eq!(args.as_pos(), GridPos(2, 0, 1, 3));
    assert_eq!(args.align_hints(), AlignHints::new(Align::Centre, Align::Default));
}

#[test]
fn solve_seq_direct() {
    let rules = vec![rule(10, 20), rule(15, 25)];
    assert_eq!(kas::solve_seq(&rules, 45), vec![20, 25]);
    assert_eq!(kas::solve_seq(&rules, 25), vec![10, 15]);
    assert_eq!(kas::solve_seq(&rules, 0), vec![10, 15]);
}

#[test]
fn grid_lines_and_cells() {
    let nodes = vec![
        Node::container(LayoutType::Grid, 4, hints()),
        Node::leaf(1, rule(10, 10), rule(10, 10), hints(), false).in_cell(GridPos(0, 0, 1, 1)),
        Node::leaf(2, rule(20, 20), rule(10, 10), hints(), false).in_cell(GridPos(1, 0, 1, 1)),
        Node::leaf(3, rule(50, 50), rule(10, 10), hints(), false).in_cell(GridPos(0, 1, 2, 1)),
    ];
    let mut t = Tree::new(nodes).unwrap();
    // the wide cell raises the last column it spans: 10 + 40
    let h = t.size_rules(horiz());
    assert_eq!((h.min, h.ideal), (50, 50));
    let v = t.size_rules(vert());
    assert_eq!((v.min, v.ideal), (20, 20));
    t.set_rect(Rect::new(Coord(0, 0), Size(50, 20)));
    assert_eq!(t.rects[1], Rect::new(Coord(0, 0), Size(10, 10)));
    assert_eq!(t.rects[2], Rect::new(Coord(10, 0), Size(20, 10)));
    assert_eq!(t.rects[3], Rect::new(Coord(0, 10), Size(50, 10)));
}

#[test]
fn grid_cells_share_lines() {
    let nodes = vec![
        Node::container(LayoutType::Grid, 5, hints()),
        Node::leaf(1, rule(10, 10), rule(5, 5), hints(), false).in_cell(GridPos(0, 0, 1, 1)),
        Node::leaf(2, rule(30, 30), rule(5, 5), hints(), false).in_cell(GridPos(1, 0, 1, 1)),
        Node::leaf(3, rule(25, 25), rule(15, 15), hints(), false).in_cell(GridPos(0, 1, 1, 1)),
        Node::leaf(4, rule(5, 5), rule(5, 5), hints(), false).in_cell(GridPos(1, 1, 1, 1)),
    ];
    let mut t = Tree::new(nodes).unwrap();
    assert_eq!(t.size_rules(horiz()).ideal, 55);
    assert_eq!(t.size_rules(vert()).ideal, 20);
    t.set_rect(Rect::new(Coord(0, 0), Size(55, 20)));
    assert_eq!(t.rects[4].pos, Coord(25, 5));
    assert_eq!(t.rects[2].pos, Coord(25, 0));
    let bad_cell = vec![
        Node::container(LayoutType::Grid, 2, hints()),
        Node::leaf(1, rule(1, 1), rule(1, 1), hints(), false).in_cell(GridPos(0, 0, 0, 1)),
    ];
    assert!(Tree::new(bad_cell).is_none());
}

#[test]
fn parent_lookup() {
    let nodes = vec![
        Node::container(LayoutType::Down, 4, hints()),
        Node::container(LayoutType::Right, 3, hints()),
        Node::leaf(2, rule(1, 1), rule(1, 1), hints(), false),
        Node::leaf(3, rule(1, 1), rule(1, 1), hints(), false),
    ];
    let t = Tree::new(nodes).unwrap();
    assert_eq!(t.parent_of(WidgetId(2)), Some(WidgetId(1)));
    assert_eq!(t.parent_of(WidgetId(3)), Some(WidgetId(0)));
    assert_eq!(t.parent_of(WidgetId(0)), None);
    assert_eq!(t.parent_of(WidgetId(4)), None);
}

#[test]
fn frame_surrounds_its_child() {
    let nodes = vec![
        Node::frame(2, Margins(2, 3), Margins(1, 1), hints()),
        Node::leaf(1, rule(10, 20), rule(5, 5), hints(), false),
    ];
    let mut t = Tree::new(nodes).unwrap();
    let h = t.size_rules(horiz());
    assert_eq!((h.min, h.ideal, h.stretch), (15, 25, StretchPolicy::Fixed));
    let v = t.size_rules(vert());
    assert_eq!((v.min, v.ideal), (7, 7));
    t.set_rect(Rect::new(Coord(0, 0), Size(25, 7)));
    assert_eq!(t.rects[1], Rect::new(Coord(2, 1), Size(20, 5)));
    t.set_rect(Rect::new(Coord(0, 0), Size(3, 1)));
    assert_eq!(t.rects[1], Rect::new(Coord(2, 1), Size(10, 5)));
}
