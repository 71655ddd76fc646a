//! Layout kinds, axes and alignment.

use vstd::prelude::*;
use crate::geom::clamp_i32;
use crate::size_rules::{SizeRules, StretchPolicy};

verus! {

/// How a container arranges its children.
#[derive(Clone, Copy, Debug, PartialEq, Eq, Structural)]
pub enum LayoutType {
    /// The children lie over one another, each given the whole container.
    Single,
    /// A row, first child on the left.
    Right,
    /// A row, first child on the right.
    Left,
    /// A column, first child at the top.
    Down,
    /// A column, first child at the bottom.
    Up,
    /// Cells in rows and columns.
    Grid,
}

/// The axis along which a container lays its children out.
#[derive(Clone, Copy, Debug, PartialEq, Eq, Structural)]
pub enum ChildLayout {
    /// No more than one child, or children over one another.
    Single,
    /// Children in a row, side by side.
    Horizontal,
    /// Children in a column, one above another.
    Vertical,
    /// Children in a grid.
    Grid,
}

/// Whether `l` lays children one after another along the vertical axis
/// (`vert`) or the horizontal one.
pub open spec fn lays_along(l: LayoutType, vert: bool) -> bool {
    match l {
        LayoutType::Right | LayoutType::Left => !vert,
        LayoutType::Down | LayoutType::Up => vert,
        _ => false,
    }
}

/// Whether `l` places its first child at the far end of its axis.
pub open spec fn is_reversed(l: LayoutType) -> bool {
    l == LayoutType::Left || l == LayoutType::Up
}

impl LayoutType {
    /// The axis that this layout arranges its children along.
    pub fn child_layout(self) -> (r: ChildLayout)
        ensures
            r == match self {
                LayoutType::Single => ChildLayout::Single,
                LayoutType::Right | LayoutType::Left => ChildLayout::Horizontal,
                LayoutType::Down | LayoutType::Up => ChildLayout::Vertical,
                LayoutType::Grid => ChildLayout::Grid,
            },
    {
        match self {
            LayoutType::Single => ChildLayout::Single,
            LayoutType::Right | LayoutType::Left => ChildLayout::Horizontal,
            LayoutType::Down | LayoutType::Up => ChildLayout::Vertical,
            LayoutType::Grid => ChildLayout::Grid,
        }
    }

    /// Whether this layout lays children one after another along the given axis.
    pub fn is_along(self, vert: bool) -> (r: bool)
        ensures
            r == lays_along(self, vert),
    {
        match self {
            LayoutType::Right | LayoutType::Left => !vert,
            LayoutType::Down | LayoutType::Up => vert,
            _ => false,
        }
    }

    /// Whether this layout places its first child at the far end of its axis.
    pub fn reversed(self) -> (r: bool)
        ensures
            r == is_reversed(self),
    {
        match self {
            LayoutType::Left | LayoutType::Up => true,
            _ => false,
        }
    }
}

/// The cell of a grid child: column, row, columns spanned, rows spanned.
#[derive(Clone, Copy, Debug, PartialEq, Eq, Structural)]
pub struct GridPos(pub u32, pub u32, pub u32, pub u32);

/// Which axis is being sized and, for the second axis, the size already
/// settled on the first.
#[derive(Clone, Copy, Debug, PartialEq, Eq, Structural)]
pub struct AxisInfo {
    pub vertical: bool,
    pub other: Option<u32>,
}

impl AxisInfo {
    pub fn new(vertical: bool, other: Option<u32>) -> (r: AxisInfo)
        ensures
            r.vertical == vertical,
            r.other == other,
    {
        AxisInfo { vertical, other }
    }

    pub fn is_vertical(&self) -> (r: bool)
        ensures
            r == self.vertical,
    {
        self.vertical
    }
}

/// Where a widget goes within space larger than it wants.
#[derive(Clone, Copy, Debug, PartialEq, Eq, Structural)]
pub enum Align {
    /// Fill the space if the widget stretches, else the start.
    Default,
    /// The start: top or left.
    TL,
    /// The middle.
    Centre,
    /// The end: bottom or right.
    BR,
    /// Fill the space; a widget that never stretches goes to the start.
    Stretch,
}

/// An alignment for each axis.
#[derive(Clone, Copy, Debug, PartialEq, Eq, Structural)]
pub struct AlignHints {
    pub horiz: Align,
    pub vert: Align,
}

impl AlignHints {
    pub fn new(horiz: Align, vert: Align) -> (r: AlignHints)
        ensures
            r.horiz == horiz,
            r.vert == vert,
    {
        AlignHints { horiz, vert }
    }
}

/// The extent, along one axis, of a widget with rule `r` and alignment `a`
/// offered `avail`: all of it where the widget stretches and is let fill;
/// else its ideal size, less if `avail` is smaller, but never below its
/// minimum.
pub open spec fn aligned_len(avail: int, r: SizeRules, a: Align) -> int {
    if r.stretch != StretchPolicy::Fixed && (a == Align::Default || a == Align::Stretch) {
        avail
    } else if avail >= r.ideal {
        r.ideal as int
    } else if avail >= r.min {
        avail
    } else {
        r.min as int
    }
}

/// The start, along one axis, of a widget of extent `len` aligned by `a`
/// within `avail` from `p`.
pub open spec fn aligned_pos(p: i32, avail: int, len: int, a: Align) -> i32 {
    if len < avail && a == Align::Centre {
        clamp_i32(p + (avail - len) / 2)
    } else if len < avail && a == Align::BR {
        clamp_i32(p + (avail - len))
    } else {
        p
    }
}

/// Places a widget with rule `r` and alignment `a` within the extent
/// `avail` starting at `p`; returns its start and extent.
pub fn align_axis(p: i32, avail: u32, r: SizeRules, a: Align) -> (res: (i32, u32))
    ensures
        res.1 == aligned_len(avail as int, r, a),
        res.0 == aligned_pos(p, avail as int, res.1 as int, a),
{
    let len: u32 = if r.stretch != StretchPolicy::Fixed && (a == Align::Default || a == Align::Stretch) {
        avail
    } else if avail >= r.ideal {
        r.ideal
    } else if avail >= r.min {
        avail
    } else {
        r.min
    };
    let pos: i32 = if len < avail && a == Align::Centre {
        crate::geom::sat_i32(p as i64 + ((avail - len) / 2) as i64)
    } else if len < avail && a == Align::BR {
        crate::geom::sat_i32(p as i64 + (avail - len) as i64)
    } else {
        p
    };
    (pos, len)
}

/// The placement of a child widget as its author wrote it: each part of its
/// grid cell, and its alignment on each axis, where given.
#[derive(Clone, Copy, Debug, PartialEq, Eq, Structural)]
pub struct WidgetAttrArgs {
    pub col: Option<u32>,
    pub row: Option<u32>,
    pub cspan: Option<u32>,
    pub rspan: Option<u32>,
    pub halign: Option<Align>,
    pub valign: Option<Align>,
}

impl WidgetAttrArgs {
    /// The grid cell: a missing column or row is 0, a missing span is 1.
    pub fn as_pos(&self) -> (r: GridPos)
        ensures
            r.0 == match self.col { Some(c) => c, None => 0 },
            r.1 == match self.row { Some(c) => c, None => 0 },
            r.2 == match self.cspan { Some(c) => c, None => 1 },
            r.3 == match self.rspan { Some(c) => c, None => 1 },
    {
        GridPos(
            match self.col { Some(c) => c, None => 0 },
            match self.row { Some(c) => c, None => 0 },
            match self.cspan { Some(c) => c, None => 1 },
            match self.rspan { Some(c) => c, None => 1 },
        )
    }

    /// The alignment on each axis; `Default` where none is given.
    pub fn align_hints(&self) -> (r: AlignHints)
        ensures
            r.horiz == match self.halign { Some(a) => a, None => Align::Default },
            r.vert == match self.valign { Some(a) => a, None => Align::Default },
    {
        AlignHints {
            horiz: match self.halign { Some(a) => a, None => Align::Default },
            vert: match self.valign { Some(a) => a, None => Align::Default },
        }
    }
}

} // verus!
