//! Layout negotiation and event dispatch for a tree of widgets.
//!
//! Widgets state their size preferences as [`SizeRules`], containers combine
//! them, and a rectangle assigned to the root is split back down the tree.
//! The event [`Manager`] routes input to a single widget, tracks press grabs
//! and coalesces timer requests.

pub mod arena;
pub mod event;
pub mod geom;
pub mod grid;
pub mod layout;
pub mod manager;
pub mod size_rules;
pub mod solver;
pub mod tree;
pub mod window;

pub use arena::{Node, NodeKind, WidgetId};
pub use event::{Action, Delivery, Event, MouseButton, PressSource, Response, ScrollDelta};
pub use geom::{Coord, Rect, Size};
pub use layout::{Align, AlignHints, AxisInfo, ChildLayout, GridPos, LayoutType, WidgetAttrArgs};
pub use manager::{Grab, Manager, TimerRequest};
pub use size_rules::{Margins, SizeRules, StretchPolicy};
pub use solver::solve_seq;
pub use tree::Tree;
pub use window::{Callback, Layout, SimpleWindow, Window};
