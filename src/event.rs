//! Events and the responses of the widgets that handle them.

use vstd::prelude::*;
use crate::arena::WidgetId;
use crate::geom::Coord;

verus! {

/// A mouse button.
#[derive(Clone, Copy, Debug, PartialEq, Eq, Structural)]
pub enum MouseButton {
    Left,
    Right,
    Middle,
    Other(u16),
}

/// Where a press comes from.
#[derive(Clone, Copy, Debug, PartialEq, Eq, Structural)]
pub enum PressSource {
    /// A mouse click.
    Mouse(MouseButton),
    /// A touch, with the id the backend gave it.
    Touch(u64),
}

impl PressSource {
    /// Whether this is the left mouse button or a touch.
    pub fn is_primary(self) -> (r: bool)
        ensures
            r == match self {
                PressSource::Mouse(b) => b == MouseButton::Left,
                PressSource::Touch(_) => true,
            },
    {
        match self {
            PressSource::Mouse(button) => button == MouseButton::Left,
            PressSource::Touch(_) => true,
        }
    }
}

/// How far to scroll.
#[derive(Clone, Copy, Debug, PartialEq, Eq, Structural)]
pub enum ScrollDelta {
    /// A number of lines, horizontally and vertically.
    LineDelta(i32, i32),
    /// A number of pixels.
    PixelDelta(Coord),
}

/// A high-level event addressed to a widget by its id.
#[derive(Clone, Copy, Debug, PartialEq, Eq, Structural)]
pub enum Action {
    /// The widget is activated, for example a button clicked.
    Activate,
    /// The widget lost the keyboard focus.
    LostCharFocus,
    /// A character of text input.
    ReceivedCharacter(char),
    /// A scroll of the mouse wheel or touchpad.
    Scroll(ScrollDelta),
    /// A move of a grabbed press, as a shift in position.
    Pan { delta: Coord },
    /// A timer that the widget asked for has come due.
    TimerUpdate,
}

/// An event delivered to a widget, by id or found by coordinate.
#[derive(Clone, Copy, Debug, PartialEq, Eq, Structural)]
pub enum Event {
    Action(Action),
    /// A mouse button was pressed or a touch began.
    PressStart { source: PressSource, coord: Coord },
    /// A grabbed press moved; `delta` is the move since the last one seen.
    PressMove { source: PressSource, coord: Coord, delta: Coord },
    /// A grabbed press ended. `end_id` is the widget under the end of the
    /// press; `None` means the press ended off the surface and was cancelled.
    PressEnd { source: PressSource, end_id: Option<WidgetId>, coord: Coord },
}

/// What a widget says of an event it was given.
#[derive(Debug, PartialEq, Eq)]
pub enum Response<M> {
    /// Handled; nothing to report.
    Handled,
    /// Handled, with a message for the parent.
    Msg(M),
    /// Not handled: the parent may take the event instead.
    Unhandled(Event),
}

impl<M> Response<M> {
    /// Whether the event was handled.
    pub fn is_handled(&self) -> (r: bool)
        ensures
            r == !(*self is Unhandled),
    {
        match self {
            Response::Unhandled(_) => false,
            _ => true,
        }
    }
}

/// An event to hand to one widget.
#[derive(Clone, Copy, Debug, PartialEq, Eq, Structural)]
pub struct Delivery {
    pub id: WidgetId,
    pub event: Event,
}

} // verus!
