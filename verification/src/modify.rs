//! Modifiers that wrap a composable: click handling and drawing.

use vstd::prelude::*;
use std::rc::Rc;

verus! {

/// A composable with a modifier state applied to it.
pub struct Modified<T, C> {
    /// The modifier state.
    pub state: T,
    /// The modified composable.
    pub content: C,
}

impl<T, C> Modified<T, C> {
    /// Apply the modifier `state` to `content`.
    pub fn new(state: T, content: C) -> (r: Self)
        ensures
            r.state == state,
            r.content == content,
    {
        Modified { state, content }
    }
}

/// Mouse buttons a click handler tells apart.
#[derive(Clone, Copy, Debug, PartialEq, Eq, Structural)]
pub enum MouseButton {
    /// The left button.
    Left,
    /// The right button.
    Right,
    /// The middle button.
    Middle,
    /// Any other button.
    Other,
}

/// State of a mouse button in an input event.
#[derive(Clone, Copy, Debug, PartialEq, Eq, Structural)]
pub enum ElementState {
    /// The button went down.
    Pressed,
    /// The button went up.
    Released,
}

/// Modifier that calls a function when its content is clicked.
pub struct Clickable<F> {
    /// Function called on a click.
    pub on_click: F,
}

/// Whether a left press has been seen by a click handler.
pub struct ClickState {
    /// Set by the first left press; it stays set.
    pub is_pressed: bool,
}

impl ClickState {
    /// A handler that has seen no press.
    pub fn new() -> (r: Self)
        ensures
            !r.is_pressed,
    {
        ClickState { is_pressed: false }
    }
}

impl<F> Clickable<F> {
    /// Create a click modifier calling `on_click`.
    pub fn new(on_click: F) -> (r: Self)
        ensures
            r.on_click == on_click,
    {
        Clickable { on_click }
    }

    /// Handle a mouse button event.
    ///
    /// Events of buttons other than the left one are ignored. A left press
    /// is remembered; a left release after a press calls `on_click`. Returns
    /// whether `on_click` was called.
    pub fn handle(&self, state: &mut ClickState, button: MouseButton, element_state: ElementState) -> (clicked: bool)
        where F: Fn(),
        requires
            self.on_click.requires(()),
        ensures
            clicked == (button == MouseButton::Left && element_state == ElementState::Released && old(state).is_pressed),
            final(state).is_pressed == (old(state).is_pressed || (button == MouseButton::Left
                && element_state == ElementState::Pressed)),
            clicked ==> self.on_click.ensures((), ()),
    {
        if button != MouseButton::Left {
            return false;
        }
        if element_state == ElementState::Pressed {
            state.is_pressed = true;
            false
        } else if state.is_pressed && element_state == ElementState::Released {
            (self.on_click)();
            true
        } else {
            false
        }
    }
}

/// Modifier that adds a drawing to the canvas of its content.
pub struct DrawModifier<T> {
    /// The shared drawing.
    pub draw: Rc<T>,
}

impl<T> DrawModifier<T> {
    /// Create a draw modifier for `draw`.
    pub fn new(draw: T) -> (r: Self)
        ensures
            *r.draw == draw,
    {
        DrawModifier { draw: Rc::new(draw) }
    }
}

} // verus!
