use vstd::prelude::*;

verus! {

/// What the mouse is doing to the view; the positions that go with each
/// state are kept by the caller.
#[derive(Clone, Copy, Debug, PartialEq, Eq, Structural)]
pub enum MouseMode {
    /// No position is known yet.
    Unknown,
    /// The mouse moves without a button held.
    Free,
    /// The left button is held: moving rotates the model.
    Rotate,
    /// The right button is held: moving pans the model.
    Pan,
}

/// A mouse button, as far as the view cares.
#[derive(Clone, Copy, Debug, PartialEq, Eq, Structural)]
pub enum Button {
    Left,
    Right,
    Other,
}

/// What a mouse move does to the view.
#[derive(Clone, Copy, Debug, PartialEq, Eq, Structural)]
pub enum MoveAction {
    /// Move the view centre by the mouse's displacement in model space.
    Pan,
    /// Spin the model by the mouse's displacement.
    Rotate,
    /// Nothing changes but the stored position.
    Nothing,
}

pub open spec fn spec_after_press(mode: MouseMode, button: Button) -> MouseMode {
    match (mode, button) {
        (MouseMode::Free, Button::Left) => MouseMode::Rotate,
        (MouseMode::Free, Button::Right) => MouseMode::Pan,
        _ => mode,
    }
}

pub open spec fn spec_after_release(mode: MouseMode, button: Button) -> MouseMode {
    match (mode, button) {
        (MouseMode::Rotate, Button::Left) => MouseMode::Free,
        (MouseMode::Pan, Button::Right) => MouseMode::Free,
        _ => mode,
    }
}

pub open spec fn spec_after_move(mode: MouseMode) -> MouseMode {
    match mode {
        MouseMode::Unknown => MouseMode::Free,
        _ => mode,
    }
}

/// The state after a button goes down: from a free mouse, the left button
/// starts rotating and the right one starts panning; otherwise nothing
/// changes.
pub fn after_press(mode: MouseMode, button: Button) -> (r: MouseMode)
    ensures
        r == spec_after_press(mode, button),
{
    match (mode, button) {
        (MouseMode::Free, Button::Left) => MouseMode::Rotate,
        (MouseMode::Free, Button::Right) => MouseMode::Pan,
        _ => mode,
    }
}

/// The state after a button goes up: releasing the button that started a
/// rotation or a pan frees the mouse; otherwise nothing changes.
pub fn after_release(mode: MouseMode, button: Button) -> (r: MouseMode)
    ensures
        r == spec_after_release(mode, button),
{
    match (mode, button) {
        (MouseMode::Rotate, Button::Left) => MouseMode::Free,
        (MouseMode::Pan, Button::Right) => MouseMode::Free,
        _ => mode,
    }
}

/// What a mouse move does in a state, and the state after it: the first
/// move makes a position known.
pub fn on_move(mode: MouseMode) -> (r: (MoveAction, MouseMode))
    ensures
        r.1 == spec_after_move(mode),
        r.0 == (match mode {
            MouseMode::Pan => MoveAction::Pan,
            MouseMode::Rotate => MoveAction::Rotate,
            _ => MoveAction::Nothing,
        }),
{
    match mode {
        MouseMode::Pan => (MoveAction::Pan, MouseMode::Pan),
        MouseMode::Rotate => (MoveAction::Rotate, MouseMode::Rotate),
        MouseMode::Free => (MoveAction::Nothing, MouseMode::Free),
        MouseMode::Unknown => (MoveAction::Nothing, MouseMode::Free),
    }
}

/// Scrolling zooms only while the mouse is free.
pub fn scroll_zooms(mode: MouseMode) -> (r: bool)
    ensures
        r == (mode == MouseMode::Free),
{
    match mode {
        MouseMode::Free => true,
        _ => false,
    }
}

/// Pressing a button on a free mouse and releasing the same button frees
/// it again; releasing never starts a rotation or a pan, and once the mouse
/// has moved its position stays known.
pub proof fn lemma_mouse_laws(mode: MouseMode, b: Button, c: Button)
    ensures
        spec_after_release(spec_after_press(MouseMode::Free, b), b) == MouseMode::Free,
        spec_after_release(mode, c) == MouseMode::Rotate ==> mode == MouseMode::Rotate,
        spec_after_release(mode, c) == MouseMode::Pan ==> mode == MouseMode::Pan,
        spec_after_move(mode) != MouseMode::Unknown,
        spec_after_press(spec_after_move(mode), c) != MouseMode::Unknown,
        spec_after_release(spec_after_move(mode), c) != MouseMode::Unknown,
{
}

} // verus!
