//! Button settings.
use vstd::prelude::*;

verus! {

/// The possible status of a button.
#[derive(Debug, Clone, Copy, PartialEq, Eq, Structural)]
pub enum Status {
    /// The button can be pressed.
    Active,
    /// The button can be pressed and it is being hovered.
    Hovered,
    /// The button is being pressed.
    Pressed,
    /// The button cannot be pressed.
    Disabled,
}

} // verus!
