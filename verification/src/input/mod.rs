//! Input: gameplay asks about actions, never about keys.
//!
//! `input.pressed(&Action::jump())` rather than checking Space: rebinding and
//! gamepad support then need no change to gameplay code.

mod action;
mod state;

pub use action::{Action, Axis, Binding, Bindings, GamepadButton, Key, MouseButton};
pub use state::Input;
