//! The editor's bookkeeping: the undo history, the play state, the shortcuts
//! and what the asset browser and viewport decide.

pub mod browser;
pub mod keys;
pub mod play;
pub mod settings;
pub mod undo;
pub mod viewport;

pub use browser::Kind;
pub use keys::{Editor, Shortcuts};
pub use play::{Session as PlaySession, State as PlayState};
pub use settings::Settings;
pub use undo::{Command, History};
pub use crate::text::unquote;
pub use viewport::{kept_axes, Handle, Mode, Selection};
