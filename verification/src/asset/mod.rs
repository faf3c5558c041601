//! Assets: files a game loads, named by path and loaded once.

pub(crate) mod id;
mod project;
mod store;
mod watch;

pub use id::AssetId;
pub use project::{AssetError, Project};
pub use store::{AssetStore, Handle};
pub use watch::{Stamp, Watcher, DEFAULT_INTERVAL};
