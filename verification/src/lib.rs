//! Raster: actors, the world they live in, assets, input bindings and the
//! editor's bookkeeping, with their contracts proved.

pub mod actor;

pub use actor::{Actor, ActorId, Behaviour};
pub mod world;

pub use world::World;
mod text;
pub mod asset;
pub mod editor;
pub mod input;
pub mod reflect;
