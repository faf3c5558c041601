//! Actors: the entities that populate a world.
//!
//! An actor is a Rust type, its components are its fields, and its behaviour is
//! its methods. Every actor of one type lives in a pool of its own, and an actor
//! is named by an [`ActorId`] rather than by a reference.

pub(crate) mod id;
pub(crate) mod pool;
mod traits;

pub use id::ActorId;
pub use traits::{Actor, Behaviour, Component, HasComponent};

pub(crate) use id::Generations;
pub(crate) use pool::Pool;
