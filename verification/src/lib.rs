//! A small entity-component store.
//!
//! Entities are plain integer handles. Components are values of any
//! `'static` type that implements [`world::components::Component`]; a
//! [`world::World`] keeps one storage per registered component type and
//! routes typed calls to it.
//!
//! ```ignore
//! use tecs::prelude::*;
//!
//! let mut world = World::new();
//! world.register::<Position>().unwrap();
//! world.register::<Velocity>().unwrap();
//! let player = world
//!     .spawn_entity()
//!     .with(Position { x: 0, y: 0 }).unwrap()
//!     .with(Velocity { x: 1, y: 1 }).unwrap()
//!     .id();
//! ```
#![allow(dead_code)]

pub mod prelude;
pub mod world;
