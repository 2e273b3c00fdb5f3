//! The names most callers need.

pub use crate::world::components::Component;
pub use crate::world::components::ComponentError;
pub use crate::world::components::ComponentStorage;
pub use crate::world::components::DenseVecStorage;
pub use crate::world::entities::EntityBuilder;
pub use crate::world::entities::EntityId;
pub use crate::world::World;
