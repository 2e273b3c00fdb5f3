//! The world: one entity allocator and one component registry behind a
//! single facade.

use vstd::prelude::*;

pub mod components;
pub mod entities;
pub mod erased;

use components::Component;
use components::ComponentError;
use components::ComponentManager;
use entities::AllocatorModel;
use entities::EntityBuilder;
use entities::EntityId;
use entities::EntityManager;
use erased::ErasedStorage;
use std::any::TypeId;

verus! {

/// The top-level container. It owns the allocator and the registry and holds
/// no component data of its own.
pub struct World {
    entity_manager: EntityManager,
    component_manager: ComponentManager,
}

impl World {
    /// The allocator's state.
    pub closed spec fn entities(&self) -> AllocatorModel {
        self.entity_manager@
    }

    /// The registry, as a map from a component type's identifier to the
    /// storage registered for it.
    pub closed spec fn components(&self) -> Map<TypeId, ErasedStorage> {
        self.component_manager@
    }

    /// A world with no entity issued and no component type registered.
    pub fn new() -> (world: Self)
        ensures
            world.entities().next == 0,
            world.entities().free =~= Seq::<EntityId>::empty(),
            world.components() =~= Map::<TypeId, ErasedStorage>::empty(),
    {
        Self { entity_manager: EntityManager::new(), component_manager: ComponentManager::new() }
    }

    /// Registers the component type `C`, with an empty storage of the kind
    /// that `C` names.
    ///
    /// Fails with `DuplicateRegistration`, and leaves the world as it was,
    /// where `C` is registered already. The allocator is never touched.
    pub fn register<C: Component + 'static>(&mut self) -> (outcome: Result<(), ComponentError>)
        ensures
            final(self).entities() == old(self).entities(),
            match outcome {
                Ok(()) => exists|key: TypeId, storage: ErasedStorage|
                    {
                        &&& !old(self).components().contains_key(key)
                        &&& #[trigger] old(self).components().insert(key, storage)
                            =~= final(self).components()
                    },
                Err(error) => {
                    &&& error == ComponentError::DuplicateRegistration
                    &&& final(self).components() =~= old(self).components()
                    &&& exists|key: TypeId| #[trigger] old(self).components().contains_key(key)
                },
            },
    {
        let outcome = self.component_manager.register::<C, C::Storage>();
        proof {
            if outcome is Ok {
                let (key, storage) = choose|key: TypeId, storage: ErasedStorage|
                    {
                        &&& !old(self).component_manager@.contains_key(key)
                        &&& #[trigger] old(self).component_manager@.insert(key, storage)
                            =~= self.component_manager@
                    };
                assert(old(self).components().insert(key, storage) =~= self.components());
            } else {
                let key = choose|key: TypeId| #[trigger]
                    old(self).component_manager@.contains_key(key);
                assert(old(self).components().contains_key(key));
            }
        }
        outcome
    }

    /// The component of `entity`, of type `C`; nothing where the entity has
    /// none.
    ///
    /// Fails with `UnregisteredComponent` where `C` is not registered; in a
    /// world with nothing registered it always does.
    pub fn get<C: Component + 'static>(&self, entity: EntityId) -> (outcome: Result<
        Option<&C>,
        ComponentError,
    >)
        ensures
            outcome matches Err(error) ==> error == ComponentError::UnregisteredComponent,
            (forall|key: TypeId| !self.components().contains_key(key)) ==> outcome is Err,
    {
        proof {
            if forall|key: TypeId| !self.components().contains_key(key) {
                assert forall|key: TypeId| !self.component_manager@.contains_key(key) by {
                    assert(!self.components().contains_key(key));
                }
            }
        }
        self.component_manager.get(entity)
    }

    /// Whether `spawn_entity` may be called: whether the allocator has an id
    /// left to issue.
    pub fn can_spawn(&self) -> (possible: bool)
        ensures
            possible == self.entities().can_allocate(),
    {
        self.entity_manager.can_allocate()
    }

    /// Issues an entity id and returns a builder bound to it. The world is
    /// borrowed until the builder is let go.
    pub fn spawn_entity(&mut self) -> (builder: EntityBuilder<'_>)
        requires
            old(self).entities().can_allocate(),
        ensures
            builder.bound_id() == old(self).entities().allocate().0,
            (*builder.held_world()).entities() =~= old(self).entities().allocate().1,
            (*builder.held_world()).components() == old(self).components(),
            *final(builder.held_world()) == *final(self),
    {
        EntityBuilder::new(self)
    }
}

} // verus!
