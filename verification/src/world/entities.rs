//! Entity handles and the allocator that issues and recycles them.

use super::components::Component;
use super::components::ComponentError;
use super::World;
use std::any::TypeId;
use vstd::prelude::*;

verus! {

/// An entity: an opaque handle, used only as a key into component storages.
pub type EntityId = u32;

/// The allocator seen as a mathematical value.
///
/// `next` is the smallest id that was never issued; `free` is the pool of
/// released ids, the most recently released one last.
#[verifier::ext_equal]
pub struct AllocatorModel {
    pub next: nat,
    pub free: Seq<EntityId>,
}

impl AllocatorModel {
    /// Whether another id can be issued: a released id is waiting, or the
    /// counter has not reached the largest `EntityId`.
    pub open spec fn can_allocate(self) -> bool {
        self.free.len() > 0 || self.next < u32::MAX
    }

    /// One allocation: the id issued and the allocator afterwards.
    ///
    /// A waiting released id is reissued, last released first. Only when none
    /// is waiting does the counter advance.
    pub open spec fn allocate(self) -> (EntityId, AllocatorModel) {
        if self.free.len() > 0 {
            (self.free.last(), AllocatorModel { next: self.next, free: self.free.drop_last() })
        } else {
            (self.next as EntityId, AllocatorModel { next: self.next + 1, free: self.free })
        }
    }

    /// Releasing `id`: it joins the pool as the next id to be reissued.
    pub open spec fn release(self, id: EntityId) -> AllocatorModel {
        AllocatorModel { next: self.next, free: self.free.push(id) }
    }

    /// The ids issued by `n` allocations in a row, in the order issued.
    pub open spec fn allocate_many(self, n: nat) -> Seq<EntityId>
        decreases n,
    {
        if n == 0 {
            Seq::empty()
        } else {
            seq![self.allocate().0] + self.allocate().1.allocate_many((n - 1) as nat)
        }
    }
}

/// Issues entity ids and takes them back for reuse.
pub struct EntityManager {
    next_id: EntityId,
    deleted_entities: Vec<EntityId>,
}

impl View for EntityManager {
    type V = AllocatorModel;

    closed spec fn view(&self) -> AllocatorModel {
        AllocatorModel { next: self.next_id as nat, free: self.deleted_entities@ }
    }
}

impl EntityManager {
    /// A fresh allocator: nothing issued, nothing released.
    pub fn new() -> (manager: Self)
        ensures
            manager@.next == 0,
            manager@.free =~= Seq::<EntityId>::empty(),
    {
        Self { next_id: 0, deleted_entities: Vec::new() }
    }

    /// Whether `next_id` may be called.
    pub fn can_allocate(&self) -> (possible: bool)
        ensures
            possible == self@.can_allocate(),
    {
        self.deleted_entities.len() > 0 || self.next_id < u32::MAX
    }

    /// Returns the next available entity id: the most recently released one
    /// if any is waiting, else the next id never issued before.
    pub fn next_id(&mut self) -> (id: EntityId)
        requires
            old(self)@.can_allocate(),
        ensures
            id == old(self)@.allocate().0,
            final(self)@ =~= old(self)@.allocate().1,
    {
        match self.deleted_entities.pop() {
            Some(id) => id,
            None => {
                let id = self.next_id;
                self.next_id = id + 1;
                id
            },
        }
    }

    /// Releases `entity`: it becomes the next id that `next_id` returns.
    pub fn delete(&mut self, entity: EntityId)
        ensures
            final(self)@ =~= old(self)@.release(entity),
    {
        self.deleted_entities.push(entity);
    }
}

/// Ids issued in a row, with no id waiting for reuse and none released in
/// between, count up from the counter: each is larger than the one before,
/// so no two are equal.
pub proof fn lemma_fresh_ids_strictly_increase(start: AllocatorModel, n: nat)
    requires
        start.free.len() == 0,
        start.next + n <= u32::MAX,
    ensures
        start.allocate_many(n).len() == n,
        forall|i: int| 0 <= i < n ==> #[trigger] start.allocate_many(n)[i] == start.next + i,
        forall|i: int, j: int|
            0 <= i < j < n ==> #[trigger] start.allocate_many(n)[i] < #[trigger] start.allocate_many(
                n,
            )[j],
    decreases n,
{
    if n > 0 {
        let rest = start.allocate().1;
        lemma_fresh_ids_strictly_increase(rest, (n - 1) as nat);
        let tail = rest.allocate_many((n - 1) as nat);
        assert forall|i: int| 0 <= i < n implies #[trigger] start.allocate_many(n)[i] == start.next
            + i by {
            if i > 0 {
                assert(start.allocate_many(n)[i] == tail[i - 1]);
            }
        }
    }
}

/// A released id is the very next one issued, before the counter moves, and
/// the allocator is then as it was before the release.
pub proof fn lemma_released_id_is_reissued_first(before: AllocatorModel, id: EntityId)
    ensures
        before.release(id).can_allocate(),
        before.release(id).allocate().0 == id,
        before.release(id).allocate().1 =~= before,
{
}

/// A short-lived helper that attaches components to a freshly issued entity.
/// It borrows the world for as long as it lives.
pub struct EntityBuilder<'a> {
    entity_id: EntityId,
    world: &'a mut World,
}

impl<'a> EntityBuilder<'a> {
    /// The id of the entity that the builder is bound to.
    pub closed spec fn bound_id(&self) -> EntityId {
        self.entity_id
    }

    /// The borrow of the world that the builder holds.
    pub closed spec fn held_world(&self) -> &'a mut World {
        self.world
    }

    /// Once the builder is let go, the world it held is the world it leaves
    /// behind. A caller in another module brings this in with
    /// `broadcast use`, to speak of the world after the builder.
    pub broadcast proof fn lemma_let_go(self)
        ensures
            #[trigger] has_resolved(self) ==> *self.held_world() == *final(self.held_world()),
    {
    }

    /// Issues an id from the world's allocator and binds the builder to it.
    pub fn new(world: &'a mut World) -> (builder: Self)
        requires
            old(world).entities().can_allocate(),
        ensures
            builder.bound_id() == old(world).entities().allocate().0,
            (*builder.held_world()).entities() =~= old(world).entities().allocate().1,
            (*builder.held_world()).components() == old(world).components(),
            *final(builder.held_world()) == *final(world),
    {
        let entity_id = world.entity_manager.next_id();
        Self { entity_id, world }
    }

    /// Gives the builder's entity the component `component`, and hands the
    /// builder back so that calls can be chained.
    ///
    /// Fails with `UnregisteredComponent`, and leaves the world as it was,
    /// where no storage is registered for `C`. The allocator is never
    /// touched, no component type is added or dropped, and at most the
    /// storage of one component type changes.
    pub fn with<C: Component + 'static>(&mut self, component: C) -> (outcome: Result<
        &mut Self,
        ComponentError,
    >)
        ensures
            match outcome {
                Ok(builder) => {
                    &&& builder.bound_id() == old(self).bound_id()
                    &&& (*builder.held_world()).entities() == (*old(self).held_world()).entities()
                    &&& (*builder.held_world()).components().dom() =~= (*old(self).held_world()).components().dom()
                    &&& exists|key: TypeId| #[trigger]
                        (*old(self).held_world()).components().remove(key) =~= (
                        *builder.held_world()).components().remove(key)
                    &&& *final(builder.held_world()) == *final(old(self).held_world())
                    &&& *final(self) == *final(builder)
                },
                Err(error) => {
                    &&& error == ComponentError::UnregisteredComponent
                    &&& final(self).bound_id() == old(self).bound_id()
                    &&& (*final(self).held_world()).entities() == (*old(self).held_world()).entities()
                    &&& (*final(self).held_world()).components() =~= (*old(self).held_world()).components()
                    &&& *final(final(self).held_world()) == *final(old(self).held_world())
                },
            },
            (forall|key: TypeId| !(*old(self).held_world()).components().contains_key(key))
                ==> outcome is Err,
    {
        let entity = self.entity_id;
        match self.world.component_manager.insert_component(entity, component) {
            Ok(()) => Ok(self),
            Err(error) => Err(error),
        }
    }

    /// The id of the entity that the builder is bound to.
    pub fn id(&self) -> (id: EntityId)
        ensures
            id == self.bound_id(),
    {
        self.entity_id
    }
}

} // verus!
