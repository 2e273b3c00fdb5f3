//! Components, the storage contract, and the dense storage.

use super::entities::EntityId;
use super::erased::erase;
use super::erased::same_key;
use super::erased::type_key;
use super::erased::typed_mut;
use super::erased::typed_ref;
use super::erased::ErasedStorage;
use std::any::TypeId;
use vstd::prelude::*;

verus! {

/// Whether `entries` has an entry for `entity`.
pub open spec fn holds<C>(entries: Seq<(EntityId, C)>, entity: EntityId) -> bool {
    exists|i: int| 0 <= i < entries.len() && (#[trigger] entries[i]).0 == entity
}

/// Whether position `i` is where the first entry for `entity` stands.
pub open spec fn is_first_entry<C>(entries: Seq<(EntityId, C)>, entity: EntityId, i: int) -> bool {
    &&& 0 <= i < entries.len()
    &&& entries[i].0 == entity
    &&& forall|j: int| 0 <= j < i ==> (#[trigger] entries[j]).0 != entity
}

/// The position of the first entry for `entity`. It means something only
/// where `holds(entries, entity)`.
pub open spec fn first_position<C>(entries: Seq<(EntityId, C)>, entity: EntityId) -> int {
    choose|i: int| is_first_entry(entries, entity, i)
}

/// What a lookup of `entity` finds: the component of the first entry for it,
/// or nothing where no entry is for it.
pub open spec fn first_component<C>(entries: Seq<(EntityId, C)>, entity: EntityId) -> Option<C> {
    if holds(entries, entity) {
        Some(entries[first_position(entries, entity)].1)
    } else {
        None
    }
}

/// `entries` after `entity` was given `component`: the entry for `entity` now
/// holds `component`, in the place it had; where there was none, a new entry
/// stands at the end.
pub open spec fn inserted<C>(entries: Seq<(EntityId, C)>, entity: EntityId, component: C) -> Seq<
    (EntityId, C),
> {
    if holds(entries, entity) {
        entries.update(first_position(entries, entity), (entity, component))
    } else {
        entries.push((entity, component))
    }
}

/// No entity has two entries.
pub open spec fn one_entry_per_entity<C>(entries: Seq<(EntityId, C)>) -> bool {
    forall|i: int, j: int|
        0 <= i < j < entries.len() ==> (#[trigger] entries[i]).0 != (#[trigger] entries[j]).0
}

/// The test that an entry passes when it is for another entity than `entity`.
pub open spec fn is_for_another<C>(entity: EntityId) -> spec_fn((EntityId, C)) -> bool {
    |entry: (EntityId, C)| entry.0 != entity
}

/// `entries` with every entry for `entity` taken out; the others keep their
/// order.
pub open spec fn without<C>(entries: Seq<(EntityId, C)>, entity: EntityId) -> Seq<(EntityId, C)> {
    entries.filter(is_for_another(entity))
}

/// Among the positions that hold `entity` there is a least one, and nothing
/// but that one is a first entry.
pub proof fn lemma_first_position<C>(entries: Seq<(EntityId, C)>, entity: EntityId)
    requires
        holds(entries, entity),
    ensures
        is_first_entry(entries, entity, first_position(entries, entity)),
        forall|i: int| is_first_entry(entries, entity, i) ==> i == first_position(entries, entity),
{
    let some = choose|i: int| 0 <= i < entries.len() && (#[trigger] entries[i]).0 == entity;
    lemma_least_entry(entries, entity, some);
}

/// Below or at any position that holds `entity` stands a first entry for it.
proof fn lemma_least_entry<C>(entries: Seq<(EntityId, C)>, entity: EntityId, at: int)
    requires
        0 <= at < entries.len(),
        entries[at].0 == entity,
    ensures
        exists|i: int| is_first_entry(entries, entity, i),
    decreases at,
{
    if exists|j: int| 0 <= j < at && (#[trigger] entries[j]).0 == entity {
        let j = choose|j: int| 0 <= j < at && (#[trigger] entries[j]).0 == entity;
        lemma_least_entry(entries, entity, j);
    } else {
        assert(is_first_entry(entries, entity, at));
    }
}

/// Round trip: after `entity` was given `component`, a lookup of `entity`
/// finds `component`, whatever the entity held before. Lookups of other
/// entities find what they found before.
pub proof fn lemma_insert_then_get<C>(
    entries: Seq<(EntityId, C)>,
    entity: EntityId,
    component: C,
    other: EntityId,
)
    ensures
        first_component(inserted(entries, entity, component), entity) == Some(component),
        other != entity ==> first_component(inserted(entries, entity, component), other)
            == first_component(entries, other),
{
    if holds(entries, entity) {
        lemma_overwrite_then_get(entries, entity, component, other);
    } else {
        lemma_push_then_get(entries, entity, component, other);
    }
}

/// Giving an entity a component leaves no entity with two entries, where
/// none had two before; the entity itself then has exactly one.
pub proof fn lemma_insert_keeps_one_entry<C>(
    entries: Seq<(EntityId, C)>,
    entity: EntityId,
    component: C,
)
    requires
        one_entry_per_entity(entries),
    ensures
        one_entry_per_entity(inserted(entries, entity, component)),
        holds(inserted(entries, entity, component), entity),
{
    let after = inserted(entries, entity, component);
    if holds(entries, entity) {
        lemma_first_position(entries, entity);
        let at = first_position(entries, entity);
        assert(after[at].0 == entity);
        lemma_overwrite_keeps_one_entry(entries, entity, component);
    } else {
        assert(after[entries.len() as int].0 == entity);
        assert forall|i: int, j: int| 0 <= i < j < after.len() implies (#[trigger] after[i]).0 != (
        #[trigger] after[j]).0 by {
            assert(after[i] == entries[i]);
            if j < entries.len() {
                assert(after[j] == entries[j]);
            }
        }
    }
}

/// Writing into the first entry for an entity leaves no entity with two
/// entries, where none had two before.
pub proof fn lemma_overwrite_keeps_one_entry<C>(
    entries: Seq<(EntityId, C)>,
    entity: EntityId,
    component: C,
)
    requires
        one_entry_per_entity(entries),
        holds(entries, entity),
    ensures
        one_entry_per_entity(
            entries.update(first_position(entries, entity), (entity, component)),
        ),
{
    lemma_first_position(entries, entity);
    let at = first_position(entries, entity);
    let after = entries.update(at, (entity, component));
    assert forall|i: int, j: int| 0 <= i < j < after.len() implies (#[trigger] after[i]).0 != (
    #[trigger] after[j]).0 by {
        assert(after[i].0 == entries[i].0);
        assert(after[j].0 == entries[j].0);
    }
}

/// Removing an entity's entries leaves no entity with two entries, where
/// none had two before.
pub proof fn lemma_remove_keeps_one_entry<C>(entries: Seq<(EntityId, C)>, entity: EntityId)
    requires
        one_entry_per_entity(entries),
    ensures
        one_entry_per_entity(without(entries, entity)),
    decreases entries.len(),
{
    reveal(Seq::filter);
    if entries.len() > 0 {
        let front = entries.drop_last();
        let last = entries.last();
        assert(entries =~= front.push(last));
        assert(one_entry_per_entity(front)) by {
            assert forall|i: int, j: int| 0 <= i < j < front.len() implies (#[trigger] front[i]).0
                != (#[trigger] front[j]).0 by {
                assert(front[i] == entries[i]);
                assert(front[j] == entries[j]);
            }
        }
        lemma_remove_keeps_one_entry(front, entity);
        front.lemma_filter_push(last, is_for_another(entity));
        let left = without(front, entity);
        if last.0 != entity {
            let after = left.push(last);
            assert forall|i: int, j: int| 0 <= i < j < after.len() implies (#[trigger] after[i]).0
                != (#[trigger] after[j]).0 by {
                assert(after[i] == left[i]);
                if j < left.len() {
                    assert(after[j] == left[j]);
                } else {
                    assert(left.contains(left[i]));
                    front.lemma_filter_contains_rev(is_for_another(entity), left[i]);
                    let k = choose|k: int| 0 <= k < front.len() && front[k] == left[i];
                    assert(entries[k] == front[k]);
                    assert(entries[entries.len() - 1] == last);
                }
            }
        }
    }
}

/// What a lookup finds after any entry is appended: the earlier entry for
/// the entity where there was one, else the new one; for other entities,
/// what it found before.
proof fn lemma_push_then_get<C>(
    entries: Seq<(EntityId, C)>,
    entity: EntityId,
    component: C,
    other: EntityId,
)
    ensures
        !holds(entries, entity) ==> first_component(entries.push((entity, component)), entity)
            == Some(component),
        holds(entries, entity) ==> first_component(entries.push((entity, component)), entity)
            == first_component(entries, entity),
        other != entity ==> first_component(entries.push((entity, component)), other)
            == first_component(entries, other),
{
    let after = entries.push((entity, component));
    assert(after[entries.len() as int].0 == entity);
    if holds(entries, entity) {
        lemma_first_position(entries, entity);
        let at = first_position(entries, entity);
        assert(after[at] == entries[at]);
        assert(is_first_entry(after, entity, at)) by {
            assert forall|j: int| 0 <= j < at implies (#[trigger] after[j]).0 != entity by {
                assert(after[j] == entries[j]);
            }
        }
        lemma_first_position(after, entity);
    } else {
        assert(is_first_entry(after, entity, entries.len() as int)) by {
            assert forall|j: int| 0 <= j < entries.len() implies (#[trigger] after[j]).0
                != entity by {
                assert(after[j] == entries[j]);
            }
        }
        lemma_first_position(after, entity);
    }
    if other != entity {
        if holds(entries, other) {
            lemma_first_position(entries, other);
            let at = first_position(entries, other);
            assert(after[at] == entries[at]);
            assert(is_first_entry(after, other, at)) by {
                assert forall|j: int| 0 <= j < at implies (#[trigger] after[j]).0 != other by {
                    assert(after[j] == entries[j]);
                }
            }
            lemma_first_position(after, other);
        } else {
            assert forall|j: int| 0 <= j < after.len() implies (#[trigger] after[j]).0
                != other by {
                if j < entries.len() {
                    assert(after[j] == entries[j]);
                }
            }
        }
    }
}

/// Writing `component` into the first entry for `entity` makes it what a
/// lookup of `entity` finds. Lookups of other entities find what they found
/// before.
pub proof fn lemma_overwrite_then_get<C>(
    entries: Seq<(EntityId, C)>,
    entity: EntityId,
    component: C,
    other: EntityId,
)
    requires
        holds(entries, entity),
    ensures
        first_component(
            entries.update(first_position(entries, entity), (entity, component)),
            entity,
        ) == Some(component),
        other != entity ==> first_component(
            entries.update(first_position(entries, entity), (entity, component)),
            other,
        ) == first_component(entries, other),
{
    lemma_first_position(entries, entity);
    let at = first_position(entries, entity);
    let after = entries.update(at, (entity, component));
    assert(is_first_entry(after, entity, at)) by {
        assert forall|j: int| 0 <= j < at implies (#[trigger] after[j]).0 != entity by {
            assert(after[j] == entries[j]);
        }
    }
    assert(holds(after, entity)) by {
        assert(after[at].0 == entity);
    }
    lemma_first_position(after, entity);
    if other != entity {
        if holds(entries, other) {
            lemma_first_position(entries, other);
            let found = first_position(entries, other);
            assert(after[found] == entries[found]);
            assert(is_first_entry(after, other, found)) by {
                assert forall|j: int| 0 <= j < found implies (#[trigger] after[j]).0
                    != other by {
                    if j != at {
                        assert(after[j] == entries[j]);
                    }
                }
            }
            assert(holds(after, other)) by {
                assert(after[found].0 == other);
            }
            lemma_first_position(after, other);
        } else {
            assert forall|j: int| 0 <= j < after.len() implies (#[trigger] after[j]).0
                != other by {
                if j != at {
                    assert(after[j] == entries[j]);
                }
            }
        }
    }
}

/// A lookup of an entity for which no entry was ever made finds nothing. So
/// does every lookup in an empty storage.
pub proof fn lemma_absent_is_not_found<C>(entries: Seq<(EntityId, C)>, entity: EntityId)
    requires
        forall|i: int| 0 <= i < entries.len() ==> (#[trigger] entries[i]).0 != entity,
    ensures
        first_component(entries, entity) is None,
        first_component(Seq::<(EntityId, C)>::empty(), entity) is None,
{
}

/// After the entries for `entity` are removed, a lookup of `entity` finds
/// nothing, whatever was there before; a component given to the entity just
/// before the removal is gone too.
pub proof fn lemma_remove_then_get<C>(entries: Seq<(EntityId, C)>, entity: EntityId, component: C)
    ensures
        first_component(without(entries, entity), entity) is None,
        first_component(without(inserted(entries, entity, component), entity), entity) is None,
{
    lemma_none_left(entries, entity);
    lemma_none_left(inserted(entries, entity, component), entity);
}

/// Removing the entries for `entity` leaves what a lookup of any other entity
/// finds as it was.
pub proof fn lemma_remove_keeps_others<C>(
    entries: Seq<(EntityId, C)>,
    entity: EntityId,
    other: EntityId,
)
    requires
        other != entity,
    ensures
        first_component(without(entries, entity), other) == first_component(entries, other),
    decreases entries.len(),
{
    reveal(Seq::filter);
    if entries.len() > 0 {
        let front = entries.drop_last();
        let last = entries.last();
        assert(entries =~= front.push(last));
        lemma_remove_keeps_others(front, entity, other);
        front.lemma_filter_push(last, is_for_another(entity));
        lemma_push_then_get(front, last.0, last.1, other);
        lemma_push_then_get(without(front, entity), last.0, last.1, other);
    }
}

/// `without(entries, entity)` has no entry for `entity`.
proof fn lemma_none_left<C>(entries: Seq<(EntityId, C)>, entity: EntityId)
    ensures
        !holds(without(entries, entity), entity),
{
    let left = without(entries, entity);
    assert forall|i: int| 0 <= i < left.len() implies (#[trigger] left[i]).0 != entity by {
        entries.lemma_filter_pred(is_for_another(entity), i);
    }
}

/// A component: any value type. It names the storage that keeps its values.
pub trait Component: Sized {
    type Storage: ComponentStorage<Self> + 'static;
}

/// Plain `u32` values are components as they are, kept in a dense storage.
impl Component for u32 {
    type Storage = DenseVecStorage<u32>;
}

/// What every storage of components of type `C` offers.
///
/// A storage is a list of `(entity, component)` entries, `entries`, with at
/// most one entry for an entity: `one_entry_per_entity` holds of a new
/// storage and every operation keeps it. An implementation may keep the
/// entries in any form, and say in `entries` in which order they count, as
/// long as its operations act on that list as stated here.
pub trait ComponentStorage<C>: Sized {
    /// The entries, oldest first.
    spec fn entries(&self) -> Seq<(EntityId, C)>;

    /// An empty storage.
    fn new() -> (storage: Self)
        ensures
            storage.entries() =~= Seq::<(EntityId, C)>::empty(),
            one_entry_per_entity(storage.entries()),
    ;

    /// Gives `entity` the component `component`. The last insert wins: where
    /// the entity has an entry already, that entry now holds `component`;
    /// where it has none, a new entry is made. A lookup of `entity` then
    /// finds `component`. Lookups of other entities find what they found
    /// before, and no entity comes to have two entries.
    fn insert(&mut self, entity: EntityId, component: C)
        ensures
            final(self).entries() =~= (if holds(old(self).entries(), entity) {
                old(self).entries().update(
                    first_position(old(self).entries(), entity),
                    (entity, component),
                )
            } else {
                old(self).entries().push((entity, component))
            }),
            first_component(final(self).entries(), entity) == Some(component),
            forall|other: EntityId|
                other != entity ==> #[trigger] first_component(final(self).entries(), other)
                    == first_component(old(self).entries(), other),
            one_entry_per_entity(old(self).entries()) ==> one_entry_per_entity(
                final(self).entries(),
            ),
    ;

    /// Removes every entry for `entity`; does nothing where there is none.
    /// A lookup of `entity` then finds nothing. Lookups of other entities
    /// find what they found before.
    fn remove(&mut self, entity: EntityId)
        ensures
            final(self).entries() =~= without(old(self).entries(), entity),
            first_component(final(self).entries(), entity) is None,
            forall|other: EntityId|
                other != entity ==> #[trigger] first_component(final(self).entries(), other)
                    == first_component(old(self).entries(), other),
            one_entry_per_entity(old(self).entries()) ==> one_entry_per_entity(
                final(self).entries(),
            ),
    ;

    /// The component of the first entry for `entity`; nothing where no entry
    /// is for it.
    fn get(&self, entity: EntityId) -> (found: Option<&C>)
        ensures
            found is Some <==> holds(self.entries(), entity),
            match found {
                Some(component) => {
                    &&& first_component(self.entries(), entity) == Some(*component)
                    &&& is_first_entry(
                        self.entries(),
                        entity,
                        first_position(self.entries(), entity),
                    )
                },
                None => first_component(self.entries(), entity) is None,
            },
    ;

    /// The component of the first entry for `entity`, for writing. What the
    /// caller leaves in it is what that entry holds afterwards; nothing else
    /// changes.
    fn get_mut(&mut self, entity: EntityId) -> (found: Option<&mut C>)
        ensures
            match found {
                Some(component) => {
                    &&& holds(old(self).entries(), entity)
                    &&& is_first_entry(
                        old(self).entries(),
                        entity,
                        first_position(old(self).entries(), entity),
                    )
                    &&& Some(*component) == first_component(old(self).entries(), entity)
                    &&& final(self).entries() =~= old(self).entries().update(
                        first_position(old(self).entries(), entity),
                        (entity, *final(component)),
                    )
                    &&& first_component(final(self).entries(), entity) == Some(*final(component))
                },
                None => {
                    &&& !holds(old(self).entries(), entity)
                    &&& final(self).entries() =~= old(self).entries()
                },
            },
            forall|other: EntityId|
                other != entity ==> #[trigger] first_component(final(self).entries(), other)
                    == first_component(old(self).entries(), other),
            one_entry_per_entity(old(self).entries()) ==> one_entry_per_entity(
                final(self).entries(),
            ),
    ;
}

/// The dense storage: a flat list, scanned from the front by every
/// operation.
pub struct DenseVecStorage<C> {
    components: Vec<(EntityId, C)>,
}

impl<C> DenseVecStorage<C> {
    /// The position of the first entry for `entity`.
    fn position(&self, entity: EntityId) -> (found: Option<usize>)
        ensures
            match found {
                Some(i) => {
                    &&& holds(self.components@, entity)
                    &&& first_position(self.components@, entity) == i
                    &&& is_first_entry(self.components@, entity, i as int)
                },
                None => !holds(self.components@, entity),
            },
    {
        let mut i: usize = 0;
        while i < self.components.len()
            invariant
                i <= self.components.len(),
                forall|j: int| 0 <= j < i ==> (#[trigger] self.components@[j]).0 != entity,
            decreases self.components.len() - i,
        {
            if self.components[i].0 == entity {
                proof {
                    assert(is_first_entry(self.components@, entity, i as int));
                    lemma_first_position(self.components@, entity);
                }
                return Some(i);
            }
            i += 1;
        }
        None
    }
}

impl<C> ComponentStorage<C> for DenseVecStorage<C> {
    closed spec fn entries(&self) -> Seq<(EntityId, C)> {
        self.components@
    }

    fn new() -> (storage: Self) {
        Self { components: Vec::new() }
    }

    fn insert(&mut self, entity: EntityId, component: C) {
        proof {
            let before = self.components@;
            assert forall|other: EntityId|
                other != entity implies #[trigger] first_component(
                inserted(before, entity, component),
                other,
            ) == first_component(before, other) by {
                lemma_insert_then_get(before, entity, component, other);
            }
            lemma_insert_then_get(before, entity, component, entity);
            if one_entry_per_entity(before) {
                lemma_insert_keeps_one_entry(before, entity, component);
            }
        }
        match self.position(entity) {
            Some(i) => {
                self.components[i] = (entity, component);
            },
            None => {
                self.components.push((entity, component));
            },
        }
    }

    fn remove(&mut self, entity: EntityId) {
        let mut all: Vec<(EntityId, C)> = Vec::new();
        std::mem::swap(&mut all, &mut self.components);
        let ghost before = all@;
        for entry in it: all
            invariant
                it.seq() == before,
                self.components@ == without(before.take(it.index()), entity),
        {
            proof {
                let seen = before.take(it.index());
                assert(before.take(it.index() + 1) =~= seen.push(entry));
                seen.lemma_filter_push(entry, is_for_another(entity));
            }
            if entry.0 != entity {
                self.components.push(entry);
            }
        }
        proof {
            assert(before.take(before.len() as int) =~= before);
            lemma_none_left(before, entity);
            assert forall|other: EntityId|
                other != entity implies #[trigger] first_component(
                without(before, entity),
                other,
            ) == first_component(before, other) by {
                lemma_remove_keeps_others(before, entity, other);
            }
            if one_entry_per_entity(before) {
                lemma_remove_keeps_one_entry(before, entity);
            }
        }
    }

    fn get(&self, entity: EntityId) -> (found: Option<&C>) {
        match self.position(entity) {
            Some(i) => Some(&self.components[i].1),
            None => None,
        }
    }

    fn get_mut(&mut self, entity: EntityId) -> (found: Option<&mut C>) {
        match self.position(entity) {
            Some(i) => {
                proof {
                    let before = self.components@;
                    assert forall|component: C, other: EntityId| #[trigger]
                        first_component(before.update(i as int, (entity, component)), other) == (
                        if other == entity {
                            Some(component)
                        } else {
                            first_component(before, other)
                        }) by {
                        lemma_overwrite_then_get(before, entity, component, other);
                    }
                    if one_entry_per_entity(before) {
                        assert forall|component: C| #[trigger]
                            one_entry_per_entity(before.update(i as int, (entity, component))) by {
                            lemma_overwrite_keeps_one_entry(before, entity, component);
                        }
                    }
                }
                Some(&mut self.components[i].1)
            },
            None => None,
        }
    }
}

/// Why a call on the registry failed.
#[derive(Debug, Clone, Copy, PartialEq, Eq, Structural)]
pub enum ComponentError {
    /// The component type is registered already; its storage was left alone.
    DuplicateRegistration,
    /// No storage is registered for the component type.
    UnregisteredComponent,
}

/// Whether position `i` is where the first slot under `key` stands.
pub open spec fn is_first_slot(slots: Seq<(TypeId, ErasedStorage)>, key: TypeId, i: int) -> bool {
    &&& 0 <= i < slots.len()
    &&& slots[i].0 == key
    &&& forall|j: int| 0 <= j < i ==> (#[trigger] slots[j]).0 != key
}

/// The position of the first slot under `key`, if any slot is under it.
pub open spec fn slot_of(slots: Seq<(TypeId, ErasedStorage)>, key: TypeId) -> Option<int> {
    if exists|i: int| is_first_slot(slots, key, i) {
        Some(choose|i: int| is_first_slot(slots, key, i))
    } else {
        None
    }
}

/// The slots as a map from identifier to storage.
pub open spec fn slots_as_map(slots: Seq<(TypeId, ErasedStorage)>) -> Map<TypeId, ErasedStorage> {
    Map::new(
        |key: TypeId| slot_of(slots, key) is Some,
        |key: TypeId| slots[slot_of(slots, key).unwrap()].1,
    )
}

/// A key has at most one first slot: where `i` is one, it is `slot_of`.
proof fn lemma_slot_found(slots: Seq<(TypeId, ErasedStorage)>, key: TypeId, i: int)
    requires
        is_first_slot(slots, key, i),
    ensures
        slot_of(slots, key) == Some(i),
{
    let chosen = choose|i: int| is_first_slot(slots, key, i);
    assert(is_first_slot(slots, key, chosen));
    if chosen < i {
        assert(slots[chosen].0 != key);
    }
    if i < chosen {
        assert(slots[i].0 != key);
    }
}

/// A slot appended under a key that has none becomes that key's slot; every
/// other key keeps the slot it had.
proof fn lemma_slot_appended(
    slots: Seq<(TypeId, ErasedStorage)>,
    key: TypeId,
    storage: ErasedStorage,
    other: TypeId,
)
    requires
        slot_of(slots, key) is None,
    ensures
        slot_of(slots.push((key, storage)), key) == Some(slots.len() as int),
        other != key ==> slot_of(slots.push((key, storage)), other) == slot_of(slots, other),
{
    let after = slots.push((key, storage));
    assert forall|j: int| 0 <= j < slots.len() implies (#[trigger] after[j]).0 != key by {
        assert(after[j] == slots[j]);
        if slots[j].0 == key {
            lemma_least_slot(slots, key, j);
        }
    }
    lemma_slot_found(after, key, slots.len() as int);
    if other != key {
        lemma_same_keys_same_slot(slots, after, other);
    }
}

/// Below or at any position under `key` stands a first slot under it.
proof fn lemma_least_slot(slots: Seq<(TypeId, ErasedStorage)>, key: TypeId, at: int)
    requires
        0 <= at < slots.len(),
        slots[at].0 == key,
    ensures
        exists|i: int| is_first_slot(slots, key, i),
    decreases at,
{
    if exists|j: int| 0 <= j < at && (#[trigger] slots[j]).0 == key {
        let j = choose|j: int| 0 <= j < at && (#[trigger] slots[j]).0 == key;
        lemma_least_slot(slots, key, j);
    } else {
        assert(is_first_slot(slots, key, at));
    }
}

/// Where `after` has the keys of `before` at the positions of `before`, and
/// beyond them no slot under `key`, `key` has the same slot in both.
proof fn lemma_same_keys_same_slot(
    before: Seq<(TypeId, ErasedStorage)>,
    after: Seq<(TypeId, ErasedStorage)>,
    key: TypeId,
)
    requires
        before.len() <= after.len(),
        forall|j: int| 0 <= j < before.len() ==> (#[trigger] after[j]).0 == before[j].0,
        forall|j: int| before.len() <= j < after.len() ==> (#[trigger] after[j]).0 != key,
    ensures
        slot_of(after, key) == slot_of(before, key),
{
    if exists|i: int| is_first_slot(before, key, i) {
        let i = choose|i: int| is_first_slot(before, key, i);
        assert(is_first_slot(after, key, i)) by {
            assert(after[i].0 == before[i].0);
            assert forall|j: int| 0 <= j < i implies (#[trigger] after[j]).0 != key by {
                assert(after[j].0 == before[j].0);
            }
        }
        lemma_slot_found(after, key, i);
    } else {
        if exists|i: int| is_first_slot(after, key, i) {
            let i = choose|i: int| is_first_slot(after, key, i);
            assert(i < before.len());
            assert(after[i].0 == before[i].0);
            assert(is_first_slot(before, key, i)) by {
                assert forall|j: int| 0 <= j < i implies (#[trigger] before[j]).0 != key by {
                    assert(after[j].0 == before[j].0);
                }
            }
        }
    }
}

/// The registry: one type-erased storage per registered component type,
/// found by the type's identifier.
pub struct ComponentManager {
    slots: Vec<(TypeId, ErasedStorage)>,
}

impl View for ComponentManager {
    type V = Map<TypeId, ErasedStorage>;

    /// The registry as a map from a component type's identifier to the
    /// storage registered for it.
    closed spec fn view(&self) -> Map<TypeId, ErasedStorage> {
        slots_as_map(self.slots@)
    }
}

impl ComponentManager {
    /// No identifier stands in two slots. `new` makes it so and every method
    /// keeps it so.
    pub closed spec fn one_storage_per_type(&self) -> bool {
        forall|i: int, j: int|
            0 <= i < j < self.slots@.len() ==> (#[trigger] self.slots@[i]).0 != (
            #[trigger] self.slots@[j]).0
    }

    /// An empty registry.
    pub fn new() -> (manager: Self)
        ensures
            manager@ =~= Map::<TypeId, ErasedStorage>::empty(),
            manager.one_storage_per_type(),
    {
        Self { slots: Vec::new() }
    }

    /// The position of the slot under `key`.
    fn position(&self, key: &TypeId) -> (found: Option<usize>)
        ensures
            match found {
                Some(i) => is_first_slot(self.slots@, *key, i as int),
                None => slot_of(self.slots@, *key) is None,
            },
    {
        let mut i: usize = 0;
        while i < self.slots.len()
            invariant
                i <= self.slots.len(),
                forall|j: int| 0 <= j < i ==> (#[trigger] self.slots@[j]).0 != *key,
            decreases self.slots.len() - i,
        {
            if same_key(&self.slots[i].0, key) {
                return Some(i);
            }
            i += 1;
        }
        None
    }

    /// Whether a storage is registered under `key`.
    pub fn is_registered(&self, key: &TypeId) -> (registered: bool)
        ensures
            registered == self@.contains_key(*key),
    {
        match self.position(key) {
            Some(i) => {
                proof {
                    lemma_slot_found(self.slots@, *key, i as int);
                }
                true
            },
            None => false,
        }
    }

    /// The storage registered under `key`.
    pub fn storage(&self, key: &TypeId) -> (found: Option<&ErasedStorage>)
        ensures
            match found {
                Some(storage) => self@.contains_key(*key) && *storage == self@[*key],
                None => !self@.contains_key(*key),
            },
    {
        match self.position(key) {
            Some(i) => {
                proof {
                    lemma_slot_found(self.slots@, *key, i as int);
                }
                Some(&self.slots[i].1)
            },
            None => None,
        }
    }

    /// The storage registered under `key`, for writing. What the caller
    /// leaves in it is what the registry holds under `key` afterwards;
    /// nothing else changes.
    pub fn storage_mut(&mut self, key: &TypeId) -> (found: Option<&mut ErasedStorage>)
        ensures
            match found {
                Some(storage) => {
                    &&& old(self)@.contains_key(*key)
                    &&& *storage == old(self)@[*key]
                    &&& final(self)@ =~= old(self)@.insert(*key, *final(storage))
                },
                None => !old(self)@.contains_key(*key) && final(self)@ =~= old(self)@,
            },
            old(self).one_storage_per_type() ==> final(self).one_storage_per_type(),
    {
        match self.position(key) {
            Some(i) => {
                proof {
                    let before = self.slots@;
                    lemma_slot_found(before, *key, i as int);
                    assert forall|storage: ErasedStorage, other: TypeId|
                        slot_of(#[trigger] before.update(i as int, (*key, storage)), other)
                            == #[trigger] slot_of(before, other) by {
                        lemma_same_keys_same_slot(
                            before,
                            before.update(i as int, (*key, storage)),
                            other,
                        );
                    }
                }
                Some(&mut self.slots[i].1)
            },
            None => None,
        }
    }

    /// Registers `storage` under `key`, unless a storage is registered under
    /// `key` already: then the registry is left as it was.
    pub fn register_storage(&mut self, key: TypeId, storage: ErasedStorage) -> (outcome: Result<
        (),
        ComponentError,
    >)
        ensures
            match outcome {
                Ok(()) => {
                    &&& !old(self)@.contains_key(key)
                    &&& final(self)@ =~= old(self)@.insert(key, storage)
                },
                Err(error) => {
                    &&& error == ComponentError::DuplicateRegistration
                    &&& old(self)@.contains_key(key)
                    &&& final(self)@ =~= old(self)@
                },
            },
            old(self).one_storage_per_type() ==> final(self).one_storage_per_type(),
    {
        match self.position(&key) {
            Some(i) => {
                proof {
                    lemma_slot_found(self.slots@, key, i as int);
                }
                Err(ComponentError::DuplicateRegistration)
            },
            None => {
                proof {
                    let before = self.slots@;
                    assert forall|other: TypeId|
                        slot_of(before.push((key, storage)), other) == (if other == key {
                            Some(before.len() as int)
                        } else {
                            #[trigger] slot_of(before, other)
                        }) by {
                        lemma_slot_appended(before, key, storage, other);
                    }
                    assert forall|j: int| 0 <= j < before.len() implies (#[trigger] before[j]).0
                        != key by {
                        if before[j].0 == key {
                            lemma_least_slot(before, key, j);
                        }
                    }
                }
                self.slots.push((key, storage));
                Ok(())
            },
        }
    }
    /// Registers an empty storage for the component type `C`. `S` is the
    /// kind of storage that `C` names.
    ///
    /// Fails with `DuplicateRegistration`, and leaves the registry as it was,
    /// where `C` is registered already. The slot is found by `C`'s
    /// identifier, which no contract can name: what is stated holds whatever
    /// that identifier is, and `register_storage` states the rest for a given
    /// one.
    pub fn register<C: Component<Storage = S> + 'static, S: ComponentStorage<C> + 'static>(
        &mut self,
    ) -> (outcome:
        Result<(), ComponentError>)
        ensures
            match outcome {
                Ok(()) => exists|key: TypeId, storage: ErasedStorage|
                    {
                        &&& !old(self)@.contains_key(key)
                        &&& #[trigger] old(self)@.insert(key, storage) =~= final(self)@
                    },
                Err(error) => {
                    &&& error == ComponentError::DuplicateRegistration
                    &&& final(self)@ =~= old(self)@
                    &&& exists|key: TypeId| #[trigger] old(self)@.contains_key(key)
                },
            },
            old(self).one_storage_per_type() ==> final(self).one_storage_per_type(),
    {
        let key = type_key::<C>();
        let storage = erase(S::new());
        self.register_storage(key, storage)
    }

    /// The component of `entity`, of type `C`.
    ///
    /// Fails with `UnregisteredComponent` where no storage of `C`'s kind is
    /// registered for `C`; with nothing registered at all it always does.
    /// Which storage is found for `C` no contract can name: `get_from` states
    /// what is returned for each storage that may be found.
    pub fn get<C: Component + 'static>(&self, entity: EntityId) -> (outcome: Result<
        Option<&C>,
        ComponentError,
    >)
        ensures
            outcome matches Err(error) ==> error == ComponentError::UnregisteredComponent,
            (forall|key: TypeId| !self@.contains_key(key)) ==> outcome is Err,
    {
        let key = type_key::<C>();
        let storage = match self.storage(&key) {
            Some(erased) => typed_ref::<C::Storage>(erased),
            None => None,
        };
        get_from(storage, entity)
    }

    /// The component of `entity`, of type `C`, for writing.
    ///
    /// Fails with `UnregisteredComponent`, and leaves the registry as it was,
    /// where no storage of `C`'s kind is registered for `C`. Otherwise at
    /// most the storage of one component type changes. `get_mut_from` states
    /// what is returned, and what changes, for each storage that may be
    /// found.
    pub fn get_mut<C: Component + 'static>(&mut self, entity: EntityId) -> (outcome: Result<
        Option<&mut C>,
        ComponentError,
    >)
        ensures
            final(self)@.dom() =~= old(self)@.dom(),
            outcome matches Err(error) ==> error == ComponentError::UnregisteredComponent
                && final(self)@ =~= old(self)@,
            (forall|key: TypeId| !old(self)@.contains_key(key)) ==> outcome is Err,
            exists|key: TypeId| #[trigger] old(self)@.remove(key) =~= final(self)@.remove(key),
            old(self).one_storage_per_type() ==> final(self).one_storage_per_type(),
    {
        let key = type_key::<C>();
        proof {
            let rest = self@.remove(key);
            assert forall|storage: ErasedStorage| #[trigger]
                self@.insert(key, storage).remove(key) == rest by {
                assert(self@.insert(key, storage).remove(key) =~= rest);
            }
        }
        let storage = match self.storage_mut(&key) {
            Some(erased) => typed_mut::<C::Storage>(erased),
            None => None,
        };
        get_mut_from(storage, entity)
    }

    /// Gives `entity` the component `component`.
    ///
    /// Fails with `UnregisteredComponent`, and leaves the registry as it was,
    /// where no storage of `C`'s kind is registered for `C`. Otherwise at
    /// most the storage of one component type changes. `insert_into` states
    /// what changes in each storage that may be found.
    pub fn insert_component<C: Component + 'static>(
        &mut self,
        entity: EntityId,
        component: C,
    ) -> (outcome: Result<(), ComponentError>)
        ensures
            final(self)@.dom() =~= old(self)@.dom(),
            outcome matches Err(error) ==> error == ComponentError::UnregisteredComponent
                && final(self)@ =~= old(self)@,
            (forall|key: TypeId| !old(self)@.contains_key(key)) ==> outcome is Err,
            exists|key: TypeId| #[trigger] old(self)@.remove(key) =~= final(self)@.remove(key),
            old(self).one_storage_per_type() ==> final(self).one_storage_per_type(),
    {
        let key = type_key::<C>();
        let storage = match self.storage_mut(&key) {
            Some(erased) => typed_mut::<C::Storage>(erased),
            None => None,
        };
        let outcome = insert_into(storage, entity, component);
        proof {
            assert(old(self)@.remove(key) =~= self@.remove(key));
        }
        outcome
    }
}

/// Looks `entity` up in the storage found for a component type: the
/// component of its first entry, or nothing where it has none. With no
/// storage found, the component type is unregistered.
pub fn get_from<'a, C, S: ComponentStorage<C>>(storage: Option<&'a S>, entity: EntityId) -> (outcome:
    Result<Option<&'a C>, ComponentError>)
    ensures
        match storage {
            Some(storage) => match outcome {
                Ok(Some(component)) => first_component(storage.entries(), entity) == Some(
                    *component,
                ),
                Ok(None) => first_component(storage.entries(), entity) is None,
                Err(_) => false,
            },
            None => outcome == Err::<Option<&C>, ComponentError>(
                ComponentError::UnregisteredComponent,
            ),
        },
{
    match storage {
        Some(storage) => Ok(storage.get(entity)),
        None => Err(ComponentError::UnregisteredComponent),
    }
}

/// Looks `entity` up, for writing, in the storage found for a component
/// type. What the caller leaves in the component found is what the first
/// entry for `entity` holds afterwards; nothing else in the storage changes.
/// With no storage found, the component type is unregistered.
pub fn get_mut_from<'a, C, S: ComponentStorage<C>>(
    storage: Option<&'a mut S>,
    entity: EntityId,
) -> (outcome: Result<Option<&'a mut C>, ComponentError>)
    ensures
        match storage {
            Some(storage) => match outcome {
                Ok(Some(component)) => {
                    &&& holds(storage.entries(), entity)
                    &&& Some(*component) == first_component(storage.entries(), entity)
                    &&& final(storage).entries() =~= storage.entries().update(
                        first_position(storage.entries(), entity),
                        (entity, *final(component)),
                    )
                    &&& first_component(final(storage).entries(), entity) == Some(
                        *final(component),
                    )
                    &&& one_entry_per_entity(storage.entries()) ==> one_entry_per_entity(
                        final(storage).entries(),
                    )
                },
                Ok(None) => {
                    &&& !holds(storage.entries(), entity)
                    &&& final(storage).entries() =~= storage.entries()
                },
                Err(_) => false,
            },
            None => outcome matches Err(error) && error == ComponentError::UnregisteredComponent,
        },
{
    match storage {
        Some(storage) => Ok(storage.get_mut(entity)),
        None => Err(ComponentError::UnregisteredComponent),
    }
}

/// Gives `entity` the component `component` in the storage found for a
/// component type; the last insert wins. With no storage found, the
/// component type is unregistered and the component is dropped.
pub fn insert_into<C, S: ComponentStorage<C>>(
    storage: Option<&mut S>,
    entity: EntityId,
    component: C,
) -> (outcome: Result<(), ComponentError>)
    ensures
        match storage {
            Some(storage) => {
                &&& outcome is Ok
                &&& final(storage).entries() =~= (if holds(storage.entries(), entity) {
                    storage.entries().update(
                        first_position(storage.entries(), entity),
                        (entity, component),
                    )
                } else {
                    storage.entries().push((entity, component))
                })
                &&& first_component(final(storage).entries(), entity) == Some(component)
                &&& forall|other: EntityId|
                    other != entity ==> #[trigger] first_component(
                        final(storage).entries(),
                        other,
                    ) == first_component(storage.entries(), other)
                &&& one_entry_per_entity(storage.entries()) ==> one_entry_per_entity(
                    final(storage).entries(),
                )
            },
            None => outcome == Err::<(), ComponentError>(ComponentError::UnregisteredComponent),
        },
{
    match storage {
        Some(storage) => {
            storage.insert(entity, component);
            Ok(())
        },
        None => Err(ComponentError::UnregisteredComponent),
    }
}

} // verus!
