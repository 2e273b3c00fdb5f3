use tecs::world::components::ComponentError;
use tecs::world::components::ComponentManager;
use tecs::world::components::DenseVecStorage;
use tecs::world::entities::EntityBuilder;
use tecs::world::entities::EntityManager;
use tecs::world::World;

#[test]
fn entity_builder() {
    let mut world = World::new();

    world.register::<u32>().unwrap();

    let mut first_builder = EntityBuilder::new(&mut world);
    first_builder.with(1u32).unwrap();
    assert!(first_builder.id() == 0);

    drop(first_builder);

    let mut second_builder = EntityBuilder::new(&mut world);
    second_builder.with(2u32).unwrap();
    println!("{}", second_builder.id());
}

#[test]
fn builders_take_consecutive_ids() {
    let mut world = World::new();
    world.register::<u32>().unwrap();
    let first = EntityBuilder::new(&mut world).id();
    let second = EntityBuilder::new(&mut world).id();
    let third = world.spawn_entity().id();
    assert_eq!((first, second, third), (0, 1, 2));
}

#[test]
fn builder_attaches_to_its_own_entity() {
    let mut world = World::new();
    world.register::<u32>().unwrap();
    let first = world.spawn_entity().with(10u32).unwrap().id();
    let second = world.spawn_entity().with(20u32).unwrap().id();
    assert_eq!(world.get::<u32>(first), Ok(Some(&10)));
    assert_eq!(world.get::<u32>(second), Ok(Some(&20)));
}

#[test]
fn builder_s_last_component_of_a_type_wins() {
    let mut world = World::new();
    world.register::<u32>().unwrap();
    let entity = world
        .spawn_entity()
        .with(10u32)
        .unwrap()
        .with(11u32)
        .unwrap()
        .id();
    assert_eq!(world.get::<u32>(entity), Ok(Some(&11)));
}

#[test]
fn builder_reports_an_unregistered_component() {
    let mut world = World::new();
    let mut builder = world.spawn_entity();
    assert!(matches!(
        builder.with(1u32),
        Err(ComponentError::UnregisteredComponent)
    ));
    assert_eq!(builder.id(), 0);
}

#[test]
fn fresh_ids_count_up_from_zero() {
    let mut manager = EntityManager::new();
    let ids: Vec<u32> = (0..5).map(|_| manager.next_id()).collect();
    assert_eq!(ids, vec![0, 1, 2, 3, 4]);
}

#[test]
fn released_id_is_issued_next() {
    let mut manager = EntityManager::new();
    let a = manager.next_id();
    let b = manager.next_id();
    let c = manager.next_id();
    assert_eq!((a, b, c), (0, 1, 2));
    manager.delete(b);
    assert_eq!(manager.next_id(), 1);
    assert_eq!(manager.next_id(), 3);
}

#[test]
fn released_ids_come_back_last_released_first() {
    let mut manager = EntityManager::new();
    for _ in 0..4 {
        manager.next_id();
    }
    manager.delete(0);
    manager.delete(2);
    manager.delete(1);
    assert_eq!(manager.next_id(), 1);
    assert_eq!(manager.next_id(), 2);
    assert_eq!(manager.next_id(), 0);
    assert_eq!(manager.next_id(), 4);
}

#[test]
fn new_allocator_can_allocate() {
    let mut manager = EntityManager::new();
    assert!(manager.can_allocate());
    manager.next_id();
    assert!(manager.can_allocate());
}

#[test]
fn reissued_id_sees_the_components_of_its_former_holder() {
    let mut entities = EntityManager::new();
    let mut components = ComponentManager::new();
    components.register::<u32, DenseVecStorage<u32>>().unwrap();
    let first = entities.next_id();
    components.insert_component(first, 41u32).unwrap();
    entities.delete(first);
    let second = entities.next_id();
    assert_eq!(second, first);
    assert_eq!(components.get::<u32>(second), Ok(Some(&41)));
}
