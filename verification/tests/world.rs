use tecs::prelude::Component;
use tecs::prelude::ComponentError;
use tecs::prelude::DenseVecStorage;
use tecs::prelude::World;

#[derive(Debug, PartialEq)]
struct Position {
    x: f32,
    y: f32,
}

#[derive(Debug, PartialEq)]
struct Velocity {
    x: f32,
    y: f32,
}

impl Component for Position {
    type Storage = DenseVecStorage<Self>;
}

impl Component for Velocity {
    type Storage = DenseVecStorage<Self>;
}

#[test]
fn world() {
    let mut world = World::new();

    world.register::<Position>().unwrap();
    world.register::<Velocity>().unwrap();

    let player = world
        .spawn_entity()
        .with(Position { x: 0.0, y: 0.0 })
        .unwrap()
        .with(Velocity { x: 1.0, y: 1.0 })
        .unwrap()
        .id();

    let position = world.get::<Position>(player).unwrap().unwrap();
    let velocity = world.get::<Velocity>(player).unwrap().unwrap();

    assert_eq!(position, &Position { x: 0.0, y: 0.0 });
    assert_eq!(velocity, &Velocity { x: 1.0, y: 1.0 });
}

#[test]
fn never_spawned_entity_has_no_component() {
    let mut world = World::new();
    world.register::<Position>().unwrap();
    world.register::<Velocity>().unwrap();
    let player = world
        .spawn_entity()
        .with(Position { x: 0.0, y: 0.0 })
        .unwrap()
        .with(Velocity { x: 1.0, y: 1.0 })
        .unwrap()
        .id();
    assert_eq!(
        world.get::<Position>(player),
        Ok(Some(&Position { x: 0.0, y: 0.0 }))
    );
    assert_eq!(
        world.get::<Velocity>(player),
        Ok(Some(&Velocity { x: 1.0, y: 1.0 }))
    );
    assert_eq!(world.get::<Position>(player + 1), Ok(None));
}

#[test]
fn entity_without_the_component_has_no_value() {
    let mut world = World::new();
    world.register::<Position>().unwrap();
    world.register::<Velocity>().unwrap();
    let still = world
        .spawn_entity()
        .with(Position { x: 2.0, y: 3.0 })
        .unwrap()
        .id();
    assert_eq!(world.get::<Velocity>(still), Ok(None));
}

#[test]
fn world_get_of_an_unregistered_type_is_an_error() {
    let mut world = World::new();
    assert_eq!(
        world.get::<Position>(0),
        Err(ComponentError::UnregisteredComponent)
    );
    world.register::<Velocity>().unwrap();
    assert_eq!(
        world.get::<Position>(0),
        Err(ComponentError::UnregisteredComponent)
    );
}

#[test]
fn world_refuses_a_second_registration() {
    let mut world = World::new();
    world.register::<Position>().unwrap();
    let entity = world
        .spawn_entity()
        .with(Position { x: 5.0, y: 6.0 })
        .unwrap()
        .id();
    assert_eq!(
        world.register::<Position>(),
        Err(ComponentError::DuplicateRegistration)
    );
    assert_eq!(
        world.get::<Position>(entity),
        Ok(Some(&Position { x: 5.0, y: 6.0 }))
    );
}

#[test]
fn spawned_ids_are_strictly_increasing() {
    let mut world = World::new();
    let mut last = world.spawn_entity().id();
    assert_eq!(last, 0);
    for _ in 0..100 {
        assert!(world.can_spawn());
        let next = world.spawn_entity().id();
        assert!(next > last);
        last = next;
    }
    assert_eq!(last, 100);
}
