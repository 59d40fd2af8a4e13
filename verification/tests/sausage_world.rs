use benchmark_games::sausage::campaign::Campaign;
use benchmark_games::sausage::model::{Coord, Direction, Entity, GameState};
use benchmark_games::sausage::physics::{Animation, Movement};
use benchmark_games::sausage::world::PhysicsWorld;

const PLAYER: &str = "1,1,0,2,1,0,,-1,0,0,0,8,0,0,0,";
const SAUSAGE_A: &str = "3,4,0,3,10,3,M;;,-1,0,0,0,8,0,0,0,";
const SAUSAGE_B: &str = "3,5,0,3,11,3,M;;,-1,0,0,0,8,0,0,0,";
const ISLAND: &str = "0,0,-3,8,20,8,rock,-1,0,0,0,8,0,0,0,";

fn put_int(out: &mut Vec<u8>, value: i32) {
    out.extend_from_slice(&value.to_le_bytes());
}

fn text(out: &mut Vec<u8>, value: &str) {
    assert!(value.len() < 128);
    out.push(value.len() as u8);
    out.extend_from_slice(value.as_bytes());
}

/// A campaign holding one 2 x 1 x 2 island mask named "rock".
fn campaign() -> Campaign {
    let mut out = Vec::new();
    for _ in 0..4 {
        put_int(&mut out, 0);
    }
    put_int(&mut out, 1);
    text(&mut out, "rock");
    put_int(&mut out, 2);
    put_int(&mut out, 1);
    put_int(&mut out, 2);
    for value in [1, -1, 0, 1] {
        put_int(&mut out, value);
    }
    for _ in 0..3 {
        put_int(&mut out, 0);
    }
    for _ in 0..5 {
        put_int(&mut out, 0);
    }
    text(&mut out, "F");
    put_int(&mut out, 0);
    Campaign::read(&out).expect("valid campaign")
}

fn state() -> GameState {
    GameState::parse(&format!("F|{PLAYER}|{SAUSAGE_A}|{SAUSAGE_B}|{ISLAND}")).expect("valid state")
}

fn entity(world: &PhysicsWorld, id: i32) -> Entity {
    world.entity(id).expect("entity").clone()
}

#[test]
fn worlds_come_from_states_with_one_player_and_unique_ids() {
    let campaign = campaign();
    let world = PhysicsWorld::from_state(&campaign, &state()).expect("world");
    assert_eq!(world.player_id(), 1);
    assert_eq!(world.fork_id(), None);
    assert!(world.player_has_fork());
    assert!(!world.moving());
    assert_eq!(world.entity(10).map(|e| e.pos), Some(Coord::new(3, 4, 0)));
    assert!(world.entity(99).is_none());
    assert_eq!(world.dynamic_entity_ids(), vec![1, 10, 11, 20]);

    let no_player = GameState::parse(&format!("F|{SAUSAGE_A}")).unwrap();
    assert_eq!(
        PhysicsWorld::from_state(&campaign, &no_player).err(),
        Some("state has no player".to_owned())
    );
    let twice = GameState::parse(&format!("F|{PLAYER}|{SAUSAGE_A}|{SAUSAGE_A}")).unwrap();
    assert_eq!(
        PhysicsWorld::from_state(&campaign, &twice).err(),
        Some("state contains duplicate entity id 10".to_owned())
    );
}

#[test]
fn movement_tick_resolves_all_entities_at_the_same_boundary() {
    let campaign = campaign();
    let mut world = PhysicsWorld::from_state(&campaign, &state()).expect("world");
    for id in [11, 10] {
        let target = entity(&world, id);
        world
            .set_movement(Movement::translation(
                &target,
                Direction::North,
                0,
                1,
                Animation::Idle,
                true,
                0,
            ))
            .expect("movement");
    }
    assert!(world.moving());
    assert_eq!(world.next_tick_length().numerator, 1);
    assert_eq!(world.tick().expect("tick"), vec![10, 11]);
    assert_eq!(entity(&world, 10).pos, Coord::new(3, 3, 0));
    assert_eq!(entity(&world, 11).pos, Coord::new(3, 4, 0));
    assert!(!world.moving());
    assert_eq!(world.tick().expect("idle tick"), Vec::<i32>::new());
}

#[test]
fn nested_backups_restore_entities_and_movements() {
    let campaign = campaign();
    let mut world = PhysicsWorld::from_state(&campaign, &state()).expect("world");
    let original = entity(&world, 1);
    world.backup();
    world.backup();
    let movement = Movement::translation(
        &original,
        Direction::North,
        0,
        1,
        Animation::WalkForward,
        true,
        0,
    );
    world.set_movement(movement).expect("movement");
    world.tick().expect("tick");
    assert_ne!(entity(&world, 1), original);
    world.discard_backup().expect("discard");
    world.restore().expect("restore");
    assert_eq!(entity(&world, 1), original);
    assert!(!world.moving());
    assert_eq!(
        world.restore().err(),
        Some("world backup stack is empty".to_owned())
    );
}

#[test]
fn movements_need_a_present_entity_that_is_not_moving() {
    let campaign = campaign();
    let mut world = PhysicsWorld::from_state(&campaign, &state()).expect("world");
    let target = entity(&world, 10);
    let movement = Movement::fixed(&target, 1);
    world.set_movement(movement).expect("first movement");
    assert_eq!(
        world.set_movement(movement).err(),
        Some("entity 10 is already moving".to_owned())
    );
    let mut stranger = target.clone();
    stranger.id = 77;
    assert_eq!(
        world.set_movement(Movement::fixed(&stranger, 1)).err(),
        Some("movement targets unknown entity 77".to_owned())
    );
    assert_eq!(world.clear_movement(10), Some(movement));
    assert_eq!(world.clear_movement(10), None);
}

#[test]
fn island_footprints_use_mask_voxels() {
    let campaign = campaign();
    let world = PhysicsWorld::from_state(&campaign, &state()).expect("world");
    assert_eq!(
        world.source_footprint(20).unwrap(),
        vec![Coord::new(0, 0, -3), Coord::new(0, 0, -2), Coord::new(1, 0, -2)]
    );
    assert_eq!(
        world.lower_footprint(20).unwrap(),
        vec![Coord::new(0, 0, -4), Coord::new(1, 0, -3)]
    );
    assert_eq!(
        world.footprint_bounds(20).unwrap(),
        (Coord::new(0, 0, -3), Coord::new(1, 0, -2))
    );
    assert_eq!(
        world.footprint_bounds(10).unwrap(),
        (Coord::new(3, 4, 0), Coord::new(4, 4, 0))
    );
    assert_eq!(
        world.island_mask_value(20, Coord::new(1, 0, -2)).unwrap(),
        (1, Coord::new(1, 0, 1))
    );
    assert_eq!(
        world.island_mask_value(10, Coord::zero()).err(),
        Some("entity 10 is not an island".to_owned())
    );
    assert_eq!(
        world.source_footprint(5).err(),
        Some("unknown entity id 5".to_owned())
    );
}

#[test]
fn island_translation_keeps_interior_voxels_static() {
    let campaign = campaign();
    let world = PhysicsWorld::from_state(&campaign, &state()).expect("world");
    let footprint = world.source_footprint(20).unwrap();
    let occupancy = world
        .mock_translation_occupancy(20, Direction::East, 1)
        .expect("mock occupancy");
    assert_eq!(occupancy.len(), 5);
    assert!(occupancy.len() < footprint.len() * 2);
    assert!(occupancy.iter().any(|item| item.is_static()));
    assert!(occupancy.iter().any(|item| item.entering && !item.is_static()));
    assert!(occupancy.iter().any(|item| !item.entering && !item.is_static()));
}

#[test]
fn collisions_follow_the_claims() {
    let campaign = campaign();
    let mut world = PhysicsWorld::from_state(&campaign, &state()).expect("world");
    assert!(world.could_translate(10, Direction::North, 1).unwrap());
    assert!(!world.could_translate(10, Direction::South, 1).unwrap());
    let target = entity(&world, 10);
    world
        .set_movement(Movement::translation(&target, Direction::South, 0, 1, Animation::Idle, true, 0))
        .unwrap();
    assert!(world.collides(10, false).unwrap());
    world.clear_movement(10);
    world
        .set_movement(Movement::translation(&target, Direction::North, 0, 1, Animation::Idle, true, 0))
        .unwrap();
    assert!(!world.collides(10, false).unwrap());
    assert_eq!(
        world.collides(11, false).err(),
        Some("entity 11 has no movement to collision-test".to_owned())
    );
    assert_eq!(world.occupancy(10).unwrap().len(), 4);
}

#[test]
fn borders_are_sorted_and_unique() {
    let campaign = campaign();
    let world = PhysicsWorld::from_state(&campaign, &state()).expect("world");
    assert_eq!(
        world.border(10, Direction::North).unwrap(),
        vec![Coord::new(3, 3, 0), Coord::new(4, 3, 0)]
    );
    assert_eq!(world.border(10, Direction::East).unwrap(), vec![Coord::new(5, 4, 0)]);
    assert_eq!(
        world.border(10, Direction::NorthEast).err(),
        Some("invalid border direction NorthEast".to_owned())
    );
    assert_eq!(
        world.border(10, Direction::NoDirection).err(),
        Some("invalid border direction None".to_owned())
    );
}

#[test]
fn entities_at_a_cell_include_destinations_after_the_first_instant() {
    let campaign = campaign();
    let mut world = PhysicsWorld::from_state(&campaign, &state()).expect("world");
    assert_eq!(world.entities_at(Coord::new(3, 4, 0), false).unwrap(), vec![10]);
    assert_eq!(world.entities_at(Coord::new(1, 0, -2), false).unwrap(), vec![20]);
    let target = entity(&world, 10);
    world
        .set_movement(Movement::translation(&target, Direction::North, 0, 1, Animation::Idle, true, 0))
        .unwrap();
    assert!(!world.at(10, Coord::new(3, 3, 0), true).unwrap());
    assert!(world.at(10, Coord::new(3, 3, 0), false).unwrap());
}

#[test]
fn detached_forks_enter_and_leave_the_world() {
    let campaign = campaign();
    let mut world = PhysicsWorld::from_state(&campaign, &state()).expect("world");
    let fork = Entity::parse("2,2,0,7,-1,0,,1,0,0,0,8,0,0,0,").unwrap();
    assert_eq!(world.insert_fork(fork.clone()), Ok(21));
    assert_eq!(world.fork_id(), Some(21));
    assert!(!world.player_has_fork());
    assert_eq!(
        world.insert_fork(fork.clone()).err(),
        Some("world already contains a detached fork".to_owned())
    );
    let removed = world.remove_fork().expect("fork");
    assert_eq!(removed.id, 21);
    assert!(world.entity(21).is_none());
    assert_eq!(
        world.remove_fork().err(),
        Some("world has no detached fork".to_owned())
    );
    let mut clash = fork;
    clash.id = 10;
    assert_eq!(
        world.insert_fork(clash).err(),
        Some("duplicate fork entity id 10".to_owned())
    );
}

#[test]
fn removing_a_detached_fork_gives_back_the_world_before() {
    let campaign = campaign();
    let mut world = PhysicsWorld::from_state(&campaign, &state()).expect("world");
    let before = world.entity_list().clone();
    let fork = Entity::parse("2,2,0,7,-1,0,,1,0,0,0,8,0,0,0,").unwrap();
    let id = world.insert_fork(fork.clone()).expect("inserted");
    let removed = world.remove_fork().expect("removed");
    let mut expected = fork;
    expected.id = id;
    assert_eq!(removed, expected);
    assert_eq!(world.entity_list(), &before);
    assert_eq!(world.fork_id(), None);
    assert!(world.movement(id).is_none());
}

#[test]
fn entities_and_movements_are_edited_in_place() {
    let campaign = campaign();
    let mut world = PhysicsWorld::from_state(&campaign, &state()).expect("world");
    let mut player = world.entity(1).unwrap().clone();
    player.stuck_to = 10;
    assert!(world.replace_entity(player.clone()));
    assert_eq!(world.entity(1), Some(&player));
    let mut stranger = player.clone();
    stranger.id = 99;
    assert!(!world.replace_entity(stranger));
    assert!(world.entity(99).is_none());

    let target = world.entity(10).unwrap().clone();
    let slow = Movement::translation(&target, Direction::East, 0, 2, Animation::Idle, true, 0);
    assert!(!world.replace_movement(slow));
    world.set_movement(Movement::translation(&target, Direction::East, 0, 1, Animation::Idle, true, 0)).unwrap();
    assert!(world.replace_movement(slow));
    assert_eq!(world.movement(10), Some(slow));
}
