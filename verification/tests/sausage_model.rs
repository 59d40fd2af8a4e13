use std::collections::HashSet;

use benchmark_games::sausage::model::{Coord, Direction, Entity, EntityType, GameState};

#[test]
fn parses_original_entity_layout() {
    let entity = Entity::parse("4,3,9,4,0,1,,-1,0,0,0,8,0,0,0,").expect("valid entity");
    assert_eq!(entity.pos, Coord::new(4, 3, 9));
    assert_eq!(entity.entity_type, EntityType::Ladder);
    assert_eq!(entity.direction, Direction::South);
}

#[test]
fn direction_values_match_the_original_binary() {
    assert_eq!(Coord::zero().step(Direction::North), Coord::new(0, -1, 0));
    assert_eq!(Direction::North.inverse(), Direction::South);
    assert!(Direction::East.parallel_to(Direction::West));
}

#[test]
fn direction_rotation_tables_cover_turning_intermediates() {
    assert_eq!(Direction::North.clockwise_90(), Direction::East);
    assert_eq!(Direction::West.clockwise_45(), Direction::SouthEast);
    assert_eq!(Direction::SouthEast.counterclockwise_45(), Direction::West);
    assert_eq!(
        Direction::rotation_between(Direction::North, Direction::East),
        Some(Direction::NorthEast)
    );
    assert_eq!(
        Direction::continue_rotation(Direction::North, Direction::NorthEast),
        Direction::East
    );
    assert!(Direction::North.left_of(Direction::East));
    assert!(!Direction::North.left_of(Direction::West));
}

#[test]
fn sausage_pivot_preserves_cells_and_reverses_endpoint_data() {
    let mut entity =
        Entity::parse("3,4,0,3,42,3,M;left;right,-1,0,0,228,8,0,0,0,").expect("valid sausage");
    let before = entity.footprint(true).into_iter().collect::<HashSet<_>>();
    entity.pivot_in_place();
    assert_eq!(
        entity.footprint(true).into_iter().collect::<HashSet<_>>(),
        before
    );
    assert_eq!(entity.pos, Coord::new(4, 4, 0));
    assert_eq!(entity.direction, Direction::West);
    assert_eq!(entity.data, "M;right;left");
    assert_eq!(entity.pivot, 1);
}

#[test]
fn direction_numbers_round_trip() {
    for value in 0..=10 {
        let direction = Direction::from_i32(value).expect("known direction");
        assert_eq!(direction.value(), value);
    }
    assert_eq!(
        Direction::from_i32(11).unwrap_err(),
        "invalid direction value 11"
    );
    assert!(Direction::from_i32(-1).is_err());
}

#[test]
fn inverse_and_quarter_turns_undo_each_other() {
    for value in 0..=10 {
        let direction = Direction::from_i32(value).unwrap();
        assert_eq!(direction.inverse().inverse(), direction);
        assert_eq!(
            direction.clockwise_45().counterclockwise_45(),
            direction
        );
    }
    for direction in [Direction::North, Direction::East, Direction::South, Direction::West] {
        assert_eq!(direction.rotate_90(true).rotate_90(false), direction);
    }
}

#[test]
fn typed_directions_are_trimmed_and_lowercased() {
    assert_eq!(Direction::parse("  North "), Ok(Direction::North));
    assert_eq!(Direction::parse("R"), Ok(Direction::East));
    assert_eq!(Direction::parse("down"), Ok(Direction::South));
    assert!(Direction::parse("sideways").is_err());
}

#[test]
fn entity_parse_rejects_short_records() {
    assert!(Entity::parse("1,2,3").is_err());
    assert!(Entity::parse("a,2,3,4,0,1,,-1,0,0,0,8,0,0,0,").is_err());
}

#[test]
fn footprint_of_a_sausage_spans_two_cells() {
    let sausage = Entity::parse("3,4,0,3,42,3,M;;,-1,0,0,0,8,0,0,0,").unwrap();
    assert_eq!(
        sausage.footprint(false),
        vec![Coord::new(3, 4, 0), Coord::new(4, 4, 0)]
    );
    assert_eq!(
        sausage.lower_footprint(false),
        vec![Coord::new(3, 4, -1), Coord::new(4, 4, -1)]
    );
    assert_eq!(sausage.border(Direction::East, false), vec![Coord::new(5, 4, 0)]);
    let ladder = Entity::parse("4,3,9,4,0,1,,-1,0,0,0,8,0,0,0,").unwrap();
    assert_eq!(ladder.footprint(true), vec![Coord::new(4, 3, 9)]);
}

#[test]
fn pivoting_twice_restores_the_sausage() {
    let original = Entity::parse("3,4,0,3,42,3,M;left;right,-1,0,0,228,8,0,0,0,").unwrap();
    let mut entity = original.clone();
    entity.pivot_in_place();
    assert_eq!(entity.cook_data, 27);
    entity.pivot_in_place();
    assert_eq!(entity, original);
}

#[test]
fn game_state_lists_player_fork_and_sausages() {
    let state = GameState::parse(
        "Ilevel_a|1,1,0,2,1,0,,-1,0,0,0,8,0,0,0,|3,4,0,3,42,3,M;;,-1,0,0,0,8,0,0,0,|5,5,0,7,7,0,,-1,0,0,0,8,0,0,0,*done_a,done_b**3*Name*2*",
    )
    .expect("valid state");
    assert!(!state.overworld);
    assert_eq!(state.push_target_level, "level_a");
    assert_eq!(state.entities.len(), 3);
    assert_eq!(state.player().map(|player| player.id), Some(1));
    assert_eq!(state.fork().map(|fork| fork.id), Some(7));
    assert_eq!(state.sausages().len(), 1);
    assert_eq!(state.level_completed, vec!["done_a".to_owned(), "done_b".to_owned()]);
    assert!(state.world_sausages_issued.is_empty());
    assert_eq!(state.tile_set, 3);
    assert_eq!(state.display_name, "Name");
    assert_eq!(state.sausages_cooked, 2);
    assert_eq!(state.music_seed, 0);
    let cells: HashSet<Coord> = state.occupied_cells().into_iter().collect();
    assert_eq!(cells.len(), 4);
    assert!(cells.contains(&Coord::new(4, 4, 0)));
}

#[test]
fn game_state_rejects_bad_numbers() {
    assert!(GameState::parse("F|1,1,0,2,1,0,,-1,0,0,0,8,0,0,0,*,**x").is_err());
    let overworld = GameState::parse("F|1,1,0,2,1,0,,-1,0,0,0,8,0,0,0,").unwrap();
    assert!(overworld.overworld);
    assert_eq!(overworld.tile_set, 0);
}

#[test]
fn entity_errors_name_the_first_unreadable_field() {
    assert_eq!(
        Entity::parse("1,2,3").unwrap_err(),
        "entity requires at least 15 comma-separated fields, got 3"
    );
    assert_eq!(
        Entity::parse("a,2,3,4,0,1,,-1,0,0,0,8,0,0,0,").unwrap_err(),
        "invalid entity x: invalid digit found in string"
    );
    assert_eq!(
        Entity::parse("1,2,3,12,0,1,,-1,0,0,0,8,0,0,0,").unwrap_err(),
        "invalid entity type 12"
    );
    assert_eq!(
        Entity::parse("1,2,3,4,0,11,,-1,0,0,0,8,0,0,0,").unwrap_err(),
        "invalid direction value 11"
    );
    assert_eq!(
        Entity::parse("1,2,3,4,0,1,,-1,0,,0,8,0,0,0,").unwrap_err(),
        "invalid entity legacy_rotation: cannot parse integer from empty string"
    );
    assert!(Entity::parse("1,2,3,4,0,1,,-1,1,,0,8,0,0,0,").is_ok());
    assert_eq!(
        Entity::parse("1,2,3,4,0,1,,-1,0,0,0,8,0,0,99999999999,").unwrap_err(),
        "invalid entity pivot: number too large to fit in target type"
    );
}
