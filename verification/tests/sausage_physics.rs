use benchmark_games::sausage::model::{Coord, Direction, Entity, EntityType};
use benchmark_games::sausage::physics::{
    can_roll, occupancy_for, try_rotate, Animation, Fraction, Movement, MovementKind, Occupancy,
};

fn sausage() -> Entity {
    Entity::parse("3,4,0,3,42,3,M;;,-1,0,0,0,8,0,0,0,").expect("valid sausage")
}

#[test]
fn fractions_compare_by_value_without_eager_reduction() {
    assert_eq!(Fraction::new(1, 2), Fraction::new(2, 4));
    assert_eq!(
        Fraction::new(1, 2).plus(Fraction::new(1, 3)),
        Fraction::new(5, 6)
    );
    assert!(Fraction::new(3, 4) > Fraction::new(2, 3));
}

#[test]
fn occupancy_allows_a_same_direction_handoff() {
    let leaving = Occupancy::new(Coord::zero(), Direction::East, false, Fraction::zero(), 1);
    let entering = Occupancy::new(Coord::zero(), Direction::East, true, Fraction::zero(), 1);
    assert!(leaving.compatible_with(entering));
    assert!(!leaving.overlaps(entering));
    assert!(leaving.overlaps(Occupancy {
        direction: Direction::West,
        ..entering
    }));
}

#[test]
fn translation_occupancy_tracks_both_sausage_cells() {
    let entity = sausage();
    let movement =
        Movement::translation(&entity, Direction::North, -666, 1, Animation::Idle, true, 0);
    let occupancy = occupancy_for(&entity, Some(movement), true);
    assert_eq!(occupancy.len(), 4);
    assert_eq!(occupancy.iter().filter(|item| item.entering).count(), 2);
    assert_eq!(movement.torsion, -666);
}

#[test]
fn resolving_pivot_moves_anchor_and_changes_direction() {
    let mut entity = sausage();
    let movement = Movement::pivot(
        &entity,
        Direction::East,
        Direction::North,
        Direction::NorthEast,
        Animation::TurnIn,
        1,
    );
    movement.resolve(&mut entity);
    assert_eq!(entity.pos, Coord::new(4, 4, 0));
    assert_eq!(entity.direction, Direction::NorthEast);
}

#[test]
fn reduction_starts_above_ten_thousand() {
    let small = Fraction::new(2, 4);
    assert_eq!((small.numerator, small.denominator), (2, 4));
    let large = Fraction::new(20_000, 40_000);
    assert_eq!((large.numerator, large.denominator), (1, 2));
    let negative = Fraction::new(3, -6);
    assert_eq!((negative.numerator, negative.denominator), (-3, 6));
    let inverse = Fraction::new(2, 3).inverse();
    assert_eq!((inverse.numerator, inverse.denominator), (3, 2));
    assert_eq!(Fraction::from_i32(7), Fraction::new(14, 2));
}

#[test]
fn fraction_arithmetic_is_exact() {
    let half = Fraction::new(1, 2);
    let third = Fraction::new(1, 3);
    assert_eq!(half.minus(third), Fraction::new(1, 6));
    assert_eq!(half.times(third), Fraction::new(1, 6));
    assert_eq!(half.divided_by(third), Fraction::new(3, 2));
    assert!(third < half);
    assert!(half.at_most(half));
    assert!(!half.less_than(half));
    assert_eq!(Fraction::one().minus(Fraction::one()), Fraction::zero());
}

#[test]
fn durations_halve_with_each_speed_step() {
    let entity = sausage();
    let slow = Movement::fixed(&entity, 1);
    assert_eq!((slow.remaining.numerator, slow.remaining.denominator), (1, 1));
    assert!(slow.starting());
    assert!(!slow.done());
    let fast = Movement::fixed(&entity, 4);
    assert_eq!((fast.remaining.numerator, fast.remaining.denominator), (1, 8));
    let fastest = Movement::fixed(&entity, 32);
    assert_eq!(
        (fastest.remaining.numerator, fastest.remaining.denominator),
        (-1, 2_147_483_648)
    );
    assert!(fastest.starting());
}

#[test]
fn ticking_the_whole_duration_finishes_a_movement() {
    let entity = sausage();
    let mut movement = Movement::rotation(
        &entity,
        Direction::East,
        Direction::North,
        Animation::TurnOut,
        2,
    );
    assert_eq!(movement.position(), Fraction::zero());
    movement.tick(Fraction::new(1, 4));
    assert!(!movement.done());
    assert!(!movement.starting());
    assert_eq!(movement.position(), Fraction::new(1, 2));
    movement.tick(Fraction::new(1, 4));
    assert!(movement.done());
    assert_eq!(movement.position(), Fraction::one());
    movement.set_speed(3);
    assert!(movement.starting());
    assert_eq!(movement.speed, 3);
}

#[test]
fn effective_direction_follows_the_movement_kind() {
    let entity = sausage();
    let rotation = Movement::rotation(
        &entity,
        Direction::North,
        Direction::NorthEast,
        Animation::TurnOut,
        1,
    );
    assert_eq!(rotation.kind, MovementKind::Rotation);
    assert_eq!(rotation.effective_direction(), Direction::East);
    assert_eq!(rotation.tower_level, -1);
    let fixed = Movement::fixed(&entity, 1);
    assert_eq!(fixed.effective_direction(), Direction::NoDirection);
    assert_eq!(fixed.animation, Animation::Fixed);
    let step = Movement::translation(&entity, Direction::East, 5, 1, Animation::Idle, false, 2);
    assert_eq!(step.effective_direction(), Direction::East);
    assert_eq!(step.torsion, 0);
}

#[test]
fn resolving_translation_and_rotation() {
    let mut entity = sausage();
    Movement::translation(&entity, Direction::South, 0, 1, Animation::Idle, false, 0)
        .resolve(&mut entity);
    assert_eq!(entity.pos, Coord::new(3, 5, 0));
    Movement::rotation(&entity, Direction::East, Direction::North, Animation::TurnOut, 1)
        .resolve(&mut entity);
    assert_eq!(entity.direction, Direction::North);
    assert_eq!(entity.pos, Coord::new(3, 5, 0));
    Movement::fixed(&entity, 1).resolve(&mut entity);
    assert_eq!(entity.pos, Coord::new(3, 5, 0));
}

#[test]
fn static_entities_claim_their_cells() {
    let entity = sausage();
    let claims = occupancy_for(&entity, None, false);
    assert_eq!(claims.len(), 2);
    assert!(claims.iter().all(|claim| claim.speed == 0 && claim.entering));
    assert!(claims[0].overlaps(claims[0]));
    let fixed = Movement::fixed(&entity, 1);
    assert_eq!(occupancy_for(&entity, Some(fixed), false), claims);
}

#[test]
fn rotation_claims_sweep_three_cells() {
    let entity = sausage();
    let rotation = Movement::rotation(
        &entity,
        Direction::East,
        Direction::NorthEast,
        Animation::TurnOut,
        1,
    );
    let claims = occupancy_for(&entity, Some(rotation), false);
    assert_eq!(claims.len(), 3);
    assert_eq!(claims[0].pos, Coord::new(3, 4, 0));
    assert_eq!(claims[1].pos, Coord::new(4, 4, 0));
    assert_eq!(claims[2].pos, Coord::new(4, 3, 0));
    assert!(claims[2].entering);
    assert!(!claims[1].entering);
    assert_eq!(claims[1].direction, Direction::North);
    assert!(claims[0].is_rotating());
}

#[test]
fn pivot_claims_follow_the_turn_shape() {
    let entity = sausage();
    let turn_in = Movement::pivot(
        &entity,
        Direction::East,
        Direction::North,
        Direction::NorthEast,
        Animation::TurnIn,
        1,
    );
    let claims = occupancy_for(&entity, Some(turn_in), false);
    assert_eq!(claims.len(), 4);
    assert_eq!(claims[2].pos, Coord::new(4, 3, 0));
    assert_eq!(claims[2].speed, 2);
    let straight = Movement::pivot(
        &entity,
        Direction::East,
        Direction::West,
        Direction::East,
        Animation::PivotOut,
        1,
    );
    let claims = occupancy_for(&entity, Some(straight), false);
    assert_eq!(claims.len(), 5);
    let player = Entity::parse("1,1,0,2,1,0,,-1,0,0,0,8,0,0,0,").unwrap();
    let single = Movement::pivot(
        &player,
        Direction::East,
        Direction::West,
        Direction::East,
        Animation::PivotOut,
        1,
    );
    assert_eq!(occupancy_for(&player, Some(single), false).len(), 1);
}

#[test]
fn rolling_flips_unless_pushed_along_the_axis() {
    let mut entity = sausage();
    try_rotate(&mut entity, Direction::West);
    assert_eq!(entity.rotation, 0);
    try_rotate(&mut entity, Direction::North);
    assert_eq!(entity.rotation, 1);
    try_rotate(&mut entity, Direction::South);
    assert_eq!(entity.rotation, 0);
    assert!(can_roll(EntityType::Sausage));
    assert!(!can_roll(EntityType::Player));
}
