use benchmark_games::sausage::api::{score_steps, Command, ScoreStep, API_VERSION, MAX_MOVES_PER_REQUEST};
use benchmark_games::sausage::campaign::Campaign;
use benchmark_games::sausage::entries::{puzzle_root, state_file_name, CampaignEntries, CampaignEntry};
use benchmark_games::sausage::game3d::{
    boxes_overlap, cook_face, cook_result, follow_exit, merge_forces, ExitMark, Game3d, InputFallback, InputPlan, PassiveForce,
};
use benchmark_games::sausage::physics::{Animation, Fraction, Movement, MovementKind};
use benchmark_games::sausage::model::{Coord, Direction, Entity, GameState};

const PLAYER: &str = "1,1,0,2,1,0,,-1,0,0,0,8,0,0,0,";
const RAW_SAUSAGE: &str = "3,4,0,3,10,3,M;;,-1,0,0,0,8,0,0,0,";
const COOKED_SAUSAGE: &str = "3,4,0,3,10,3,M;;,-1,0,0,170,8,0,0,0,";
const ISLAND: &str = "0,0,-3,8,20,8,rock,-1,0,0,0,8,0,0,0,";

fn put_int(out: &mut Vec<u8>, value: i32) {
    out.extend_from_slice(&value.to_le_bytes());
}

fn text(out: &mut Vec<u8>, value: &str) {
    assert!(value.len() < 128);
    out.push(value.len() as u8);
    out.extend_from_slice(value.as_bytes());
}

/// A campaign with one 2 x 1 x 2 island mask named "rock", the entry
/// position of the puzzle `entry` and one temple holding it.
fn campaign_with_entry(entry: &str) -> Campaign {
    let mut out = Vec::new();
    put_int(&mut out, 0);
    put_int(&mut out, 0);
    put_int(&mut out, 1);
    text(&mut out, entry);
    for value in [1, 1, 3, 0] {
        put_int(&mut out, value);
    }
    put_int(&mut out, 1);
    text(&mut out, "temple");
    put_int(&mut out, 1);
    text(&mut out, entry);
    put_int(&mut out, 1);
    text(&mut out, "rock");
    put_int(&mut out, 2);
    put_int(&mut out, 1);
    put_int(&mut out, 2);
    for value in [1, -1, 0, 1] {
        put_int(&mut out, value);
    }
    for _ in 0..3 {
        put_int(&mut out, 0);
    }
    for _ in 0..5 {
        put_int(&mut out, 0);
    }
    text(&mut out, "F");
    put_int(&mut out, 0);
    Campaign::read(&out).expect("valid campaign")
}

fn puzzle(records: &[&str]) -> GameState {
    GameState::parse(&format!("Irock|{}", records.join("|"))).expect("valid state")
}

#[test]
fn games_start_at_their_puzzle_exit() {
    let campaign = campaign_with_entry("rock");
    let state = puzzle(&[PLAYER, RAW_SAUSAGE, ISLAND]);
    let game = Game3d::from_state(&campaign, &state).expect("game");
    assert_eq!(game.exit(), (Coord::new(1, 1, 0), Direction::North));
    assert!(!game.won());
    assert!(!game.complete());
    assert!(!game.can_exit());
    assert_eq!(game.world.player_id(), 1);
}

#[test]
fn a_perfectly_cooked_sausage_wins_and_opens_the_exit() {
    let campaign = campaign_with_entry("rock");
    let state = puzzle(&[PLAYER, COOKED_SAUSAGE, ISLAND]);
    let game = Game3d::from_state(&campaign, &state).expect("game");
    assert!(game.won());
    assert!(game.complete());
    assert!(game.can_exit());
}

#[test]
fn sausages_set_aside_or_sunk_decide_the_win() {
    let campaign = campaign_with_entry("rock");
    let set_aside = "3,4,0,3,14,3,S;;,-1,0,0,0,8,0,0,0,";
    let game = Game3d::from_state(&campaign, &puzzle(&[PLAYER, COOKED_SAUSAGE, set_aside, ISLAND])).unwrap();
    assert!(game.won());
    let high = "3,4,9,3,11,3,M;;,-1,0,0,0,8,0,0,0,";
    let game = Game3d::from_state(&campaign, &puzzle(&[PLAYER, COOKED_SAUSAGE, high, ISLAND])).unwrap();
    assert!(game.won());
    let sunk = "3,4,-4,3,12,3,M;;,-1,0,0,170,8,0,0,0,";
    let game = Game3d::from_state(&campaign, &puzzle(&[PLAYER, COOKED_SAUSAGE, sunk, ISLAND])).unwrap();
    assert!(!game.won());
    let burnt = "3,4,0,3,13,3,M;;,-1,0,0,171,8,0,0,0,";
    let game = Game3d::from_state(&campaign, &puzzle(&[PLAYER, burnt, ISLAND])).unwrap();
    assert!(!game.won());
    let game = Game3d::from_state(&campaign, &puzzle(&[PLAYER, set_aside, ISLAND])).unwrap();
    assert!(!game.won());
}

#[test]
fn games_need_a_player_an_entry_and_an_active_island() {
    let campaign = campaign_with_entry("rock");
    assert_eq!(
        Game3d::from_state(&campaign, &puzzle(&[RAW_SAUSAGE, ISLAND])).err(),
        Some("state has no player".to_owned())
    );
    let elsewhere = GameState::parse(&format!("Imoss|{PLAYER}|{ISLAND}")).unwrap();
    assert_eq!(
        Game3d::from_state(&campaign, &elsewhere).err(),
        Some("puzzle \"moss\" has no campaign entry position".to_owned())
    );
    let moss = campaign_with_entry("moss");
    assert_eq!(
        Game3d::from_state(&moss, &elsewhere).err(),
        Some("puzzle \"moss\" has no active island".to_owned())
    );
}

#[test]
fn forces_merge_by_direction() {
    let east = PassiveForce { direction: Direction::East, speed: 2, torsion: 1 };
    let slow_east = PassiveForce { direction: Direction::East, speed: 1, torsion: 0 };
    let west = PassiveForce { direction: Direction::West, speed: 3, torsion: 0 };
    let stop = PassiveForce { direction: Direction::NoDirection, speed: 4, torsion: 2 };
    let other_stop = PassiveForce { direction: Direction::NoDirection, speed: 2, torsion: 0 };
    assert_eq!(merge_forces(east, west), PassiveForce { direction: Direction::NoDirection, speed: 1, torsion: 0 });
    assert_eq!(merge_forces(east, slow_east), PassiveForce { direction: Direction::East, speed: 1, torsion: 0 });
    assert_eq!(merge_forces(east, east), east);
    assert_eq!(merge_forces(stop, other_stop), PassiveForce { direction: Direction::NoDirection, speed: 4, torsion: 0 });
    assert_eq!(merge_forces(slow_east, east), merge_forces(east, slow_east));
}

#[test]
fn boxes_overlap_when_every_axis_overlaps() {
    let origin = Coord::new(0, 0, 0);
    let unit = Coord::new(1, 1, 1);
    assert!(boxes_overlap(origin, unit, unit, Coord::new(2, 2, 2)));
    assert!(!boxes_overlap(origin, unit, Coord::new(2, 0, 0), Coord::new(3, 1, 1)));
    assert!(!boxes_overlap(origin, unit, Coord::new(0, 0, -3), Coord::new(1, 1, -1)));
}

#[test]
fn grills_cook_raw_faces_and_burn_cooked_ones() {
    let mut face = 0;
    cook_face(&mut face, Direction::East, Direction::West);
    assert_eq!(face, 2);
    let mut face = 0;
    cook_face(&mut face, Direction::East, Direction::North);
    assert_eq!(face, 1);
    cook_face(&mut face, Direction::East, Direction::West);
    assert_eq!(face, 3);
}

fn entry(ordinal: usize, id: &str) -> CampaignEntry {
    CampaignEntry {
        ordinal,
        id: id.to_owned(),
        state: puzzle(&[PLAYER, ISLAND]),
        overworld: GameState::parse(&format!("F|{PLAYER}")).unwrap(),
    }
}

#[test]
fn puzzle_roots_stop_at_the_first_double_underscore() {
    assert_eq!(puzzle_root("modular8a__island1"), "modular8a");
    assert_eq!(puzzle_root("a__b__c"), "a");
    assert_eq!(puzzle_root("level47"), "level47");
    assert_eq!(puzzle_root("_x_"), "_x_");
    assert_eq!(puzzle_root("__"), "");
}

#[test]
fn entries_are_found_by_ordinal_or_id() {
    let entries = CampaignEntries { levels: vec![entry(1, "level47"), entry(2, "modular8a__island1")] };
    assert_eq!(entries.find("2").map(|e| e.id.as_str()), Some("modular8a__island1"));
    assert_eq!(entries.find("+1").map(|e| e.id.as_str()), Some("level47"));
    assert_eq!(entries.find("level47").map(|e| e.ordinal), Some(1));
    assert!(entries.find("0").is_none());
    assert!(entries.find("3").is_none());
    assert!(entries.find("modular8a").is_none());
}

#[test]
fn entries_must_cover_the_complete_campaign() {
    let campaign = campaign_with_entry("rock");
    let entries = CampaignEntries { levels: vec![entry(1, "rock")] };
    assert_eq!(
        entries.validate_against(&campaign).unwrap_err(),
        "complete campaign requires 86 entry states, found 1"
    );
    let many = CampaignEntries { levels: (1..=86).map(|i| entry(i, "rock__part")).collect() };
    assert!(many.validate_against(&campaign).is_ok());
    let wrong = CampaignEntries { levels: (1..=86).map(|i| entry(i, "moss")).collect() };
    assert_eq!(
        wrong.validate_against(&campaign).unwrap_err(),
        "campaign entry mismatch; missing=[\"rock\"], extra=[\"moss\"]"
    );
}

#[test]
fn commands_have_wire_names_and_limits() {
    assert_eq!(API_VERSION, "sausage-api-v1");
    assert_eq!(Command::Show.name(), "show");
    assert_eq!(Command::Levels.name(), "levels");
    assert_eq!(Command::Move { directions: vec![] }.name(), "move");
    assert_eq!(Command::Undo { count: 1 }.name(), "undo");
    assert_eq!(Command::Restart.name(), "restart");
    assert_eq!(Command::Submit.name(), "submit");
    let oversized = Command::Move { directions: vec![Direction::North; MAX_MOVES_PER_REQUEST + 1] };
    assert_eq!(oversized.request_error(), Some("move accepts at most 32 directions".to_owned()));
    assert_eq!(Command::Move { directions: vec![Direction::North; 32] }.request_error(), None);
    assert_eq!(Command::Undo { count: 0 }.request_error(), Some("undo count must be between 1 and 32".to_owned()));
    assert_eq!(Command::Undo { count: 33 }.request_error(), Some("undo count must be between 1 and 32".to_owned()));
    assert_eq!(Command::Undo { count: 32 }.request_error(), None);
}

#[test]
fn observed_steps_count_score_changes() {
    assert_eq!(
        score_steps(3, &vec![3, 5, 4]).unwrap(),
        vec![
            ScoreStep { index: 1, score: 3, score_delta: 0 },
            ScoreStep { index: 2, score: 5, score_delta: 2 },
            ScoreStep { index: 3, score: 4, score_delta: -1 },
        ]
    );
    assert_eq!(score_steps(usize::MAX, &vec![]).unwrap_err(), "score does not fit i64");
    assert!(score_steps(0, &vec![]).unwrap().is_empty());
}

#[test]
fn state_file_names_carry_an_ordinal_and_an_id() {
    assert_eq!(state_file_name("campaign-entry", "._12-level47.state"), Ok(None));
    assert_eq!(state_file_name("campaign-entry", "12-level47.state"), Ok(Some((12, "level47".to_owned()))));
    assert_eq!(
        state_file_name("campaign-entry", "notes.txt").unwrap_err(),
        "unexpected campaign-entry file \"notes.txt\""
    );
    assert_eq!(
        state_file_name("campaign-entry", "level.state").unwrap_err(),
        "campaign-entry filename has no ordinal: \"level.state\""
    );
    assert_eq!(
        state_file_name("overworld-checkpoint", "x-level.state").unwrap_err(),
        "invalid overworld-checkpoint ordinal in \"x-level.state\": invalid digit found in string"
    );
}

fn overworld_state() -> GameState {
    GameState::parse(&format!("F|{PLAYER}")).unwrap()
}

#[test]
fn entries_pair_each_puzzle_with_its_overworld_checkpoint() {
    let entries = vec![(1, "rock".to_owned(), puzzle(&[PLAYER, ISLAND])), (2, "rock".to_owned(), puzzle(&[PLAYER]))];
    let checkpoints = vec![(1, "rock".to_owned(), overworld_state()), (2, "rock".to_owned(), overworld_state())];
    let levels = CampaignEntries::from_states(entries, checkpoints).expect("entries").levels;
    assert_eq!(levels.len(), 2);
    assert_eq!((levels[1].ordinal, levels[1].id.as_str()), (2, "rock"));
    assert_eq!(levels[0].state, puzzle(&[PLAYER, ISLAND]));
    assert!(levels[0].overworld.overworld);

    let wrong = vec![(1, "moss".to_owned(), puzzle(&[PLAYER]))];
    assert_eq!(
        CampaignEntries::from_states(wrong, vec![]).unwrap_err(),
        "campaign entry 1 targets \"rock\" instead of \"moss\""
    );
    let alone = vec![(1, "rock".to_owned(), puzzle(&[PLAYER]))];
    assert_eq!(
        CampaignEntries::from_states(alone.clone(), vec![]).unwrap_err(),
        "overworld checkpoint is missing ordinal 1 \"rock\""
    );
    let other = vec![(1, "moss".to_owned(), overworld_state())];
    assert_eq!(
        CampaignEntries::from_states(alone.clone(), other).unwrap_err(),
        "overworld checkpoint 1 \"moss\" does not match \"rock\""
    );
    let extra = vec![(1, "rock".to_owned(), overworld_state()), (5, "rock".to_owned(), overworld_state())];
    assert_eq!(
        CampaignEntries::from_states(alone, extra).unwrap_err(),
        "overworld checkpoint archive has extra entries"
    );
    let late = vec![(3, "rock".to_owned(), puzzle(&[PLAYER]))];
    let late_checkpoint = vec![(3, "rock".to_owned(), overworld_state())];
    assert_eq!(
        CampaignEntries::from_states(late, late_checkpoint).unwrap_err(),
        "expected campaign-entry ordinal 1, found 3"
    );
}

#[test]
fn inputs_are_planned_from_the_player_and_its_fork() {
    let campaign = campaign_with_entry("rock");
    let state = puzzle(&[PLAYER, RAW_SAUSAGE, ISLAND]);
    let game = Game3d::from_state(&campaign, &state).expect("game");
    assert_eq!(game.plan_input(Direction::Up), Err("input direction must be cardinal, got Up".to_string()));
    let walk = InputPlan { ask_ladder_up: false, ask_ladder_down: false, fallback: InputFallback::Move };
    assert_eq!(game.plan_input(Direction::North), Ok(Some(walk)));
    assert_eq!(game.plan_input(Direction::South), Ok(Some(walk)));
    assert_eq!(
        game.plan_input(Direction::East),
        Ok(Some(InputPlan { ask_ladder_up: true, ask_ladder_down: true, fallback: InputFallback::Turn { clockwise: true } }))
    );
    assert_eq!(
        game.plan_input(Direction::West),
        Ok(Some(InputPlan { ask_ladder_up: true, ask_ladder_down: true, fallback: InputFallback::Turn { clockwise: false } }))
    );
    let sunk = puzzle(&["1,1,-3,2,1,0,,-1,0,0,0,8,0,0,0,", RAW_SAUSAGE, ISLAND]);
    let game = Game3d::from_state(&campaign, &sunk).expect("game");
    assert_eq!(game.plan_input(Direction::North), Ok(None));
}

fn movement(kind: MovementKind, direction: Direction, torsion: i32, to: Direction) -> Movement {
    Movement {
        target_id: 42,
        kind,
        direction,
        torsion,
        remaining: Fraction::new(1, 1),
        speed: 1,
        from: Direction::East,
        to,
        animation: Animation::Idle,
        left: false,
        tower_level: 0,
        pure_direct_force: false,
    }
}

#[test]
fn the_exit_follows_the_sausage_it_lies_on() {
    let sausage = Entity::parse("3,4,0,3,42,3,M;;,-1,0,0,0,8,0,0,0,").expect("sausage");
    let exit = ExitMark { pos: Coord::new(3, 4, 1), direction: Direction::North, up: true };
    let rolled = follow_exit(exit, movement(MovementKind::Translation, Direction::East, 0, Direction::East), &sausage);
    assert_eq!(rolled, ExitMark { pos: Coord::new(4, 4, 1), direction: Direction::North, up: true });
    let flipped = follow_exit(exit, movement(MovementKind::Translation, Direction::South, 1, Direction::East), &sausage);
    assert_eq!(flipped, ExitMark { pos: Coord::new(3, 5, 1), direction: Direction::South, up: false });
    let turned = follow_exit(exit, movement(MovementKind::Rotation, Direction::NoDirection, 0, Direction::North), &sausage);
    assert_eq!(turned, ExitMark { pos: Coord::new(3, 3, 1), direction: Direction::NorthEast, up: true });
    let pivoted = follow_exit(exit, movement(MovementKind::Pivot, Direction::East, 0, Direction::North), &sausage);
    assert_eq!(pivoted, exit);
}

#[test]
fn ladders_are_found_ahead_of_and_below_the_player() {
    let campaign = campaign_with_entry("rock");
    let ahead = "1,0,0,4,5,1,,-1,0,0,0,8,0,0,0,";
    let game = Game3d::from_state(&campaign, &puzzle(&[PLAYER, ahead, RAW_SAUSAGE, ISLAND])).expect("game");
    assert_eq!(game.ladder_at(Coord::new(1, 0, 0)), Ok(Direction::South));
    assert_eq!(game.ladder_at(Coord::new(5, 5, 5)), Ok(Direction::NoDirection));
    assert_eq!(game.ladder_up_in_direction(Direction::North), Ok(true));
    assert_eq!(game.ladder_up_in_direction(Direction::South), Ok(false));
    assert_eq!(game.ladder_down_in_direction(Direction::East), Ok(false));
    let below = "1,1,-1,4,5,3,,-1,0,0,0,8,0,0,0,";
    let game = Game3d::from_state(&campaign, &puzzle(&[PLAYER, below, RAW_SAUSAGE, ISLAND])).expect("game");
    assert_eq!(game.ladder_down_in_direction(Direction::East), Ok(true));
    assert_eq!(game.ladder_down_in_direction(Direction::West), Ok(false));
    let blocked = "2,1,-1,6,6,0,,-1,0,0,0,8,0,0,0,";
    let game = Game3d::from_state(&campaign, &puzzle(&[PLAYER, below, blocked, RAW_SAUSAGE, ISLAND])).expect("game");
    assert_eq!(game.ladder_down_in_direction(Direction::East), Ok(false));
}

#[test]
fn floors_grills_and_falls_are_read_from_the_world() {
    let campaign = campaign_with_entry("rock");
    let low = "1,1,-1,3,10,3,M;;,-1,0,0,0,8,0,0,0,";
    let barrier = "5,5,-1,6,11,0,,-1,0,0,0,8,0,0,0,";
    let stacked = "5,5,-1,3,12,0,M;;,-1,0,0,0,8,0,0,0,";
    let grill = "6,6,0,1,30,2,,-1,0,0,0,8,0,0,0,";
    let deep = "9,9,-11,3,13,3,M;;,-1,0,0,0,8,0,0,0,";
    let state = puzzle(&[PLAYER, low, barrier, stacked, grill, deep, ISLAND]);
    let game = Game3d::from_state(&campaign, &state).expect("game");
    assert_eq!(game.floor_at(Coord::new(1, 1, 0), false), Ok(Some(10)));
    assert_eq!(game.floor_at(Coord::new(0, 0, -1), false), Ok(Some(20)));
    assert_eq!(game.floor_at(Coord::new(7, 7, 0), false), Ok(None));
    assert_eq!(game.floor_at(Coord::new(5, 5, 0), false), Ok(Some(12)));
    assert_eq!(game.under(1), Ok(vec![10]));
    assert_eq!(game.under(10), Ok(vec![]));
    assert_eq!(game.under(99), Err("unknown entity id 99".to_string()));
    assert_eq!(game.bbq_at(Coord::new(6, 6, 0)), Ok((Direction::West, "30".to_string())));
    assert_eq!(game.bbq_at(Coord::new(1, 1, 0)), Ok((Direction::NoDirection, String::new())));
    assert_eq!(game.is_extended(1), Ok(true));
    assert_eq!(game.is_extended(10), Ok(true));
    assert_eq!(game.is_extended(30), Ok(false));
    assert_eq!(game.is_extended(99), Err("unknown entity id 99".to_string()));
    assert!(game.can_fall_liberal(10, true));
    assert!(game.can_fall_liberal(1, true));
    assert!(!game.can_fall_liberal(20, true));
    assert!(!game.can_fall_liberal(13, false));
    assert!(!game.can_fall_liberal(99, true));
}

#[test]
fn grills_cook_the_faces_under_each_end_once() {
    let campaign = campaign_with_entry("rock");
    let grill = "3,4,-1,1,31,3,,-1,0,0,0,8,0,0,0,";
    let mut game = Game3d::from_state(&campaign, &puzzle(&[PLAYER, RAW_SAUSAGE, grill, ISLAND])).expect("game");
    assert_eq!(game.cook(10), Ok(()));
    let sausage = game.physics().entity(10).expect("sausage").duplicate();
    assert_eq!((sausage.cook_data, sausage.data.as_str()), (128, "M;31;"));
    assert_eq!(game.cook(10), Ok(()));
    let again = game.physics().entity(10).expect("sausage").duplicate();
    assert_eq!((again.cook_data, again.data.as_str()), (128, "M;31;"));
    assert_eq!(game.cook(99), Err("cook target 99 disappeared".to_string()));
    assert_eq!(game.cook(1), Ok(()));

    let burning = "3,4,0,3,10,3,M;;,-1,0,0,128,8,0,0,0,";
    let mut game = Game3d::from_state(&campaign, &puzzle(&[PLAYER, burning, grill, ISLAND])).expect("game");
    assert_eq!(game.cook(10), Ok(()));
    let burnt = game.physics().entity(10).expect("sausage").duplicate();
    assert_eq!((burnt.cook_data, burnt.data.as_str()), (192, "B;31;"));

    let lifted = "3,4,0,3,10,3,L;x;y,-1,0,0,5,8,0,0,0,";
    let mut game = Game3d::from_state(&campaign, &puzzle(&[PLAYER, lifted, ISLAND])).expect("game");
    assert_eq!(game.cook(10), Ok(()));
    let off = game.physics().entity(10).expect("sausage").duplicate();
    assert_eq!((off.cook_data, off.data.as_str()), (5, "L;;"));
}

#[test]
fn cooking_an_end_depends_on_the_grill_direction() {
    let sausage = Entity::parse(RAW_SAUSAGE).expect("sausage");
    assert_eq!(cook_result(&sausage, Direction::East, "a", Direction::North, "b"), (129, "M;a;b".to_string()));
    assert_eq!(cook_result(&sausage, Direction::NoDirection, "", Direction::NoDirection, ""), (0, "M;;".to_string()));
    let rolled = Entity::parse("3,4,0,3,10,3,M;a;,-1,1,0,0,8,0,0,0,").expect("sausage");
    assert_eq!(cook_result(&rolled, Direction::East, "a", Direction::East, "c"), (8, "M;a;c".to_string()));
}

#[test]
fn ticks_finish_movements_and_leave_a_loose_exit_in_place() {
    let campaign = campaign_with_entry("rock");
    let mut game = Game3d::from_state(&campaign, &puzzle(&[PLAYER, RAW_SAUSAGE, ISLAND])).unwrap();
    assert_eq!(game.tick_world(), Ok(vec![]));
    let sausage = game.world.entity(10).unwrap().clone();
    game.world
        .set_movement(Movement::translation(&sausage, Direction::East, 0, 1, Animation::Idle, true, 0))
        .unwrap();
    assert!(game.consistent_footprint(&[10]));
    assert!(!game.consistent_footprint(&[10, 1]));
    assert!(!game.consistent_footprint(&[]));
    assert_eq!(game.tick_world(), Ok(vec![10]));
    assert!(game.world.movement(10).is_none());
    assert_ne!(game.world.entity(10).unwrap().pos, sausage.pos);
    assert_eq!(game.exit(), (Coord::new(1, 1, 0), Direction::North));
}

#[test]
fn clearing_a_movement_clears_the_attached_entity_too() {
    let campaign = campaign_with_entry("rock");
    let stuck = "3,4,0,3,10,3,M;;,1,0,0,0,8,0,0,0,";
    let mut game = Game3d::from_state(&campaign, &puzzle(&[PLAYER, stuck, ISLAND])).unwrap();
    let sausage = game.world.entity(10).unwrap().clone();
    let player = game.world.entity(1).unwrap().clone();
    game.world
        .set_movement(Movement::translation(&sausage, Direction::East, 0, 1, Animation::Idle, true, 0))
        .unwrap();
    game.world
        .set_movement(Movement::translation(&player, Direction::East, 0, 1, Animation::Idle, true, 0))
        .unwrap();
    game.clear_movement_with_attachment(1);
    assert!(game.world.movement(1).is_none());
    assert!(game.world.movement(10).is_some());
    game.clear_movement_with_attachment(10);
    assert!(!game.world.moving());
}

#[test]
fn movements_carry_the_attached_entity_along() {
    let campaign = campaign_with_entry("rock");
    let stuck = "3,4,0,3,10,3,M;;,1,0,0,0,8,0,0,0,";
    let mut game = Game3d::from_state(&campaign, &puzzle(&[PLAYER, stuck, ISLAND])).unwrap();
    let sausage = game.world.entity(10).unwrap().clone();
    let roll = Movement::translation(&sausage, Direction::East, 0, 2, Animation::Idle, true, 0);
    assert_eq!(game.set_movement_with_attachment(roll), Ok(()));
    assert_eq!(game.world.movement(10), Some(roll));
    let carried = game.world.movement(1).expect("player moves along");
    assert_eq!((carried.kind, carried.direction, carried.speed), (MovementKind::Translation, Direction::East, 2));
    assert_eq!(game.set_movement_with_attachment(roll), Ok(()));
    assert_eq!(game.world.movement(10), Some(roll));

    let mut stranger = sausage;
    stranger.id = 99;
    let lost = Movement::translation(&stranger, Direction::East, 0, 1, Animation::Idle, true, 0);
    assert_eq!(
        game.set_movement_with_attachment(lost).unwrap_err(),
        "could not move entity 99 with attachment: movement targets unknown entity 99"
    );
}

#[test]
fn supports_are_the_resting_entities_under_a_footprint() {
    let campaign = campaign_with_entry("rock");
    let low = "1,1,-1,3,10,3,M;;,-1,0,0,0,8,0,0,0,";
    let mut game = Game3d::from_state(&campaign, &puzzle(&[PLAYER, low, ISLAND])).expect("game");
    let supports = game.footprint_entities(1).expect("supports");
    assert!(supports.contains(&10));
    assert!(!supports.contains(&1));
    let mut unique = supports.clone();
    unique.dedup();
    assert_eq!(unique.len(), supports.len());
    assert_eq!(game.footprint_entities(99), Err("unknown entity id 99".to_string()));
    let sausage = game.world.entity(10).unwrap().clone();
    game.world
        .set_movement(Movement::translation(&sausage, Direction::Down, 0, 1, Animation::Idle, true, 0))
        .unwrap();
    assert!(!game.footprint_entities(1).expect("supports").contains(&10));
}

#[test]
fn resting_checks_the_box_below_against_each_mover() {
    let campaign = campaign_with_entry("rock");
    let low = "1,1,-1,3,10,3,M;;,-1,0,0,0,8,0,0,0,";
    let game = Game3d::from_state(&campaign, &puzzle(&[PLAYER, low, RAW_SAUSAGE.replace(",10,", ",11,").as_str(), ISLAND]))
        .expect("game");
    assert_eq!(game.may_rest_on_any(1, &[10]), Ok(true));
    assert_eq!(game.may_rest_on_any(1, &[11]), Ok(false));
    assert_eq!(game.may_rest_on_any(1, &[]), Ok(false));
    assert_eq!(game.may_rest_on_any(1, &[11, 99]), Err("unknown entity id 99".to_string()));
    assert_eq!(game.may_rest_on_any(1, &[10, 99]), Ok(true));
    assert_eq!(game.may_rest_on_any(99, &[10]), Err("unknown entity id 99".to_string()));
}

#[test]
fn forces_across_an_entity_turn_it_over() {
    let campaign = campaign_with_entry("rock");
    let mut game = Game3d::from_state(&campaign, &puzzle(&[PLAYER, RAW_SAUSAGE, ISLAND])).unwrap();
    assert_eq!(game.try_rotate_entity(10, Direction::East), Ok(()));
    assert_eq!(game.world.entity(10).unwrap().rotation, 0);
    assert_eq!(game.try_rotate_entity(10, Direction::North), Ok(()));
    assert_eq!(game.world.entity(10).unwrap().rotation, 1);
    assert_eq!(game.try_rotate_entity(10, Direction::South), Ok(()));
    assert_eq!(game.world.entity(10).unwrap().rotation, 0);
    assert_eq!(game.try_rotate_entity(99, Direction::North), Err("rotation target 99 disappeared".to_string()));
}

#[test]
fn a_player_with_nothing_underfoot_drops_the_fork_and_picks_it_up_again() {
    let campaign = campaign_with_entry("rock");
    let mut game = Game3d::from_state(&campaign, &puzzle(&[PLAYER, ISLAND])).unwrap();
    assert!(game.world.player_has_fork());
    assert_eq!(game.try_detach_fork(), Ok(()));
    let fork_id = game.world.fork_id().expect("fork dropped");
    assert_eq!(fork_id, 21);
    let fork = game.world.entity(fork_id).unwrap().clone();
    assert_eq!(fork.entity_type, benchmark_games::sausage::model::EntityType::Fork);
    assert_eq!(fork.pos, Coord::new(1, 0, 0));
    assert_eq!(fork.direction, Direction::North);
    assert_eq!(fork.stuck_to, -1);
    assert_eq!(game.try_detach_fork(), Ok(()));
    assert_eq!(game.world.fork_id(), Some(fork_id));

    // Without footing the fork stays down; a climbing player picks it up.
    assert_eq!(game.try_reattach_fork(), Ok(()));
    assert_eq!(game.world.fork_id(), Some(fork_id));
    let mut climber = game.world.entity(1).unwrap().clone();
    climber.data = "1".to_string();
    assert!(game.world.replace_entity(climber));
    assert_eq!(game.try_reattach_fork(), Ok(()));
    assert_eq!(game.world.fork_id(), None);
    assert!(game.world.entity(fork_id).is_none());
    assert_eq!(game.world.entity(1).unwrap().stuck_to, -1);
}

#[test]
fn walking_into_a_free_sausage_spears_it() {
    let campaign = campaign_with_entry("rock");
    let ahead = "1,-1,0,3,10,3,M;;,-1,0,0,0,8,0,0,0,";
    let mut game = Game3d::from_state(&campaign, &puzzle(&[PLAYER, ahead, ISLAND])).unwrap();
    assert_eq!(game.try_fork(), Ok(()));
    assert_eq!(game.world.entity(1).unwrap().stuck_to, -1);
    let player = game.world.entity(1).unwrap().clone();
    game.world
        .set_movement(Movement::translation(&player, Direction::North, 0, 1, Animation::Idle, true, 0))
        .unwrap();
    assert_eq!(game.try_fork(), Ok(()));
    assert_eq!(game.world.entity(1).unwrap().stuck_to, 10);
    assert_eq!(game.world.entity(10).unwrap().stuck_to, 1);
}

#[test]
fn diagonal_entities_turn_back_onto_an_axis() {
    let campaign = campaign_with_entry("rock");
    let slanted = "5,5,0,3,12,4,M;;,-1,0,0,0,0,0,0,0,";
    let mut game = Game3d::from_state(&campaign, &puzzle(&[PLAYER, RAW_SAUSAGE, slanted, ISLAND])).unwrap();
    assert_eq!(game.rotate_back(10), Ok(false));
    assert_eq!(game.rotate_back(99), Err("rotate-back target 99 disappeared".to_string()));
    assert_eq!(game.rotate_back(12), Ok(true));
    let turn = game.world.movement(12).expect("turning back");
    assert_eq!((turn.kind, turn.from, turn.to, turn.speed), (MovementKind::Rotation, Direction::NorthEast, Direction::East, 2));
    assert_eq!(game.world.entity(12).unwrap().turn_direction, Direction::NoDirection);
}

#[test]
fn hats_are_the_sausages_resting_on_the_head() {
    let campaign = campaign_with_entry("rock");
    let anchored = "1,1,1,3,10,3,M;;,-1,0,0,0,8,0,0,0,";
    let mut game = Game3d::from_state(&campaign, &puzzle(&[PLAYER, anchored, ISLAND])).unwrap();
    assert_eq!(game.get_hat(1), Ok(Some(10)));
    assert_eq!(game.world.entity(10).unwrap().pos, Coord::new(1, 1, 1));
    assert_eq!(game.get_hat(99), Err("hat bearer 99 disappeared".to_string()));

    let elsewhere = "0,1,1,3,10,3,M;a;b,-1,0,0,0,8,0,0,0,";
    let mut game = Game3d::from_state(&campaign, &puzzle(&[PLAYER, elsewhere, ISLAND])).unwrap();
    let hat = game.get_hat(1).unwrap();
    let pivoted = game.world.entity(10).unwrap().clone();
    assert_eq!(pivoted.pos, Coord::new(1, 1, 1));
    assert_eq!(pivoted.direction, Direction::West);
    assert_eq!(pivoted.data, "M;b;a");
    assert!(hat == Some(10) || hat.is_none());

    let mut bare = Game3d::from_state(&campaign, &puzzle(&[PLAYER, RAW_SAUSAGE, ISLAND])).unwrap();
    assert_eq!(bare.get_hat(1), Ok(None));
}

#[test]
fn pushes_leave_the_puzzle_island_and_empty_cells_alone() {
    let campaign = campaign_with_entry("rock");
    let state = puzzle(&[PLAYER, RAW_SAUSAGE, ISLAND]);
    let mut game = Game3d::from_state(&campaign, &state).expect("game");
    let island = game.physics().entity(20).expect("island").duplicate();
    assert_eq!(game.try_push(20, Direction::East, 1, false, 16), Ok(false));
    assert_eq!(game.physics().entity(20).expect("island").pos, island.pos);
    assert!(!game.physics().moving());
    assert_eq!(game.apply_force_at(Coord::new(50, 50, 50), Direction::East, 1, None, 16), Ok(false));
    assert!(!game.physics().moving());
    assert_eq!(game.try_push(10, Direction::East, 1, false, 0), Err("pushes nest too deeply".to_string()));
    assert_eq!(game.calculate_torsions(true), Ok(()));
    assert!(!game.physics().moving());
}
