use benchmark_games::sausage::campaign::Campaign;
use benchmark_games::sausage::entries::CampaignEntry;
use benchmark_games::sausage::game3d::Game3d;
use benchmark_games::sausage::model::{Coord, Direction, Entity, EntityType, GameState};
use benchmark_games::sausage::session::{
    at_entrance, bounds_from_positions, completion_island_deltas, entity_view, entrance_view, entry_tile_set,
    island_poses, island_tile, level_tile_set, level_title, max_coord, min_coord, project, project_puzzle, static_tile,
    project_overworld, snapshot_from_game, world_bounds, CampaignStatus, IslandPoseView, LevelStatus, Sight, CAMPAIGN_ID,
};
use benchmark_games::sausage::world::PhysicsWorld;

const PLAYER: &str = "1,1,0,2,1,0,,-1,0,0,0,8,0,0,0,";
const SAUSAGE: &str = "3,4,0,3,10,3,M;;,-1,0,0,170,8,0,0,0,";
const ISLAND: &str = "0,0,-3,8,20,8,rock,-1,0,0,0,8,7,2,0,";
const LADDER: &str = "5,5,0,4,30,1,,-1,0,0,0,8,3,1,0,";

fn put_int(out: &mut Vec<u8>, value: i32) {
    out.extend_from_slice(&value.to_le_bytes());
}

fn text(out: &mut Vec<u8>, value: &str) {
    assert!(value.len() < 128);
    out.push(value.len() as u8);
    out.extend_from_slice(value.as_bytes());
}

/// A campaign with the 2 x 1 x 2 island mask "rock" (cells 1, -1, 0, 2),
/// the entry position of "rock" and, when `titled`, its island state.
fn campaign(titled: bool) -> Campaign {
    let mut out = Vec::new();
    put_int(&mut out, 0);
    put_int(&mut out, 0);
    put_int(&mut out, 1);
    text(&mut out, "rock");
    for value in [1, 1, 3, 0] {
        put_int(&mut out, value);
    }
    put_int(&mut out, 0);
    put_int(&mut out, 1);
    text(&mut out, "rock");
    put_int(&mut out, 2);
    put_int(&mut out, 1);
    put_int(&mut out, 2);
    for value in [1, -1, 0, 2] {
        put_int(&mut out, value);
    }
    for _ in 0..3 {
        put_int(&mut out, 0);
    }
    for _ in 0..5 {
        put_int(&mut out, 0);
    }
    text(&mut out, "F");
    if titled {
        put_int(&mut out, 1);
        text(&mut out, "rock");
        text(&mut out, "F****Rock Garden**");
    } else {
        put_int(&mut out, 0);
    }
    Campaign::read(&out).expect("valid campaign")
}

fn state(records: &[&str]) -> GameState {
    GameState::parse(&format!("Irock|{}", records.join("|"))).expect("valid state")
}

fn entity(record: &str) -> Entity {
    Entity::parse(record).expect("valid entity")
}

#[test]
fn coordinates_and_bounds_combine_per_axis() {
    assert_eq!(CAMPAIGN_ID, "stephens-sausage-roll-complete");
    let a = Coord::new(1, 5, -2);
    let b = Coord::new(3, -1, 0);
    assert_eq!(min_coord(a, b), Coord::new(1, -1, -2));
    assert_eq!(max_coord(a, b), Coord::new(3, 5, 0));
    let bounds = bounds_from_positions(&vec![a, b, Coord::new(0, 0, 9)]).expect("bounds");
    assert_eq!((bounds.min, bounds.max), (Coord::new(0, -1, -2), Coord::new(3, 5, 9)));
    assert_eq!(bounds_from_positions(&vec![]).unwrap_err(), "overworld has no visible terrain");
}

#[test]
fn static_entities_show_as_their_kind_of_tile() {
    let tile = static_tile(&entity(LADDER));
    assert_eq!(tile.kind, "ladder");
    assert_eq!((tile.pos, tile.source_id, tile.direction), (Coord::new(5, 5, 0), 30, Direction::South));
    assert_eq!((tile.tile_number, tile.tile_set, tile.variant), (3, 1, 0));
    let ground = static_tile(&entity("0,0,0,0,31,0,,-1,0,0,0,8,0,0,0,"));
    assert_eq!(ground.kind, "ground");
}

#[test]
fn island_tiles_follow_their_mask_values() {
    let campaign = campaign(false);
    let world = PhysicsWorld::from_state(&campaign, &state(&[PLAYER, ISLAND])).expect("world");
    let island = entity(ISLAND);
    let land = island_tile(&world, &island, Coord::new(0, 0, -3)).expect("tile");
    assert_eq!((land.kind.as_str(), land.variant, land.direction), ("land", 1, island.direction));
    assert_eq!((land.tile_number, land.tile_set, land.source_id), (7, 2, 20));
    let grill = island_tile(&world, &island, Coord::new(1, 0, -2)).expect("tile");
    assert_eq!((grill.kind.as_str(), grill.variant, grill.direction), ("grill", 2, Direction::East));
    let outside = island_tile(&world, &island, Coord::new(9, 9, 9)).expect("tile");
    assert_eq!((outside.kind.as_str(), outside.variant), ("land", 0));
    assert!(island_tile(&world, &entity(SAUSAGE), Coord::new(0, 0, 0)).is_err());
}

#[test]
fn entity_views_report_cells_faces_and_attachments() {
    let campaign = campaign(false);
    let world = PhysicsWorld::from_state(&campaign, &state(&[PLAYER, SAUSAGE, ISLAND])).expect("world");
    let view = entity_view(&world, &entity(SAUSAGE)).expect("view");
    assert_eq!(view.cooked_faces, Some([2, 2, 2, 2]));
    assert_eq!(view.cells, vec![Coord::new(3, 4, 0), Coord::new(4, 4, 0)]);
    assert_eq!(view.attached_to, None);
    assert_eq!(view.island, None);
    let island = entity_view(&world, &entity(ISLAND)).expect("view");
    assert_eq!(island.island, Some("rock".to_owned()));
    assert_eq!(island.cooked_faces, None);
    assert_eq!(island.kind, EntityType::Island);
    assert_eq!(island.cells, world.source_footprint(20).unwrap());
}

#[test]
fn island_poses_are_ordered_by_id_and_bounds_cover_their_cells() {
    let campaign = campaign(false);
    let second = "4,0,-3,8,15,8,rock,-1,0,0,0,8,0,0,0,";
    let world = PhysicsWorld::from_state(&campaign, &state(&[PLAYER, ISLAND, second])).expect("world");
    assert_eq!(
        island_poses(&world),
        vec![
            IslandPoseView { id: 15, pos: Coord::new(4, 0, -3) },
            IslandPoseView { id: 20, pos: Coord::new(0, 0, -3) },
        ]
    );
    let bounds = world_bounds(&world).expect("bounds");
    let mut cells = world.source_footprint(20).unwrap();
    cells.extend(world.source_footprint(15).unwrap());
    let min = cells.iter().fold(cells[0], |m, c| min_coord(m, *c));
    let max = cells.iter().fold(cells[0], |m, c| max_coord(m, *c));
    assert_eq!((bounds.min, bounds.max), (min, max));
}

fn entry(id: &str, records: &[&str]) -> CampaignEntry {
    CampaignEntry {
        ordinal: 4,
        id: id.to_owned(),
        state: state(records),
        overworld: GameState::parse(&format!("F|{PLAYER}")).unwrap(),
    }
}

#[test]
fn entrances_and_titles_come_from_the_campaign() {
    let untitled = campaign(false);
    assert_eq!(level_title(&untitled, "rock").unwrap_err(), "unknown island \"rock\"");
    let campaign = campaign(true);
    assert_eq!(level_title(&campaign, "rock").unwrap(), "Rock Garden");
    let world = PhysicsWorld::from_state(&campaign, &state(&[PLAYER, ISLAND])).expect("world");
    let view = entrance_view(&campaign, &world, &entry("rock", &[PLAYER, ISLAND])).expect("entrance");
    assert_eq!(view.title, "Rock Garden");
    assert_eq!((view.ordinal, view.island_id), (4, 20));
    assert_eq!((view.pos, view.direction), (Coord::new(1, 1, 0), Direction::North));
    assert_eq!(
        entrance_view(&campaign, &world, &entry("moss", &[PLAYER, ISLAND])).unwrap_err(),
        "overworld has no island for \"moss\""
    );
    assert_eq!(entry_tile_set(&entry("rock", &[PLAYER, ISLAND])), 2);
}

#[test]
fn the_player_stands_at_an_entrance_only_before_cooking() {
    let campaign = campaign(true);
    let game = Game3d::from_state(&campaign, &state(&[PLAYER, ISLAND])).expect("game");
    assert_eq!(level_tile_set(&game, "rock"), 2);
    assert_eq!(at_entrance(&campaign, &game, &entry("rock", &[PLAYER, ISLAND])), Ok(true));
    let cooked = Game3d::from_state(&campaign, &state(&[PLAYER, SAUSAGE, ISLAND])).expect("game");
    assert_eq!(at_entrance(&campaign, &cooked, &entry("rock", &[PLAYER, ISLAND])), Ok(false));
    let aside = "2,1,0,2,1,0,,-1,0,0,0,8,0,0,0,";
    let moved = Game3d::from_state(&campaign, &state(&[aside, ISLAND])).expect("game");
    assert_eq!(at_entrance(&campaign, &moved, &entry("rock", &[PLAYER, ISLAND])), Ok(false));
    assert_eq!(
        at_entrance(&campaign, &game, &entry("moss", &[PLAYER, ISLAND])).unwrap_err(),
        "puzzle \"moss\" has no entry position"
    );
}

#[test]
fn completion_measures_how_far_the_puzzle_islands_moved() {
    let campaign = campaign(false);
    let before = state(&[PLAYER, ISLAND, "9,9,-3,8,21,8,rock__top,-1,0,0,0,8,0,0,0,", "0,0,0,8,22,8,other,-1,0,0,0,8,0,0,0,"]);
    let after = state(&[PLAYER, "0,2,-3,8,20,8,rock,-1,0,0,0,8,0,0,0,", "9,8,-3,8,21,8,rock__top,-1,0,0,0,8,0,0,0,"]);
    let world = PhysicsWorld::from_state(&campaign, &after).expect("world");
    assert_eq!(
        completion_island_deltas(&before, &world, "rock__top").unwrap(),
        vec![("rock".to_owned(), Coord::new(0, 2, 0)), ("rock__top".to_owned(), Coord::new(0, -1, 0))]
    );
    let lost = state(&[PLAYER, ISLAND, "1,1,1,8,23,8,rock__gone,-1,0,0,0,8,0,0,0,"]);
    assert_eq!(
        completion_island_deltas(&lost, &world, "rock").unwrap_err(),
        "completed level lost island \"rock__gone\""
    );
}

#[test]
fn a_puzzle_projection_shows_its_island_and_the_entities_near_it() {
    let campaign = campaign(false);
    let world = PhysicsWorld::from_state(&campaign, &state(&[LADDER, SAUSAGE, PLAYER, ISLAND])).expect("world");
    let (player, entities, tiles) = project_puzzle(&world, "rock").expect("projection");
    assert_eq!(player.expect("player").id, 1);
    assert_eq!(entities.iter().map(|e| e.id).collect::<Vec<_>>(), vec![1, 10]);
    let mut cells = tiles.iter().map(|t| (t.pos, t.kind.clone())).collect::<Vec<_>>();
    cells.sort_by_key(|(p, _)| (p.x, p.y, p.z));
    assert_eq!(
        cells,
        vec![
            (Coord::new(0, 0, -3), "land".to_string()),
            (Coord::new(0, 0, -2), "land".to_string()),
            (Coord::new(1, 0, -2), "grill".to_string()),
        ]
    );
    assert_eq!(project_puzzle(&world, "nope").unwrap_err(), "puzzle \"nope\" has no active island");
}

#[test]
fn a_projection_around_a_point_shows_what_is_near_it() {
    let campaign = campaign(false);
    let world = PhysicsWorld::from_state(&campaign, &state(&[LADDER, SAUSAGE, PLAYER, ISLAND])).expect("world");
    let (player, entities, tiles) =
        project(&world, &vec![], Sight::Around { center: Coord::new(5, 5, 0) }).expect("projection");
    assert_eq!(player.map(|p| p.id), Some(1));
    assert_eq!(entities.len(), 2);
    assert_eq!(tiles.len(), 1);
    assert_eq!((tiles[0].kind.as_str(), tiles[0].pos), ("ladder", Coord::new(5, 5, 0)));
    let (_, far, far_tiles) =
        project(&world, &vec![], Sight::Around { center: Coord::new(100, 100, 0) }).expect("projection");
    assert_eq!(far.iter().map(|e| e.id).collect::<Vec<_>>(), vec![10]);
    assert!(far_tiles.is_empty());
}

#[test]
fn a_puzzle_snapshot_holds_the_projection_and_the_exit() {
    let campaign = campaign(false);
    let game = Game3d::from_state(&campaign, &state(&[LADDER, SAUSAGE, PLAYER, ISLAND])).expect("game");
    let status = CampaignStatus { id: CAMPAIGN_ID, score: 2, solved: 2, total: 86, complete: false };
    let level = LevelStatus {
        ordinal: 3,
        id: "rock".to_string(),
        title: "Rock".to_string(),
        status: "in_progress".to_string(),
        actions: 0,
        tile_set: 0,
    };
    let snapshot = snapshot_from_game(&game, status.clone(), level.clone()).expect("snapshot");
    assert_eq!(snapshot.schema, "sausage-state-v2");
    assert_eq!((snapshot.status.as_str(), snapshot.mode), ("in_progress", "puzzle"));
    assert_eq!(snapshot.campaign, status);
    assert_eq!(snapshot.level, Some(level.clone()));
    assert!(snapshot.overworld.is_none() && snapshot.overworld_map.is_none());
    assert_eq!(snapshot.controls, ["north", "south", "west", "east"]);
    let exit = snapshot.exit.expect("exit");
    assert_eq!((exit.pos, exit.direction, exit.ready), (Coord::new(1, 1, 0), Direction::North, snapshot.exit_ready));
    assert!(snapshot.exit_ready);
    assert_eq!(snapshot.player.map(|p| p.id), Some(1));
    assert_eq!(snapshot.entities.len(), 2);
    assert_eq!(snapshot.tiles.len(), 3);
    let mut elsewhere = level;
    elsewhere.id = "nope".to_string();
    assert_eq!(
        snapshot_from_game(&game, status, elsewhere).unwrap_err(),
        "puzzle \"nope\" has no active island"
    );
}

#[test]
fn the_overworld_projection_shows_what_is_around_the_player() {
    let campaign = campaign(false);
    let far = "40,0,-3,8,21,8,rock,-1,0,0,0,8,0,0,0,";
    let world = PhysicsWorld::from_state(&campaign, &state(&[LADDER, SAUSAGE, PLAYER, ISLAND, far])).expect("world");
    let (player, entities, tiles) = project_overworld(&world).expect("projection");
    assert_eq!(player.map(|p| p.id), Some(1));
    assert_eq!(entities.iter().map(|e| e.id).collect::<Vec<_>>(), vec![1, 10]);
    assert_eq!(tiles.len(), 4);
    assert!(tiles.iter().all(|t| t.source_id != 21));
    assert!(tiles.iter().any(|t| t.kind == "ladder"));
}
