use benchmark_games::sokoban::campaign::{Campaign, Level, Tier};
use benchmark_games::sokoban::engine::{Board, Direction};
use benchmark_games::sokoban::session::Session;

fn level(rows: &[&str]) -> Level {
    Level {
        id: "test".into(),
        source_id: "test".into(),
        title: "Test".into(),
        width: rows[0].len(),
        height: rows.len(),
        rows: rows.iter().map(|row| (*row).to_owned()).collect(),
    }
}

#[test]
fn pushes_solves_undoes_and_resets() {
    let mut board = Board::from_level(&level(&["#####", "#@$.#", "#####"]));
    let result = board.step(Direction::Right);
    assert!(result.moved);
    assert!(result.pushed);
    assert!(result.solved);
    assert_eq!(board.snapshot().pushes, 1);
    assert_eq!(board.undo(1), 1);
    assert!(!board.solved());
    board.step(Direction::Right);
    board.reset();
    assert_eq!(board.snapshot().moves, 0);
    assert_eq!(board.snapshot().pushes, 0);
}

#[test]
fn walls_and_double_boxes_block_without_counting_a_move() {
    let mut wall = Board::from_level(&level(&["#####", "#@$.#", "#####"]));
    assert!(!wall.step(Direction::Up).moved);
    assert_eq!(wall.snapshot().moves, 0);

    let mut boxes = Board::from_level(&level(&["######", "#@$$.#", "# .. #", "######"]));
    assert!(!boxes.step(Direction::Right).moved);
    assert_eq!(boxes.snapshot().moves, 0);
}

fn tiny_level(id: &str) -> Level {
    Level {
        id: id.to_owned(),
        source_id: id.to_owned(),
        title: id.to_owned(),
        width: 5,
        height: 3,
        rows: vec!["#####".into(), "#@$.#".into(), "#####".into()],
    }
}

#[test]
fn solving_half_unlocks_the_next_tier() {
    let campaign = Campaign {
        schema: "sokoban-campaign-v1".into(),
        id: "test".into(),
        title: "Test".into(),
        tiers: vec![
            Tier {
                id: "easy".into(),
                title: "Easy".into(),
                difficulty: "Easy".into(),
                source_url: "test".into(),
                unlock_after: 1,
                levels: vec![tiny_level("easy-1"), tiny_level("easy-2")],
            },
            Tier {
                id: "hard".into(),
                title: "Hard".into(),
                difficulty: "Hard".into(),
                source_url: "test".into(),
                unlock_after: 1,
                levels: vec![tiny_level("hard-1")],
            },
        ],
    };
    let mut session = Session::new(&campaign);
    assert!(session.select("hard-1").is_err());
    session.select("easy-1").expect("select easy");
    let (_, newly_solved) = session.move_many(&[Direction::Right]).expect("solve easy");
    assert!(newly_solved);
    assert_eq!(session.snapshot().tiers[1].status, "unlocked");
    session
        .select("hard-1")
        .expect("select newly unlocked tier");
    assert_eq!(
        session
            .snapshot()
            .tiers
            .last()
            .expect("last tier")
            .remaining_to_unlock_next,
        0
    );
}

#[test]
fn direction_names_read_back_in_any_case() {
    for d in [Direction::Up, Direction::Down, Direction::Left, Direction::Right] {
        assert_eq!(Direction::parse(d.as_str()), Ok(d));
        assert_eq!(Direction::parse(&d.as_str().to_ascii_uppercase()), Ok(d));
    }
    assert_eq!(Direction::parse(" up"), Err("unknown direction:  up".to_string()));
}

#[test]
fn fresh_boards_show_their_level_and_steps_keep_the_boxes() {
    let rows = ["#######", "#+$ . #", "# *$  #", "#######"];
    let mut board = Board::from_level(&level(&rows));
    let start = board.snapshot();
    assert_eq!(start.map, rows.iter().map(|row| row.to_string()).collect::<Vec<_>>());
    assert_eq!((start.moves, start.pushes, start.boxes.len()), (0, 0, 3));
    let pushed = board.step(Direction::Right);
    assert!(pushed.moved && pushed.pushed);
    let after = board.snapshot();
    assert_eq!((after.moves, after.pushes, after.boxes.len()), (1, 1, 3));
    assert_eq!((after.player.row, after.player.column), (start.player.row, start.player.column + 1));
    let blocked = board.step(Direction::Up);
    assert!(!blocked.moved && !blocked.pushed);
    let same = board.snapshot();
    let cells = |boxes: &Vec<benchmark_games::sokoban::engine::Coordinate>| {
        boxes.iter().map(|c| (c.row, c.column)).collect::<Vec<_>>()
    };
    assert_eq!((same.moves, same.pushes), (after.moves, after.pushes));
    assert_eq!((same.player.row, same.player.column), (after.player.row, after.player.column));
    assert_eq!(cells(&same.boxes), cells(&after.boxes));
}
