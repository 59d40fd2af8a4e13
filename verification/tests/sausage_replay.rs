use benchmark_games::sausage::model::Direction;
use benchmark_games::sausage::replay::Replay;

#[test]
fn removes_the_move_preceding_each_tas_undo() {
    let replay = Replay::parse("North\r\nEast\r\nUndo\r\nWest\r\n").expect("valid replay");
    assert_eq!(replay.directions, vec![Direction::North, Direction::West]);
    assert_eq!(replay.removed_undos, 1);
}

#[test]
fn blank_lines_and_case_are_ignored() {
    let replay = Replay::parse("\n  east \n\nUNDO\ns\n  \nleft").expect("valid replay");
    assert_eq!(replay.directions, vec![Direction::South, Direction::West]);
    assert_eq!(replay.removed_undos, 1);
    let empty = Replay::parse("").expect("empty replay");
    assert!(empty.directions.is_empty());
    assert_eq!(empty.removed_undos, 0);
}

#[test]
fn undo_without_a_move_is_refused() {
    assert_eq!(
        Replay::parse("\nUndo\nNorth").unwrap_err(),
        "undo without a preceding direction on line 2"
    );
    assert_eq!(
        Replay::parse("North\nundo\nundo").unwrap_err(),
        "undo without a preceding direction on line 3"
    );
}

#[test]
fn unknown_lines_are_refused_with_their_number() {
    assert_eq!(
        Replay::parse("North\n\n sideways ").unwrap_err(),
        "invalid replay line 3: unknown direction \"sideways\""
    );
}
