use benchmark_games::sausage::model::{Coord, Direction, GameState};
use benchmark_games::sausage::oracle::{
    GuidedReplay, OracleCampaign, OracleCheckpoint, OracleEntity, OracleSegment, SegmentSources,
};
use benchmark_games::sausage::replay::Replay;

const PLAYER: &str = "1,1,0,2,1,0,,-1,0,0,0,8,0,0,0,";
const ISLAND: &str = "0,0,-3,8,20,8,rock,-1,0,0,0,8,0,0,0,";

#[test]
fn checkpoint_entities_read_id_position_direction_rotation_and_cook_data() {
    assert_eq!(
        OracleEntity::parse("67:1,-2,3,2,1,170"),
        Ok(OracleEntity {
            id: 67,
            pos: Coord::new(1, -2, 3),
            direction: Direction::West,
            rotation: 1,
            cook_data: 170,
        })
    );
    assert_eq!(
        OracleEntity::parse("67;1,2").unwrap_err(),
        "checkpoint entity has no id separator: \"67;1,2\""
    );
    assert_eq!(
        OracleEntity::parse("67:1,2,3").unwrap_err(),
        "checkpoint entity requires 6 fields, got 3 in \"67:1,2,3\""
    );
    assert_eq!(
        OracleEntity::parse("x:1,2,3,0,0,0").unwrap_err(),
        "invalid checkpoint entity id: invalid digit found in string"
    );
    assert_eq!(
        OracleEntity::parse("1:1,,3,0,0,0").unwrap_err(),
        "invalid checkpoint y: cannot parse integer from empty string"
    );
    assert_eq!(
        OracleEntity::parse("1:1,2,3,99,0,0").unwrap_err(),
        "invalid direction value 99"
    );
    assert_eq!(
        OracleEntity::parse("1:1,2,3,0,0,99999999999").unwrap_err(),
        "invalid checkpoint cook data: number too large to fit in target type"
    );
}

#[test]
fn checkpoints_hold_distinct_entities() {
    let checkpoint = OracleCheckpoint::parse("  1:0,0,0,0,0,0;;67:1,1,1,1,0,0; \n").expect("checkpoint");
    assert_eq!(checkpoint.entities.len(), 2);
    assert_eq!(checkpoint.player().map(|p| p.pos), Some(Coord::new(1, 1, 1)));
    let without_player = OracleCheckpoint::parse("1:0,0,0,0,0,0").unwrap();
    assert!(without_player.player().is_none());
    assert_eq!(OracleCheckpoint::parse(" ; ").unwrap_err(), "oracle checkpoint has no entities");
    assert_eq!(
        OracleCheckpoint::parse("1:0,0,0,0,0,0;1:1,1,1,0,0,0").unwrap_err(),
        "oracle checkpoint contains duplicate entity ids"
    );
}

fn sources(replay: &str, trace: &str) -> SegmentSources {
    SegmentSources {
        state: Some(format!("Irock|{PLAYER}|{ISLAND}")),
        replay: Some(replay.to_owned()),
        trace: Some(trace.to_owned()),
    }
}

#[test]
fn segments_pair_each_non_final_action_with_a_checkpoint() {
    let segment = OracleSegment::parse("7-rock", sources("North\nEast\n", "67:1,1,1,0,0,0\n")).expect("segment");
    assert_eq!(segment.ordinal, 7);
    assert_eq!(segment.id, "rock");
    assert_eq!(segment.replay.directions, vec![Direction::North, Direction::East]);
    assert_eq!(segment.checkpoints.len(), 1);
    assert_eq!(segment.entry.push_target_level, "rock");
    assert_eq!(
        OracleSegment::parse("rock", sources("North", "")).unwrap_err(),
        "oracle segment stem has no ordinal: \"rock\""
    );
    assert_eq!(
        OracleSegment::parse("x-rock", sources("North", "")).unwrap_err(),
        "invalid oracle ordinal in \"x-rock\": invalid digit found in string"
    );
    assert_eq!(
        OracleSegment::parse("7-moss", sources("North", "")).unwrap_err(),
        "7-moss entry targets \"rock\" instead of \"moss\""
    );
    assert_eq!(
        OracleSegment::parse("7-rock", sources("North\nEast", "")).unwrap_err(),
        "7-rock has 2 actions but 0 non-final checkpoints"
    );
    assert_eq!(
        OracleSegment::parse("7-rock", sources("sideways", "")).unwrap_err(),
        "invalid direction replay for 7-rock: invalid replay line 1: unknown direction \"sideways\""
    );
    assert_eq!(
        OracleSegment::parse("7-rock", sources("North\nEast", "1:0\n")).unwrap_err(),
        "invalid checkpoint trace for 7-rock: checkpoint entity requires 6 fields, got 1 in \"1:0\""
    );
    let missing = SegmentSources { state: None, replay: None, trace: None };
    assert_eq!(OracleSegment::parse("7-rock", missing).unwrap_err(), "missing entry state for 7-rock");
    let bad_state = SegmentSources { state: Some("Irock|x".to_owned()), replay: None, trace: None };
    assert!(OracleSegment::parse("7-rock", bad_state).unwrap_err().starts_with("invalid entry state for 7-rock: "));
}

fn segment(directions: Vec<Direction>, checkpoints: usize) -> OracleSegment {
    OracleSegment {
        ordinal: 1,
        id: "rock".to_owned(),
        entry: GameState::parse(&format!("Irock|{PLAYER}|{ISLAND}")).unwrap(),
        replay: Replay { directions, removed_undos: 0 },
        checkpoints: (0..checkpoints)
            .map(|i| OracleCheckpoint::parse(&format!("{}:0,0,0,0,0,0", i + 1)).unwrap())
            .collect(),
    }
}

#[test]
fn typed_walkthrough_rejects_a_changed_direction() {
    let segment = segment(vec![Direction::North, Direction::East, Direction::South], 2);
    let mut replay = GuidedReplay::new(&segment);
    assert_eq!(replay.step(Direction::North).unwrap().map(|c| c.entities[0].id), Some(1));
    assert_eq!(
        replay.step(Direction::West).unwrap_err(),
        "rock action 2 is West, expected East"
    );
    assert_eq!(replay.action_index(), 1);
    assert_eq!(replay.step(Direction::East).unwrap().map(|c| c.entities[0].id), Some(2));
    assert!(!replay.complete());
    assert!(replay.step(Direction::South).unwrap().is_none());
    assert!(replay.complete());
    assert_eq!(replay.step(Direction::South).unwrap_err(), "rock replay is already complete");
    assert_eq!(replay.action_index(), 3);
}

#[test]
fn walkthroughs_count_actions_and_need_every_puzzle() {
    let campaign = OracleCampaign {
        segments: vec![segment(vec![Direction::North], 0), segment(vec![Direction::East, Direction::West], 1)],
    };
    assert_eq!(campaign.action_count(), 3);
}

fn numbered(ordinal: usize) -> OracleSegment {
    let mut s = segment(vec![Direction::North], 0);
    s.ordinal = ordinal;
    s
}

#[test]
fn walkthrough_segments_are_put_in_ordinal_order() {
    let campaign = OracleCampaign::from_segments(vec![numbered(2), numbered(3), numbered(1)]).expect("campaign");
    assert_eq!(campaign.segments.iter().map(|s| s.ordinal).collect::<Vec<_>>(), vec![1, 2, 3]);
    assert_eq!(
        OracleCampaign::from_segments(vec![numbered(3), numbered(1)]).unwrap_err(),
        "expected oracle ordinal 2, found 3"
    );
    assert_eq!(
        OracleCampaign::from_segments(vec![numbered(1), numbered(1)]).unwrap_err(),
        "expected oracle ordinal 2, found 1"
    );
    assert!(OracleCampaign::from_segments(vec![]).unwrap().segments.is_empty());
}
