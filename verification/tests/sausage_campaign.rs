use benchmark_games::sausage::campaign::{Campaign, IslandMask};
use benchmark_games::sausage::model::{Coord, Direction};

const STATE: &str = "F|1,1,0,2,1,0,,-1,0,0,0,8,0,0,0,*,**3*Happy Pool*0*0";

fn put_int(out: &mut Vec<u8>, value: i32) {
    out.extend_from_slice(&value.to_le_bytes());
}

fn text(out: &mut Vec<u8>, value: &str) {
    let mut length = value.len();
    loop {
        let byte = (length & 0x7f) as u8;
        length >>= 7;
        if length == 0 {
            out.push(byte);
            break;
        }
        out.push(byte | 0x80);
    }
    out.extend_from_slice(value.as_bytes());
}

fn coord(out: &mut Vec<u8>, x: i32, y: i32, z: i32) {
    put_int(out, x);
    put_int(out, y);
    put_int(out, z);
}

/// A small campaign: two islands, one temple with one puzzle.
fn sample() -> Vec<u8> {
    let mut out = Vec::new();
    put_int(&mut out, 2);
    text(&mut out, "start");
    coord(&mut out, 0, 0, 0);
    text(&mut out, "pool");
    coord(&mut out, 10, 20, 0);
    // sausage positions
    put_int(&mut out, 1);
    text(&mut out, "pool");
    put_int(&mut out, 1);
    coord(&mut out, 3, 4, 0);
    put_int(&mut out, 3);
    // player positions
    put_int(&mut out, 1);
    text(&mut out, "pool");
    coord(&mut out, 1, 1, 0);
    put_int(&mut out, 0);
    // temples
    put_int(&mut out, 1);
    text(&mut out, "First");
    put_int(&mut out, 1);
    text(&mut out, "pool");
    // island masks: a 1 x 2 x 2 box
    put_int(&mut out, 1);
    text(&mut out, "pool");
    put_int(&mut out, 1);
    put_int(&mut out, 2);
    put_int(&mut out, 2);
    for value in [5, 6, 7, 8] {
        put_int(&mut out, value);
    }
    coord(&mut out, -1, -2, -3);
    // projections
    put_int(&mut out, 1);
    text(&mut out, "pool");
    put_int(&mut out, 1);
    text(&mut out, "start");
    put_int(&mut out, 2);
    put_int(&mut out, 1);
    out.extend_from_slice(&[0, 9]);
    // coast data: one island, one group, one coordinate
    put_int(&mut out, 1);
    text(&mut out, "pool");
    put_int(&mut out, 1);
    put_int(&mut out, 7);
    put_int(&mut out, 1);
    coord(&mut out, 1, 2, 3);
    // splash data: none
    put_int(&mut out, 0);
    // bbq: one island without coordinates
    put_int(&mut out, 1);
    text(&mut out, "pool");
    put_int(&mut out, 0);
    // trees: one island with one tree
    put_int(&mut out, 1);
    text(&mut out, "pool");
    put_int(&mut out, 1);
    coord(&mut out, 4, 4, 0);
    put_int(&mut out, 2);
    // states
    text(&mut out, STATE);
    put_int(&mut out, 2);
    text(&mut out, "start");
    text(&mut out, STATE);
    text(&mut out, "pool");
    text(&mut out, STATE);
    out
}

#[test]
fn reads_every_section_of_a_campaign() {
    let campaign = Campaign::read(&sample()).expect("valid campaign");
    assert_eq!(campaign.island_names, vec!["start".to_owned(), "pool".to_owned()]);
    assert_eq!(campaign.offsets[1], ("pool".to_owned(), Coord::new(10, 20, 0)));
    assert_eq!(campaign.sausage_positions[0].1.len(), 1);
    assert_eq!(campaign.sausage_positions[0].1[0].direction, Direction::East);
    assert_eq!(campaign.player_positions[0].1.pos, Coord::new(1, 1, 0));
    assert_eq!(campaign.temples[0].name, "First");
    assert_eq!(campaign.puzzle_ids(), vec!["pool"]);
    assert_eq!(campaign.puzzle_names().unwrap(), vec!["Happy Pool".to_owned()]);
    let mask = &campaign.island_masks[0].1;
    assert_eq!(mask.dimensions, [1, 2, 2]);
    assert_eq!(mask.cells, vec![5, 6, 7, 8]);
    assert_eq!(mask.offset, Coord::new(-1, -2, -3));
    let projection = &campaign.projection_compatibilities[0].1[0].1;
    assert_eq!(projection.dimensions, [2, 1]);
    assert_eq!(projection.cells, vec![false, true]);
    assert_eq!(campaign.island_state_sources.len(), 2);
    assert_eq!(campaign.merged_state().unwrap().tile_set, 3);
    assert_eq!(campaign.island_state("pool").unwrap().display_name, "Happy Pool");
    assert_eq!(
        campaign.island_state("elsewhere").unwrap_err(),
        "unknown island \"elsewhere\""
    );
}

#[test]
fn truncated_and_trailing_data_are_refused() {
    let data = sample();
    assert_eq!(
        Campaign::read(&data[..2]).unwrap_err(),
        "binary read failed at byte 0: failed to fill whole buffer"
    );
    let mut longer = data.clone();
    longer.push(0);
    assert_eq!(
        Campaign::read(&longer).unwrap_err(),
        format!("trailing campaign data at byte {}", data.len())
    );
    let mut negative = Vec::new();
    put_int(&mut negative, -3);
    assert_eq!(
        Campaign::read(&negative).unwrap_err(),
        "negative island count -3 at byte 0"
    );
}

#[test]
fn bad_directions_and_strings_are_refused() {
    let mut data = Vec::new();
    put_int(&mut data, 0);
    put_int(&mut data, 0);
    put_int(&mut data, 1);
    text(&mut data, "pool");
    coord(&mut data, 0, 0, 0);
    put_int(&mut data, 12);
    assert_eq!(
        Campaign::read(&data).unwrap_err(),
        "invalid direction value 12"
    );
    let mut bad_text = Vec::new();
    put_int(&mut bad_text, 1);
    bad_text.extend_from_slice(&[1, 0xff]);
    assert!(Campaign::read(&bad_text)
        .unwrap_err()
        .starts_with("invalid UTF-8 string ending at byte 6: "));
    let mut long_length = Vec::new();
    put_int(&mut long_length, 1);
    long_length.extend_from_slice(&[0xff; 11]);
    assert!(Campaign::read(&long_length)
        .unwrap_err()
        .starts_with("invalid 7-bit string length at byte"));
}

#[test]
fn oversized_masks_are_refused() {
    let mut data = Vec::new();
    for _ in 0..4 {
        put_int(&mut data, 0);
    }
    put_int(&mut data, 1);
    text(&mut data, "pool");
    put_int(&mut data, i32::MAX);
    put_int(&mut data, i32::MAX);
    put_int(&mut data, i32::MAX);
    assert_eq!(
        Campaign::read(&data).unwrap_err(),
        "island-mask dimensions overflow"
    );
}

#[test]
fn island_masks_index_depth_first() {
    let mask = IslandMask {
        dimensions: [2, 2, 3],
        cells: (0..12).collect(),
        offset: Coord::zero(),
    };
    assert_eq!(mask.get(Coord::new(0, 0, 0)), Some(0));
    assert_eq!(mask.get(Coord::new(0, 0, 2)), Some(2));
    assert_eq!(mask.get(Coord::new(0, 1, 0)), Some(3));
    assert_eq!(mask.get(Coord::new(1, 0, 0)), Some(6));
    assert_eq!(mask.get(Coord::new(1, 1, 2)), Some(11));
    assert_eq!(mask.get(Coord::new(2, 0, 0)), None);
    assert_eq!(mask.get(Coord::new(-1, 0, 0)), None);
    let short = IslandMask {
        dimensions: [2, 2, 3],
        cells: vec![1],
        offset: Coord::zero(),
    };
    assert_eq!(short.get(Coord::new(1, 0, 0)), None);
}
