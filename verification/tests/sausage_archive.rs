use std::io::Write;

use benchmark_games::sausage::archive::{file_name_bytes, states_from_archive};
use benchmark_games::sausage::campaign::Campaign;
use benchmark_games::sausage::entries::CampaignEntries;
use benchmark_games::sausage::model::Direction;
use benchmark_games::sausage::oracle::OracleCampaign;

const PLAYER: &str = "1,1,0,2,1,0,,-1,0,0,0,8,0,0,0,";
const ISLAND: &str = "0,0,-3,8,20,8,rock,-1,0,0,0,8,0,0,0,";

fn gz(bytes: &[u8]) -> Vec<u8> {
    let mut encoder = flate2::write::GzEncoder::new(Vec::new(), flate2::Compression::default());
    encoder.write_all(bytes).unwrap();
    encoder.finish().unwrap()
}

/// A gzip-compressed tar archive of regular files (`Some` contents) and
/// directories (`None`).
fn archive(items: &[(&str, Option<&[u8]>)]) -> Vec<u8> {
    let mut builder = tar::Builder::new(Vec::new());
    for (path, contents) in items {
        let mut header = tar::Header::new_gnu();
        match contents {
            Some(data) => {
                header.set_entry_type(tar::EntryType::Regular);
                header.set_size(data.len() as u64);
                header.set_mode(0o644);
                builder.append_data(&mut header, path, *data).unwrap();
            }
            None => {
                header.set_entry_type(tar::EntryType::Directory);
                header.set_size(0);
                header.set_mode(0o755);
                builder.append_data(&mut header, path, std::io::empty()).unwrap();
            }
        }
    }
    gz(&builder.into_inner().unwrap())
}

fn entry_text() -> String {
    format!("Irock|{PLAYER}|{ISLAND}")
}

fn overworld_text() -> String {
    format!("F|{PLAYER}")
}

#[test]
fn gzip_campaigns_read_as_their_decompressed_bytes() {
    for raw in [vec![], vec![2, 0, 0, 0], vec![1, 0, 0, 0, 5, b'a'], vec![0; 45]] {
        assert_eq!(Campaign::load_gzip(&gz(&raw)).err(), Campaign::read(&raw).err());
    }
    assert!(Campaign::load_gzip(b"not a gzip stream").is_err());
}

#[test]
fn file_names_are_the_last_path_component() {
    assert_eq!(file_name_bytes(&b"a/b.state".to_vec()), Some(b"b.state".to_vec()));
    assert_eq!(file_name_bytes(&b"b.state".to_vec()), Some(b"b.state".to_vec()));
    assert_eq!(file_name_bytes(&b"a/b/".to_vec()), Some(b"b".to_vec()));
    assert_eq!(file_name_bytes(&b"a/..".to_vec()), None);
    assert_eq!(file_name_bytes(&b"a/.".to_vec()), Some(b"a".to_vec()));
    assert_eq!(file_name_bytes(&b"".to_vec()), None);
}

#[test]
fn entry_archives_pair_entries_with_overworld_checkpoints() {
    let entry = entry_text();
    let overworld = overworld_text();
    let entries = archive(&[
        ("states", None),
        ("states/1-rock.state", Some(entry.as_bytes())),
        ("states/._1-rock.state", Some(&[0xff, 0xfe])),
    ]);
    let checkpoints = archive(&[("1-rock.state", Some(overworld.as_bytes()))]);
    let loaded = CampaignEntries::load(&entries, &checkpoints).expect("entries");
    assert_eq!(loaded.levels.len(), 1);
    assert_eq!((loaded.levels[0].ordinal, loaded.levels[0].id.as_str()), (1, "rock"));
    assert!(loaded.levels[0].overworld.overworld);

    let states = states_from_archive(&entries, "campaign-entry").expect("states");
    assert_eq!(states.len(), 1);
    assert_eq!((states[0].0, states[0].1.as_str()), (1, "rock"));
}

#[test]
fn entry_archives_refuse_repeats_strangers_and_broken_streams() {
    let entry = entry_text();
    let twice = archive(&[("a/1-rock.state", Some(entry.as_bytes())), ("b/1-rock.state", Some(entry.as_bytes()))]);
    assert_eq!(
        states_from_archive(&twice, "campaign-entry").unwrap_err(),
        "duplicate campaign-entry ordinal 1"
    );
    let stranger = archive(&[("notes.txt", Some(b"hello"))]);
    assert_eq!(
        states_from_archive(&stranger, "campaign-entry").unwrap_err(),
        "unexpected campaign-entry file \"notes.txt\""
    );
    let binary = archive(&[("1-rock.state", Some(&[0xff, 0x00]))]);
    assert_eq!(
        states_from_archive(&binary, "campaign-entry").unwrap_err(),
        "1-rock.state is not UTF-8: stream did not contain valid UTF-8"
    );
    let broken = archive(&[("1-rock.state", Some(b"Irock|x"))]);
    assert!(states_from_archive(&broken, "campaign-entry").unwrap_err().starts_with("invalid campaign-entry 1-rock.state: "));
    assert!(states_from_archive(b"plain", "campaign-entry").unwrap_err().starts_with("invalid campaign-entry archive: "));
    let missing = archive(&[]);
    let entries = archive(&[("1-rock.state", Some(entry.as_bytes()))]);
    assert_eq!(
        CampaignEntries::load(&entries, &missing).unwrap_err(),
        "overworld checkpoint is missing ordinal 1 \"rock\""
    );
}

#[test]
fn walkthrough_archives_group_sources_by_stem() {
    let entry = entry_text();
    let data = archive(&[
        ("walkthrough", None),
        ("walkthrough/2-rock.dem", Some(b"South\n")),
        ("walkthrough/1-rock.state", Some(entry.as_bytes())),
        ("walkthrough/1-rock.dem", Some(b"North\nEast\n")),
        ("walkthrough/1-rock.trace", Some(b"67:1,1,1,0,0,0\n")),
        ("walkthrough/2-rock.state", Some(entry.as_bytes())),
        ("walkthrough/2-rock.trace", Some(b"")),
        ("walkthrough/._2-rock.dem", Some(&[0xff])),
        ("walkthrough/readme.md", Some(b"notes")),
        ("walkthrough/LICENSE", Some(b"text")),
    ]);
    let campaign = OracleCampaign::load(&data).expect("walkthrough");
    assert_eq!(campaign.segments.len(), 2);
    assert_eq!(campaign.segments[0].ordinal, 1);
    assert_eq!(campaign.segments[0].replay.directions, vec![Direction::North, Direction::East]);
    assert_eq!(campaign.segments[0].checkpoints.len(), 1);
    assert_eq!(campaign.segments[1].ordinal, 2);
    assert_eq!(campaign.segments[1].replay.directions, vec![Direction::South]);
    assert_eq!(campaign.action_count(), 3);
}

#[test]
fn walkthrough_archives_report_the_first_bad_puzzle_by_stem() {
    let entry = entry_text();
    let twice = archive(&[("a/1-rock.dem", Some(b"North")), ("b/1-rock.dem", Some(b"East"))]);
    assert_eq!(OracleCampaign::load(&twice).unwrap_err(), "duplicate dem entry for 1-rock");
    let binary = archive(&[("1-rock.trace", Some(&[0xc3]))]);
    assert_eq!(
        OracleCampaign::load(&binary).unwrap_err(),
        "1-rock.trace is not UTF-8: stream did not contain valid UTF-8"
    );
    // "2-rock" lacks its state and "10-rock" its replay; "10-rock" comes first by stem.
    let both = archive(&[
        ("2-rock.dem", Some(b"North")),
        ("2-rock.trace", Some(b"")),
        ("10-rock.state", Some(entry.as_bytes())),
        ("10-rock.trace", Some(b"")),
    ]);
    assert_eq!(OracleCampaign::load(&both).unwrap_err(), "missing direction replay for 10-rock");
    let gap = archive(&[
        ("2-rock.state", Some(entry.as_bytes())),
        ("2-rock.dem", Some(b"North")),
        ("2-rock.trace", Some(b"")),
    ]);
    assert_eq!(OracleCampaign::load(&gap).unwrap_err(), "expected oracle ordinal 1, found 2");
    assert!(OracleCampaign::load(b"plain").unwrap_err().starts_with("invalid oracle archive: "));
}
