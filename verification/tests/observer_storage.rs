use benchmark_games::observer::storage::{
    check_object, digest, journal_source, journal_sources, restore_journal, valid_object_id, validate_journal,
    JournalChunk, JournalIndex, JournalLine, DEFAULT_CHUNK_BYTES, JOURNAL_INDEX,
};

const SCHEMA: &str = "run-event-schema";

fn chunk(file: &str, first: u64, last: u64, bytes: u64) -> JournalChunk {
    JournalChunk {
        file: file.to_string(),
        first_sequence: first,
        last_sequence: last,
        records: last - first + 1,
        uncompressed_bytes: bytes,
        compressed_bytes: bytes / 2,
        content_sha256: String::new(),
    }
}

fn index(chunks: Vec<JournalChunk>) -> JournalIndex {
    let mut index = JournalIndex::fresh();
    index.chunks = chunks;
    index
}

fn row(sequence: u64) -> JournalLine {
    JournalLine::Row { schema: Some(SCHEMA.to_string()), sequence: Some(sequence) }
}

#[test]
fn incomplete_and_reordered_journals_are_rejected() {
    assert!(validate_journal(false, &vec![JournalLine::Row { schema: None, sequence: Some(1) }], SCHEMA).is_err());
    assert!(validate_journal(true, &vec![row(1), row(1)], SCHEMA).is_err());
    assert!(validate_journal(true, &vec![row(1)], SCHEMA).is_ok());
}

#[test]
fn journal_errors_name_the_first_problem() {
    assert_eq!(
        validate_journal(false, &vec![], SCHEMA),
        Err("journal has an incomplete final record".to_string())
    );
    assert_eq!(validate_journal(true, &vec![], SCHEMA), Ok(()));
    let other = JournalLine::Row { schema: Some("other".to_string()), sequence: Some(1) };
    assert_eq!(validate_journal(true, &vec![other], SCHEMA), Err("unsupported run event schema".to_string()));
    let missing = JournalLine::Row { schema: Some(SCHEMA.to_string()), sequence: None };
    assert_eq!(validate_journal(true, &vec![missing], SCHEMA), Err("missing run sequence".to_string()));
    let lines = vec![row(1), JournalLine::Blank, row(3), row(2)];
    assert_eq!(validate_journal(true, &lines, SCHEMA), Err("run sequence is not increasing".to_string()));
    let lines = vec![row(1), JournalLine::Unreadable("bad json".to_string()), row(0)];
    assert_eq!(validate_journal(true, &lines, SCHEMA), Err("bad json".to_string()));
    assert_eq!(validate_journal(true, &vec![row(0)], SCHEMA), Err("run sequence is not increasing".to_string()));
}

#[test]
fn journal_indexes_accept_only_ordered_history_chunks() {
    let fresh = JournalIndex::fresh();
    assert_eq!(fresh.chunk_bytes, DEFAULT_CHUNK_BYTES);
    assert_eq!(fresh.check(), Ok(()));
    assert_eq!(index(vec![chunk("history/a.zst", 1, 5, 10), chunk("history/b.zst", 6, 6, 10)]).check(), Ok(()));
    let invalid = Err("invalid journal chunk index".to_string());
    assert_eq!(index(vec![chunk("history/../a", 1, 5, 10)]).check(), invalid);
    assert_eq!(index(vec![chunk("other/a", 1, 5, 10)]).check(), invalid);
    assert_eq!(index(vec![chunk("history/a/b", 1, 5, 10)]).check(), invalid);
    assert_eq!(index(vec![chunk("history/a", 0, 5, 10)]).check(), invalid);
    assert_eq!(index(vec![chunk("history/a", 3, 2, 10)]).check(), invalid);
    assert_eq!(index(vec![chunk("history/a", 1, 5, 10), chunk("history/b", 5, 7, 10)]).check(), invalid);
    assert_eq!(index(vec![chunk("history/a", 1, 5, DEFAULT_CHUNK_BYTES as u64 + 1)]).check(), invalid);
    let mut wrong = JournalIndex::fresh();
    wrong.schema = "benchmark-journal-index-v1".to_string();
    assert_eq!(wrong.check(), Err("unsupported journal index schema".to_string()));
    let mut zero = JournalIndex::fresh();
    zero.chunk_bytes = 0;
    assert_eq!(zero.check(), Err("unsupported journal index schema".to_string()));
}

#[test]
fn journal_sources_list_chunks_then_the_tail() {
    let sealed = index(vec![chunk("history/a", 1, 5, 10)]);
    assert_eq!(journal_sources(&sealed, true, true), vec!["history/a", "journal.jsonl"]);
    assert_eq!(journal_sources(&sealed, false, true), vec!["history/a"]);
    let empty = JournalIndex::fresh();
    assert_eq!(journal_sources(&empty, false, true), vec!["journal.jsonl.zst"]);
    assert!(journal_sources(&empty, false, false).is_empty());
    assert_eq!(journal_source(true, true), "journal.jsonl");
    assert_eq!(journal_source(false, true), JOURNAL_INDEX);
    assert_eq!(journal_source(false, false), "journal.jsonl.zst");
    assert!(restore_journal(false, false, true));
    assert!(!restore_journal(true, false, true));
    assert!(!restore_journal(false, true, true));
    assert!(!restore_journal(false, false, false));
}

#[test]
fn object_ids_are_sixty_four_hex_digits() {
    let id = "e3b0c44298fc1c149afbf4c8996fb92427ae41e4649b934ca495991b7852b855";
    assert!(valid_object_id(id));
    assert!(valid_object_id(&id.to_uppercase()));
    assert!(!valid_object_id(&id[1..]));
    assert!(!valid_object_id(&format!("{}g", &id[1..])));
}

#[test]
fn digests_are_lowercase_sha256() {
    assert_eq!(digest(b""), "e3b0c44298fc1c149afbf4c8996fb92427ae41e4649b934ca495991b7852b855");
    assert_eq!(digest(b"abc"), "ba7816bf8f01cfea414140de5dae2223b00361a396177a9cb410ff61f20015ad");
}

#[test]
fn stored_objects_are_checked_by_length_then_digest() {
    let bytes = br#"{"state":[1,2,3]}"#;
    let hash = digest(bytes);
    assert_eq!(check_object(&hash, Some(bytes.len() as u64), Some(&hash), bytes), Ok(()));
    assert_eq!(check_object(&hash, None, None, bytes), Ok(()));
    let short = check_object(&hash, Some(3), Some("bad"), bytes).unwrap_err();
    assert_eq!(short, format!("observer object {hash} length mismatch"));
    let corrupt = check_object(&hash, Some(bytes.len() as u64), Some("bad"), bytes).unwrap_err();
    assert!(corrupt.contains("checksum"));
    assert_eq!(corrupt, format!("observer object {hash} checksum mismatch"));
}
