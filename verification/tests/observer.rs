use benchmark_games::observer::gateway::{
    authoritative_game_terminal, experience, newest, parabox_title, safe_id, score, task_labels, EventView,
    Field, StateView,
};
use benchmark_games::observer::publish::natural_key;

#[test]
fn safe_ids_reject_paths() {
    assert!(safe_id("parabox-run_1"));
    assert!(!safe_id("../journal"));
    assert!(!safe_id("run/child"));
}

#[test]
fn safe_ids_are_nonempty_ascii() {
    assert!(!safe_id(""));
    assert!(safe_id("v1.2"));
    assert!(!safe_id("run child"));
    assert!(!safe_id("caf\u{e9}"));
    assert!(!safe_id("a\\b"));
}

#[test]
fn level_references_sort_naturally() {
    let mut references = vec!["a10", "a2", "b1", "microban-010", "microban-009", "a1"];
    references.sort_by_key(|reference| natural_key(reference));
    assert_eq!(references, vec!["a1", "a2", "a10", "b1", "microban-009", "microban-010"]);
}

#[test]
fn natural_keys_split_digit_runs() {
    assert_eq!(
        natural_key("Level12b"),
        vec![
            (1, 0, "level".to_owned()),
            (0, 12, String::new()),
            (1, 0, "b".to_owned()),
        ]
    );
    assert_eq!(natural_key(""), Vec::new());
    assert_eq!(
        natural_key("99999999999999999999999"),
        vec![(0, u64::MAX, String::new())]
    );
}

fn empty_state() -> StateView {
    StateView {
        campaign_score: Field::Absent,
        campaign_solved: Field::Absent,
        campaign_total: Field::Absent,
        campaign_max_score: Field::Absent,
        campaign_level: Field::Absent,
        campaign_scene: Field::Absent,
        campaign_complete: Field::Absent,
        level_reference: Field::Absent,
        level_id: Field::Absent,
        level_title: Field::Absent,
        shift_status: Field::Absent,
        mode: Field::Absent,
        score: Field::Absent,
        complete: Field::Absent,
    }
}

fn text(value: &str) -> Field {
    Field::Text(value.to_owned())
}

#[test]
fn sokoban_uses_campaign_score_and_level_objective() {
    let mut state = empty_state();
    state.campaign_score = Field::Integer(25);
    state.campaign_max_score = Field::Integer(305);
    state.level_id = text("novoban-025");
    state.level_title = text("Novoban 25");
    assert_eq!(
        score("sokoban", &state, None, None),
        (25, 305, "novoban-025 / Novoban 25".to_owned())
    );
    assert_eq!(task_labels("sokoban"), ("sokoban", "Sokoban Classics"));
}

#[test]
fn minesweeper_uses_campaign_score_and_level_objective() {
    let mut state = empty_state();
    state.campaign_score = Field::Integer(2);
    state.campaign_max_score = Field::Integer(12);
    state.level_id = text("cadet-02");
    state.level_title = text("First Perimeter");
    assert_eq!(
        score("minesweeper", &state, None, None),
        (2, 12, "cadet-02 / First Perimeter".to_owned())
    );
    assert_eq!(task_labels("minesweeper"), ("minesweeper", "No-Guess Minesweeper"));
}

#[test]
fn kitchen_uses_shift_score_and_scene_objective() {
    let mut state = empty_state();
    state.campaign_score = Field::Integer(52);
    state.campaign_level = Field::Integer(1);
    state.campaign_scene = text("Skyscraper_Test_1p");
    assert_eq!(
        score("kitchen-terminal", &state, None, None),
        (52, 338, "Level 1 / Skyscraper_Test_1p".to_owned())
    );
    assert_eq!(task_labels("kitchen-terminal"), ("kitchen", "Overcooked Kitchen"));
}

#[test]
fn partial_score_campaign_terminal_is_not_an_agent_stop() {
    let mut complete = empty_state();
    complete.campaign_complete = Field::Boolean(true);
    complete.campaign_score = Field::Integer(1);
    complete.campaign_max_score = Field::Integer(5);
    assert!(authoritative_game_terminal(&complete));
    let mut partial = empty_state();
    partial.campaign_complete = Field::Boolean(false);
    partial.campaign_score = Field::Integer(1);
    partial.campaign_max_score = Field::Integer(5);
    assert!(!authoritative_game_terminal(&partial));
    let mut shift = empty_state();
    shift.shift_status = text("complete");
    assert!(authoritative_game_terminal(&shift));
}

#[test]
fn scores_fall_back_to_defaults_and_events() {
    let state = empty_state();
    assert_eq!(score("sausage-roll", &state, None, None), (0, 86, "Waiting for state".to_owned()));
    assert_eq!(score("sokoban", &state, None, None), (0, 305, "Select a level".to_owned()));
    assert_eq!(score("minesweeper", &state, None, None), (0, 50, "Select a field".to_owned()));
    assert_eq!(score("emergency-operator", &state, None, None), (0, 0, "Start shift".to_owned()));
    assert_eq!(score("kitchen-terminal", &state, None, None), (0, 338, "Level 1 / Kitchen shift".to_owned()));
    assert_eq!(score("curry", &state, None, None), (0, 1_000_000, "Make curry".to_owned()));
    let event = EventView { score: Field::Integer(7), selected: text("a-3") };
    assert_eq!(
        score("parabox-intro", &state, Some(&event), Some("a-1\tFirst\r\na-3\tThird\r\n")),
        (7, 364, "a-3 / Third".to_owned())
    );
    assert_eq!(
        score("parabox-intro", &state, Some(&event), None),
        (7, 364, "a-3 / Waiting for state".to_owned())
    );
    let mut overworld = empty_state();
    overworld.mode = text("overworld");
    overworld.campaign_score = Field::Integer(3);
    assert_eq!(score("sausage-roll", &overworld, None, None).2, "Land's End / 大地图");
    let mut shift = empty_state();
    shift.shift_status = text("running");
    assert_eq!(score("emergency-operator", &shift, None, None).2, "Monitor dispatch");
}

#[test]
fn a_present_score_that_is_not_an_integer_hides_the_solved_count() {
    let mut state = empty_state();
    state.campaign_score = text("many");
    state.campaign_solved = Field::Integer(9);
    let event = EventView { score: Field::Integer(4), selected: Field::Absent };
    assert_eq!(score("parabox-intro", &state, Some(&event), None).0, 4);
    state.campaign_score = Field::Absent;
    assert_eq!(score("parabox-intro", &state, Some(&event), None).0, 9);
}

#[test]
fn index_titles_come_from_the_second_field() {
    assert_eq!(parabox_title(Some("x\tTitle X\ny\tTitle Y"), "y"), Some("Title Y".to_owned()));
    assert_eq!(parabox_title(Some("x\tTitle X\r"), "x"), Some("Title X\r".to_owned()));
    assert_eq!(parabox_title(Some("x\ny\tTitle Y"), "x"), None);
    assert_eq!(parabox_title(None, "x"), None);
    assert_eq!(task_labels("nothing"), ("unknown", "Unknown"));
}

#[test]
fn experience_uses_only_explicit_markdown_bullets() {
    let value = experience(
        "# Current plan\n- try the west route\n# Verified mechanics\n- confirmed: boxes preserve direction\n# Rejected\n- dead-end at the north wall",
        Some(42),
    );
    assert_eq!(value.plan.len(), 1);
    assert_eq!(value.verified.len(), 1);
    assert_eq!(value.rejected.len(), 1);
    assert_eq!(value.updated_at, Some(42));
}

#[test]
fn experience_collapses_whitespace_and_keeps_each_note_once() {
    let value = experience::<i64>(
        "* Solved   the\tfirst  room\n+ solved the first room\n-  \n- note A\n- note A\nplain text\n## 已解\n- anything",
        None,
    );
    assert_eq!(value.solved, vec!["Solved the first room".to_owned(), "solved the first room".to_owned(), "anything".to_owned()]);
    assert_eq!(value.plan, vec!["note A".to_owned()]);
    assert!(value.verified.is_empty() && value.rejected.is_empty());
    assert_eq!(value.updated_at, None);
    let long = format!("- {}", "x".repeat(800));
    let value = experience::<i64>(&long, None);
    assert_eq!(value.plan[0].chars().count(), 700);
    let items = vec!["a".to_owned(), "b".to_owned(), "c".to_owned()];
    assert_eq!(newest(&items, 2), vec!["c".to_owned(), "b".to_owned()]);
    assert_eq!(newest(&items, 8), vec!["c".to_owned(), "b".to_owned(), "a".to_owned()]);
}
