use benchmark_games::observer::gateway::{EventView, Field, StateView};
use benchmark_games::observer::native::{native_run, GameEvent, JournalRow, RowPayload};
use benchmark_games::observer::run::{Lifecycle, Termination};

fn empty_state() -> StateView {
    StateView {
        campaign_score: Field::Absent,
        campaign_solved: Field::Absent,
        campaign_total: Field::Absent,
        campaign_max_score: Field::Absent,
        campaign_level: Field::Absent,
        campaign_scene: Field::Absent,
        campaign_complete: Field::Absent,
        level_reference: Field::Absent,
        level_id: Field::Absent,
        level_title: Field::Absent,
        shift_status: Field::Absent,
        mode: Field::Absent,
        score: Field::Absent,
        complete: Field::Absent,
    }
}

fn payload() -> RowPayload {
    RowPayload {
        is_object: true,
        model: None,
        task: None,
        agent: None,
        effort: None,
        job_name: None,
        disposition: None,
        text: None,
    }
}

fn row(kind: &str, source: &str, sequence: u64) -> JournalRow {
    JournalRow {
        kind: kind.to_string(),
        source: source.to_string(),
        elapsed_ms: Some(sequence * 100),
        sequence: Some(sequence),
        payload: payload(),
        event: GameEvent { view: EventView { score: Field::Absent, selected: Field::Absent }, state: None },
    }
}

fn registration(model: &str, task: &str) -> JournalRow {
    let mut r = row("segment_registered", "recorder", 1);
    r.payload.model = Some(model.to_string());
    r.payload.task = Some(task.to_string());
    r.payload.agent = Some("codex".to_string());
    r
}

fn game(sequence: u64, score: i64, max: Option<i64>) -> JournalRow {
    let mut r = row("game_event", "game", sequence);
    r.event.view.score = Field::Integer(score);
    if let Some(max) = max {
        let mut state = empty_state();
        state.campaign_score = Field::Integer(score);
        state.campaign_max_score = Field::Integer(max);
        r.event.state = Some(state);
    }
    r
}

fn message(sequence: u64, text: &str) -> JournalRow {
    let mut r = row("agent_message", "agent", sequence);
    r.payload.text = Some(text.to_string());
    r
}

#[test]
fn runs_need_a_registration_with_a_model_and_a_listed_task() {
    assert!(native_run(&vec![row("game_event", "game", 1)], Lifecycle::Finished, None).is_none());
    assert!(native_run(&vec![registration("", "tasks/sokoban")], Lifecycle::Finished, None).is_none());
    assert!(native_run(&vec![registration("m", "tasks/chess")], Lifecycle::Finished, None).is_none());
    let mut odd = registration("m", "tasks/sokoban");
    odd.payload.is_object = false;
    assert!(native_run(&vec![odd], Lifecycle::Finished, None).is_none());
    assert!(native_run(&vec![registration("m", "sokoban")], Lifecycle::Finished, None).is_some());
}

#[test]
fn summaries_follow_the_game_events() {
    let mut finished = row("segment_finished", "recorder", 9);
    finished.payload.disposition = Some("cancelled".to_string());
    let mut notes = row("experience_updated", "agent", 8);
    notes.payload.text = None;
    let rows = vec![
        registration("gpt", "benchmarks/sokoban"),
        row("agent_execution_started", "recorder", 2),
        game(3, 0, None),
        message(4, "first"),
        game(5, 1, Some(4)),
        game(6, 1, None),
        message(7, "second"),
        notes,
        game(9, 3, None),
        finished,
    ];
    let run = native_run(&rows, Lifecycle::Finished, None).expect("listed run");
    assert_eq!(run.registration, 0);
    assert_eq!(run.task_id, "sokoban");
    assert_eq!((run.game, run.task_name), ("sokoban", "Sokoban Classics"));
    assert_eq!((run.model.as_str(), run.agent.as_str(), run.effort.as_str()), ("gpt", "codex", "default"));
    assert!(run.job.is_none());
    assert_eq!(run.events, vec![2, 4, 5, 8]);
    assert_eq!(run.state_event, Some(1));
    assert_eq!(run.total, 4);
    assert_eq!(run.outcome.score, 3);
    assert!(!run.outcome.completed);
    assert_eq!(run.outcome.termination, Termination::Cancelled);
    assert_eq!(run.outcome.status, "finished");
    assert_eq!(run.started_row, Some(0));
    assert_eq!(run.finished_row, Some(9));
    assert_eq!((run.consumed_ms, run.latest_sequence), (900, 9));
    assert_eq!(run.history.points, vec![0, 1, 3]);
    assert_eq!(run.history.last_scoring, Some(3));
    assert_eq!(run.execution, (Some(9), false));
    assert_eq!(run.recent_messages, vec![6, 3]);
    assert_eq!(run.notes_row, Some(7));
}

#[test]
fn live_and_completed_runs() {
    let rows = vec![registration("gpt", "sokoban"), row("agent_execution_started", "recorder", 2), game(3, 4, Some(4))];
    let live = native_run(&rows, Lifecycle::Live, None).unwrap();
    assert_eq!(live.outcome.termination, Termination::Live);
    assert_eq!(live.outcome.status, "running");
    assert_eq!(live.execution, (Some(1), true));
    let done = native_run(&rows, Lifecycle::Orphaned, None).unwrap();
    assert!(done.outcome.completed);
    assert_eq!(done.outcome.termination, Termination::Completed);
    assert_eq!(done.outcome.status, "finished");
    let mut many = vec![registration("gpt", "sokoban")];
    for k in 0..25 {
        many.push(message(k + 2, "note"));
    }
    let run = native_run(&many, Lifecycle::Finished, None).unwrap();
    assert_eq!(run.recent_messages.len(), 20);
    assert_eq!(run.recent_messages[0], 25);
    assert_eq!(run.recent_messages[19], 6);
}
