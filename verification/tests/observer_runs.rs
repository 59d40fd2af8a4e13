use benchmark_games::observer::index::{
    fully_indexed, index_row, line_step, record_score, resume_offset, IndexCursor, LineStep, RowStep, RECORD_LIMIT,
};
use benchmark_games::observer::replay::{project_replay, ReplayFrame};
use benchmark_games::observer::run::{
    execution_clock, last_row_of, listed_task_name, run_outcome, score_history, task_segment, unsealed, Lifecycle,
    Termination,
};

fn frame(sequence: u64, command: &str, state: &str, score_delta: i64) -> ReplayFrame {
    ReplayFrame {
        sequence: Some(sequence),
        command: command.to_string(),
        state: Some(state.as_bytes().to_vec()),
        score_delta,
    }
}

fn keys(frames: &[ReplayFrame], undone: &[bool], wanted: Option<bool>) -> Vec<String> {
    frames
        .iter()
        .zip(undone)
        .filter(|(_, u)| wanted.is_none_or(|w| **u == w))
        .map(|(f, _)| {
            if f.command == "initial" {
                "initial".to_string()
            } else {
                f.sequence.unwrap().to_string()
            }
        })
        .collect()
}

#[test]
fn projection_eliminates_undo_redo_and_meta_frames() {
    let frames = vec![
        frame(0, "initial", "A", 0),
        frame(2, "move", "B", 0),
        frame(3, "move", "C", 0),
        frame(4, "undo", "B", 0),
        frame(5, "move", "D", 0),
        frame(6, "undo", "B", 0),
        frame(7, "redo", "D", 0),
        frame(8, "move", "E", 1),
    ];
    let projection = project_replay(&frames);
    assert_eq!(keys(&frames, &projection.undone, Some(false)), ["initial", "2", "5", "8"]);
    assert_eq!(keys(&frames, &projection.undone, None), ["initial", "2", "3", "4", "5", "6", "7", "8"]);
    assert_eq!(projection.eliminated, 4);
    assert_eq!(projection.operations.len(), 3);
}

#[test]
fn undo_past_the_page_start_stays_visible() {
    let frames = vec![frame(0, "initial", "B", 0), frame(2, "undo", "A", 0), frame(3, "move", "C", 0)];
    let projection = project_replay(&frames);
    assert_eq!(keys(&frames, &projection.undone, Some(false)), ["initial", "2", "3"]);
}

#[test]
fn reset_hides_itself_and_forgets_the_undone_branch() {
    let frames = vec![
        frame(0, "initial", "A", 0),
        frame(1, "move", "B", 0),
        frame(2, "UNDO", "A", 0),
        frame(3, "Reset", "A", 0),
        frame(4, "redo", "B", 0),
    ];
    let projection = project_replay(&frames);
    assert_eq!(projection.undone, vec![false, true, true, true, false]);
    assert_eq!(projection.eliminated, 3);
    assert_eq!(projection.operations.len(), 1);
    assert_eq!(projection.operations[0].first_frame, 4);
}

#[test]
fn frames_of_one_operation_gather_with_their_score() {
    let frames = vec![
        frame(0, "initial", "A", 0),
        frame(5, "move", "B", 2),
        frame(5, "move", "C", -1),
        frame(6, "move", "D", 4),
    ];
    let projection = project_replay(&frames);
    assert_eq!(projection.eliminated, 0);
    assert_eq!(projection.operations.len(), 2);
    let first = projection.operations[0];
    assert_eq!((first.sequence, first.first_frame, first.last_frame, first.frame_count, first.score_delta), (Some(5), 1, 2, 2, 1));
    let second = projection.operations[1];
    assert_eq!((second.first_frame, second.frame_count, second.score_delta), (3, 1, 4));
}

#[test]
fn redo_restores_up_to_its_target() {
    let frames = vec![
        frame(0, "initial", "A", 0),
        frame(1, "move", "B", 0),
        frame(2, "move", "C", 0),
        frame(3, "undo", "A", 0),
        frame(4, "redo", "B", 0),
    ];
    let projection = project_replay(&frames);
    assert_eq!(projection.undone, vec![false, false, true, true, true]);
}

#[test]
fn listed_tasks_go_by_their_last_segment() {
    assert_eq!(listed_task_name("tasks/benchmark/sokoban"), Some("sokoban".to_string()));
    assert_eq!(listed_task_name("kitchen-terminal"), Some("kitchen-terminal".to_string()));
    assert_eq!(listed_task_name("sokoban/extra"), None);
    assert_eq!(listed_task_name("tasks/"), None);
}

fn types(names: &[&str]) -> Vec<String> {
    names.iter().map(|n| n.to_string()).collect()
}

#[test]
fn a_segment_stays_open_until_a_later_finish() {
    assert!(!unsealed(&types(&[])));
    assert!(unsealed(&types(&["segment_registered", "game_event"])));
    assert!(!unsealed(&types(&["segment_registered", "segment_finished"])));
    assert!(unsealed(&types(&["segment_registered", "segment_finished", "segment_registered"])));
    assert_eq!(last_row_of(&types(&["a", "b", "a"]), "a"), Some(2));
    assert_eq!(last_row_of(&types(&["a", "b"]), "c"), None);
}

#[test]
fn the_clock_runs_only_after_a_live_start() {
    let rows = types(&["segment_registered", "agent_execution_started", "game_event"]);
    assert_eq!(execution_clock(&rows, true), (Some(1), true));
    assert_eq!(execution_clock(&rows, false), (Some(1), false));
    let stopped = types(&["agent_execution_started", "agent_execution_finished"]);
    assert_eq!(execution_clock(&stopped, true), (Some(1), false));
    assert_eq!(execution_clock(&types(&["game_event"]), true), (None, false));
}

#[test]
fn score_history_keeps_each_change() {
    let history = score_history(&vec![0, 0, 2, 2, 5, 0]);
    assert_eq!(history.points, vec![0, 2, 4, 5]);
    assert_eq!(history.last_scoring, Some(4));
    let flat = score_history(&vec![0, 0]);
    assert_eq!(flat.points, vec![0]);
    assert_eq!(flat.last_scoring, None);
    assert!(score_history(&vec![]).points.is_empty());
}

#[test]
fn outcomes_follow_lifecycle_then_completion_then_disposition() {
    let live = run_outcome(false, 0, None, 10, Lifecycle::Live, None);
    assert_eq!((live.termination, live.status), (Termination::Live, "running"));
    let done = run_outcome(false, 3, Some(10), 10, Lifecycle::Orphaned, None);
    assert_eq!((done.score, done.completed, done.termination, done.status), (10, true, Termination::Completed, "finished"));
    let orphan = run_outcome(false, 3, None, 10, Lifecycle::Orphaned, None);
    assert_eq!((orphan.termination, orphan.status), (Termination::Orphaned, "orphaned"));
    assert_eq!(orphan.termination.reason(), Some("active segment has no recorder lease"));
    let stopped = run_outcome(false, 0, None, 0, Lifecycle::Finished, Some("agent_stopped"));
    assert_eq!((stopped.termination.kind(), stopped.termination.resumable()), ("agent_stopped", false));
    let failed = run_outcome(false, 0, None, 0, Lifecycle::Finished, Some("error"));
    assert_eq!((failed.termination.kind(), failed.termination.reason()), ("resumable", Some("infrastructure error")));
    let cancelled = run_outcome(false, 0, None, 0, Lifecycle::Finished, Some("cancelled"));
    assert_eq!((cancelled.termination.kind(), cancelled.termination.resumable()), ("stopped", true));
    let other = run_outcome(false, 0, None, 0, Lifecycle::Finished, Some("timeout"));
    assert_eq!((other.termination, other.termination.reason()), (Termination::Interrupted, None));
    let terminal = run_outcome(true, 0, None, 0, Lifecycle::Finished, None);
    assert_eq!(terminal.termination, Termination::Completed);
}

#[test]
fn reading_resumes_only_inside_a_plain_journal() {
    assert_eq!(resume_offset(true, Some(40), 100), 40);
    assert_eq!(resume_offset(true, Some(140), 100), 0);
    assert_eq!(resume_offset(true, None, 100), 0);
    assert_eq!(resume_offset(false, Some(40), 100), 0);
    assert!(fully_indexed(true, 100, 100));
    assert!(!fully_indexed(true, 90, 100));
    assert!(fully_indexed(false, 90, 100));
}

#[test]
fn lines_are_framed_by_their_newline_and_size() {
    assert_eq!(line_step(0, false, true, false, 7), (LineStep::End, 7));
    assert_eq!(line_step(RECORD_LIMIT + 1, true, true, false, 7).0, LineStep::TooLarge);
    assert_eq!(LineStep::TooLarge.error(), Some("journal record exceeds memory limit"));
    assert_eq!(line_step(5, false, true, false, 7), (LineStep::Tail, 7));
    assert_eq!(line_step(5, false, false, false, 7), (LineStep::Incomplete, 7));
    assert_eq!(LineStep::Incomplete.error(), Some("incomplete archived record"));
    assert_eq!(line_step(3, true, true, true, 7), (LineStep::Blank, 10));
    assert_eq!(line_step(5, true, false, false, 7), (LineStep::Record, 12));
    assert_eq!(LineStep::Record.error(), None);
}

#[test]
fn rows_are_indexed_once_and_hidden_until_a_model_registers() {
    let mut cursor = IndexCursor::new();
    assert_eq!(index_row(&mut cursor, None, "game", "game_event", None, None), Err("missing journal sequence".to_string()));
    assert_eq!(index_row(&mut cursor, Some(1), "game", "game_event", None, None), Ok(RowStep::Dropped));
    assert_eq!(
        index_row(&mut cursor, Some(2), "runtime", "segment_registered", Some("tasks/sokoban"), Some("m")),
        Ok(RowStep::Kept)
    );
    assert_eq!(cursor.task, "sokoban");
    assert!(cursor.visible);
    assert_eq!(index_row(&mut cursor, Some(3), "game", "game_event", None, None), Ok(RowStep::Game));
    assert_eq!(index_row(&mut cursor, Some(3), "game", "game_event", None, None), Ok(RowStep::Stale));
    assert_eq!(index_row(&mut cursor, Some(4), "agent", "agent_thinking", None, None), Ok(RowStep::Dropped));
    assert_eq!(index_row(&mut cursor, Some(5), "agent", "agent_message", None, None), Ok(RowStep::Kept));
    assert_eq!(cursor.sequence, 5);
    assert_eq!(
        index_row(&mut cursor, Some(6), "runtime", "segment_registered", Some("minesweeper"), Some("")),
        Ok(RowStep::Kept)
    );
    assert!(!cursor.visible);
    assert_eq!(task_segment("a/b/c"), "c");
}

#[test]
fn scores_are_recorded_when_they_change() {
    let mut cursor = IndexCursor::new();
    assert_eq!(record_score(&mut cursor, None), Some(0));
    assert_eq!(record_score(&mut cursor, Some(0)), None);
    assert_eq!(record_score(&mut cursor, Some(3)), Some(3));
    assert_eq!(record_score(&mut cursor, None), None);
    assert_eq!(cursor.previous_score, Some(3));
}
