//! A run's summary from its journal rows, as the gateway's live console
//! shows it: the registration the run is named by, its task, the state its
//! game events show, its score and how it ended, its clock, its score
//! history, and the agent messages and notes it shows. Reading the rows
//! from disk, turning game rows into events and picking JSON members out
//! happen outside; the rows come here as plain values.

use vstd::prelude::*;

use crate::observer::gateway::{
    authoritative_game_terminal, game_terminal_spec, int_or, score, score_spec, task_labels, task_labels_spec, EventView, Field,
    StateView,
};
use crate::observer::run::{
    changes, completed_spec, execution_clock, last_anchor, last_of, lemma_last_of, last_row_of, last_scoring, last_segment, listed_task,
    listed_task_name, positions, run_outcome, score_history, status_text, termination_spec, type_names, Lifecycle, RunOutcome,
    ScoreHistory,
};
use crate::sausage::oracle::opt_view;
use crate::text::str_eq;

verus! {

/// The members of a row's payload the summary reads, each when it is a
/// string, and whether the payload is an object at all.
pub struct RowPayload {
    pub is_object: bool,
    pub model: Option<String>,
    pub task: Option<String>,
    pub agent: Option<String>,
    pub effort: Option<String>,
    pub job_name: Option<String>,
    pub disposition: Option<String>,
    pub text: Option<String>,
}

/// What a game row shows once its stored objects are read: the members the
/// scoring rules read, and the state it carries, if it carries one.
pub struct GameEvent {
    pub view: EventView,
    pub state: Option<StateView>,
}

/// A journal row: its `type` and `source` (empty when absent or not
/// strings), its elapsed time and sequence, its payload, and for a game row
/// the event it shows.
pub struct JournalRow {
    pub kind: String,
    pub source: String,
    pub elapsed_ms: Option<u64>,
    pub sequence: Option<u64>,
    pub payload: RowPayload,
    pub event: GameEvent,
}

/// The rows' types.
pub open spec fn kinds(rows: Seq<JournalRow>) -> Seq<Seq<char>> {
    rows.map_values(|r: JournalRow| r.kind@)
}

/// The game rows among the first `k` rows, in order.
pub open spec fn game_rows(rows: Seq<JournalRow>, k: int) -> Seq<int>
    decreases k,
{
    if k <= 0 {
        Seq::empty()
    } else if rows[k - 1].source@ == "game"@ {
        game_rows(rows, k - 1).push(k - 1)
    } else {
        game_rows(rows, k - 1)
    }
}

/// Whether a row is a message of the agent with a text.
pub open spec fn is_message(r: JournalRow) -> bool {
    r.source@ == "agent"@ && r.kind@ == "agent_message"@ && r.payload.text is Some
}

/// The agent's messages among the first `k` rows, in order.
pub open spec fn message_rows(rows: Seq<JournalRow>, k: int) -> Seq<int>
    decreases k,
{
    if k <= 0 {
        Seq::empty()
    } else if is_message(rows[k - 1]) {
        message_rows(rows, k - 1).push(k - 1)
    } else {
        message_rows(rows, k - 1)
    }
}

/// The newest `n` of `s`, newest first.
pub open spec fn newest_first(s: Seq<int>, n: int) -> Seq<int> {
    s.subrange(if s.len() > n { s.len() - n } else { 0 }, s.len() as int).reverse()
}

/// The last of the first `k` rows in which the agent updated its notes.
pub open spec fn last_notes(rows: Seq<JournalRow>, k: int) -> Option<int>
    decreases k,
{
    if k <= 0 {
        None
    } else if rows[k - 1].source@ == "agent"@ && rows[k - 1].kind@ == "experience_updated"@ {
        Some(k - 1)
    } else {
        last_notes(rows, k - 1)
    }
}

/// The last of the first `k` game events that carries a state.
pub open spec fn last_stateful(rows: Seq<JournalRow>, ev: Seq<int>, k: int) -> Option<int>
    decreases k,
{
    if k <= 0 {
        None
    } else if rows[ev[k - 1]].event.state is Some {
        Some(k - 1)
    } else {
        last_stateful(rows, ev, k - 1)
    }
}

/// The empty state `{}`.
pub open spec fn empty_state() -> StateView {
    StateView {
        campaign_score: Field::Absent,
        campaign_solved: Field::Absent,
        campaign_total: Field::Absent,
        campaign_max_score: Field::Absent,
        campaign_level: Field::Absent,
        campaign_scene: Field::Absent,
        campaign_complete: Field::Absent,
        level_reference: Field::Absent,
        level_id: Field::Absent,
        level_title: Field::Absent,
        shift_status: Field::Absent,
        mode: Field::Absent,
        score: Field::Absent,
        complete: Field::Absent,
    }
}

/// The scores of the game events, an event without one counting as 0.
pub open spec fn event_scores(rows: Seq<JournalRow>, ev: Seq<int>) -> Seq<i64> {
    ev.map_values(|i: int| int_or(rows[i].event.view.score, 0))
}

/// A string member, or the empty string.
pub open spec fn text_or_empty(s: Option<String>) -> Seq<char> {
    match s {
        Some(t) => t@,
        None => Seq::empty(),
    }
}

/// A run's summary; row and event positions index the rows and the game
/// events the summary was built from.
pub struct NativeRun {
    pub registration: usize,
    pub task_id: String,
    pub game: &'static str,
    pub task_name: &'static str,
    pub model: String,
    pub agent: String,
    pub effort: String,
    pub job: Option<String>,
    pub total: i64,
    pub objective: String,
    pub outcome: RunOutcome,
    pub live: bool,
    pub orphaned: bool,
    pub events: Vec<usize>,
    pub state_event: Option<usize>,
    pub started_row: Option<usize>,
    pub finished_row: Option<usize>,
    pub consumed_ms: u64,
    pub latest_sequence: u64,
    pub history: ScoreHistory,
    pub execution: (Option<usize>, bool),
    pub recent_messages: Vec<usize>,
    pub notes_row: Option<usize>,
}

/// Whether the run registered by row `g` is one the console lists: its
/// payload is an object naming a model and a listed task.
pub open spec fn run_listed(rows: Seq<JournalRow>, g: int) -> bool {
    let p = rows[g].payload;
    p.is_object && (p.model matches Some(m) && m@.len() > 0) && listed_task(last_segment(text_or_empty(p.task)))
}

/// What the summary of a listed run registered by row `g` says; see the
/// module's description. The score is that of the last game event, else
/// the state's own; the state is that of the last event carrying one, else
/// the empty state.
pub open spec fn run_fields(rows: Seq<JournalRow>, lifecycle: Lifecycle, index: Option<Seq<char>>, g: int, n: NativeRun) -> bool {
    let p = rows[g].payload;
    let task = last_segment(text_or_empty(p.task));
    let ev = game_rows(rows, rows.len() as int);
    let st = last_stateful(rows, ev, ev.len() as int);
    let state = match st {
        Some(j) => rows[ev[j]].event.state->0,
        None => empty_state(),
    };
    let last = if ev.len() > 0 {
        Some(rows[ev.last()].event.view)
    } else {
        None
    };
    let scored = score_spec(task, state, last, index);
    let score = match last {
        Some(e) => match e.score.int_spec() {
            Some(s) => s,
            None => scored.0,
        },
        None => scored.0,
    };
    let finished = last_of(kinds(rows), "segment_finished"@);
    let live = lifecycle == Lifecycle::Live;
    &&& n.registration == g
    &&& n.task_id@ == task
    &&& (n.game@, n.task_name@) == task_labels_spec(task)
    &&& n.model@ == text_or_empty(p.model)
    &&& n.agent@ == text_or_empty(p.agent)
    &&& n.effort@ == match p.effort {
        Some(e) => e@,
        None => "default"@,
    }
    &&& opt_view(n.job) == opt_view(p.job_name)
    &&& n.total == scored.1
    &&& n.objective@ == scored.2
    &&& n.outcome.score == score
    &&& n.outcome.completed == completed_spec(game_terminal_spec(state), score, scored.1)
    &&& n.outcome.termination == termination_spec(
        lifecycle,
        n.outcome.completed,
        match finished {
            Some(f) => opt_view(rows[f].payload.disposition),
            None => None,
        },
    )
    &&& n.outcome.status@ == status_text(lifecycle, n.outcome.completed)
    &&& n.live == live
    &&& n.orphaned == (lifecycle == Lifecycle::Orphaned)
    &&& positions(n.events@) == ev
    &&& n.state_event == match st {
        Some(j) => Some(j as usize),
        None => None,
    }
    &&& n.started_row == if rows.len() > 0 {
        Some(0usize)
    } else {
        None
    }
    &&& n.finished_row == match finished {
        Some(f) => Some(f as usize),
        None => None,
    }
    &&& n.consumed_ms == if rows.len() > 0 {
        match rows.last().elapsed_ms {
            Some(e) => e,
            None => 0,
        }
    } else {
        0
    }
    &&& n.latest_sequence == if rows.len() > 0 {
        match rows.last().sequence {
            Some(s) => s,
            None => 0,
        }
    } else {
        0
    }
    &&& positions(n.history.points@) == changes(event_scores(rows, ev))
    &&& n.history.last_scoring == match last_scoring(event_scores(rows, ev), changes(event_scores(rows, ev))) {
        Some(q) => Some(q as usize),
        None => None,
    }
    &&& match last_anchor(kinds(rows)) {
        Some(i) => n.execution.0 == Some(i as usize) && n.execution.1 == (live && kinds(rows)[i] == "agent_execution_started"@),
        None => n.execution.0 is None && !n.execution.1,
    }
    &&& positions(n.recent_messages@) == newest_first(message_rows(rows, rows.len() as int), 20)
    &&& n.notes_row == match last_notes(rows, rows.len() as int) {
        Some(q) => Some(q as usize),
        None => None,
    }
}

fn row_kinds(rows: &Vec<JournalRow>) -> (r: Vec<String>)
    ensures
        type_names(r@) == kinds(rows@),
{
    let mut out: Vec<String> = Vec::new();
    let mut i: usize = 0;
    while i < rows.len()
        invariant
            i <= rows@.len(),
            type_names(out@) == kinds(rows@).take(i as int),
        decreases rows@.len() - i,
    {
        let ghost before = out@;
        out.push(rows[i].kind.clone());
        assert(type_names(out@) =~= type_names(before).push(rows@[i as int].kind@));
        assert(kinds(rows@).take(i + 1) =~= kinds(rows@).take(i as int).push(rows@[i as int].kind@));
        i += 1;
    }
    assert(kinds(rows@).take(i as int) =~= kinds(rows@));
    out
}

fn game_rows_of(rows: &Vec<JournalRow>) -> (r: Vec<usize>)
    ensures
        positions(r@) == game_rows(rows@, rows@.len() as int),
        forall|j: int| 0 <= j < r@.len() ==> r@[j] < rows@.len(),
{
    let mut out: Vec<usize> = Vec::new();
    let mut i: usize = 0;
    while i < rows.len()
        invariant
            i <= rows@.len(),
            positions(out@) == game_rows(rows@, i as int),
            forall|j: int| 0 <= j < out@.len() ==> out@[j] < i,
        decreases rows@.len() - i,
    {
        if str_eq(rows[i].source.as_str(), "game") {
            let ghost before = out@;
            out.push(i);
            assert(positions(out@) =~= positions(before).push(i as int));
        }
        i += 1;
    }
    out
}

fn message_rows_of(rows: &Vec<JournalRow>) -> (r: Vec<usize>)
    ensures
        positions(r@) == message_rows(rows@, rows@.len() as int),
{
    let mut out: Vec<usize> = Vec::new();
    let mut i: usize = 0;
    while i < rows.len()
        invariant
            i <= rows@.len(),
            positions(out@) == message_rows(rows@, i as int),
        decreases rows@.len() - i,
    {
        let row = &rows[i];
        if str_eq(row.source.as_str(), "agent") && str_eq(row.kind.as_str(), "agent_message") && row.payload.text.is_some() {
            let ghost before = out@;
            out.push(i);
            assert(positions(out@) =~= positions(before).push(i as int));
        }
        i += 1;
    }
    out
}

fn newest(items: &Vec<usize>, n: usize) -> (r: Vec<usize>)
    ensures
        positions(r@) == newest_first(positions(items@), n as int),
{
    let len = items.len();
    let start: usize = if len > n {
        len - n
    } else {
        0
    };
    let ghost want = newest_first(positions(items@), n as int);
    let mut out: Vec<usize> = Vec::new();
    let mut i: usize = len;
    while i > start
        invariant
            len == items@.len(),
            start <= i <= len,
            start == (if len > n { len - n } else { 0 }),
            want == newest_first(positions(items@), n as int),
            positions(out@) == want.take(len - i),
        decreases i,
    {
        let ghost before = out@;
        out.push(items[i - 1]);
        assert(want[len - i] == items@[i - 1] as int);
        assert(positions(out@) =~= positions(before).push(items@[i - 1] as int));
        assert(want.take(len - i + 1) =~= want.take(len - i).push(want[len - i]));
        i -= 1;
    }
    assert(want.take(len - start) =~= want);
    out
}

fn last_notes_of(rows: &Vec<JournalRow>) -> (r: Option<usize>)
    ensures
        match last_notes(rows@, rows@.len() as int) {
            Some(q) => r == Some(q as usize),
            None => r is None,
        },
{
    let mut i: usize = rows.len();
    while i > 0
        invariant
            i <= rows@.len(),
            last_notes(rows@, rows@.len() as int) == last_notes(rows@, i as int),
        decreases i,
    {
        if str_eq(rows[i - 1].source.as_str(), "agent") && str_eq(rows[i - 1].kind.as_str(), "experience_updated") {
            return Some(i - 1);
        }
        i -= 1;
    }
    None
}

fn last_stateful_of(rows: &Vec<JournalRow>, ev: &Vec<usize>) -> (r: Option<usize>)
    requires
        forall|j: int| 0 <= j < ev@.len() ==> ev@[j] < rows@.len(),
    ensures
        match last_stateful(rows@, positions(ev@), ev@.len() as int) {
            Some(q) => r == Some(q as usize),
            None => r is None,
        },
{
    let ghost pe = positions(ev@);
    let mut i: usize = ev.len();
    while i > 0
        invariant
            i <= ev@.len(),
            pe == positions(ev@),
            forall|j: int| 0 <= j < ev@.len() ==> ev@[j] < rows@.len(),
            last_stateful(rows@, pe, ev@.len() as int) == last_stateful(rows@, pe, i as int),
        decreases i,
    {
        assert(pe[i - 1] == ev@[i - 1] as int);
        if rows[ev[i - 1]].event.state.is_some() {
            return Some(i - 1);
        }
        i -= 1;
    }
    None
}

fn text_copy(s: &Option<String>) -> (r: Option<String>)
    ensures
        opt_view(r) == opt_view(*s),
{
    match s {
        Some(t) => Some(t.clone()),
        None => None,
    }
}

fn event_scores_of(rows: &Vec<JournalRow>, ev: &Vec<usize>) -> (r: Vec<i64>)
    requires
        forall|j: int| 0 <= j < ev@.len() ==> ev@[j] < rows@.len(),
    ensures
        r@ == event_scores(rows@, positions(ev@)),
{
    let ghost want = event_scores(rows@, positions(ev@));
    let mut out: Vec<i64> = Vec::new();
    let mut i: usize = 0;
    while i < ev.len()
        invariant
            i <= ev@.len(),
            forall|j: int| 0 <= j < ev@.len() ==> ev@[j] < rows@.len(),
            want == event_scores(rows@, positions(ev@)),
            out@ == want.take(i as int),
        decreases ev@.len() - i,
    {
        let value = match rows[ev[i]].event.view.score.as_i64() {
            Some(v) => v,
            None => 0,
        };
        assert(want[i as int] == value);
        out.push(value);
        assert(want.take(i + 1) =~= want.take(i as int).push(value));
        i += 1;
    }
    assert(want.take(i as int) =~= want);
    out
}

fn empty_state_value() -> (r: StateView)
    ensures
        r == empty_state(),
{
    StateView {
        campaign_score: Field::Absent,
        campaign_solved: Field::Absent,
        campaign_total: Field::Absent,
        campaign_max_score: Field::Absent,
        campaign_level: Field::Absent,
        campaign_scene: Field::Absent,
        campaign_complete: Field::Absent,
        level_reference: Field::Absent,
        level_id: Field::Absent,
        level_title: Field::Absent,
        shift_status: Field::Absent,
        mode: Field::Absent,
        score: Field::Absent,
        complete: Field::Absent,
    }
}

/// The summary of the run the rows journal, `lifecycle` telling whether a
/// writer still holds it and `parabox_index` being the level index the
/// parabox scoring reads: `None` unless the last registration names a
/// model and a listed task (see [`run_listed`]); else see [`run_fields`].
pub fn native_run(rows: &Vec<JournalRow>, lifecycle: Lifecycle, parabox_index: Option<&str>) -> (r: Option<NativeRun>)
    ensures
        match last_of(kinds(rows@), "segment_registered"@) {
            None => r is None,
            Some(g) => if run_listed(rows@, g) {
                r matches Some(n) && run_fields(
                    rows@,
                    lifecycle,
                    match parabox_index {
                        Some(i) => Some(i@),
                        None => None,
                    },
                    g,
                    n,
                )
            } else {
                r is None
            },
        },
{
    let types = row_kinds(rows);
    proof {
        lemma_last_of(type_names(types@), "segment_registered"@);
        lemma_last_of(type_names(types@), "segment_finished"@);
    }
    let found = last_row_of(&types, "segment_registered");
    assert(type_names(types@) == kinds(rows@));
    let g = match found {
        Some(g) => g,
        None => {
            return None;
        },
    };
    assert(g < rows@.len());
    let p = &rows[g].payload;
    assert(last_of(type_names(types@), "segment_registered"@) == Some(g as int));
    assert(rows@[g as int].payload == *p);
    assert(last_of(kinds(rows@), "segment_registered"@) == Some(g as int));
    if !p.is_object {
        assert(!run_listed(rows@, g as int));
        return None;
    }
    let model = match &p.model {
        Some(m) => {
            if m.as_str().unicode_len() == 0 {
                assert(!run_listed(rows@, g as int));
                return None;
            }
            m.clone()
        },
        None => {
            return None;
        },
    };
    let path: &str = match &p.task {
        Some(t) => t.as_str(),
        None => "",
    };
    proof {
        reveal_strlit("");
    }
    assert(path@ == text_or_empty(p.task));
    let task = match listed_task_name(path) {
        Some(t) => t,
        None => {
            return None;
        },
    };
    let ev = game_rows_of(rows);
    let st = last_stateful_of(rows, &ev);
    let empty = empty_state_value();
    let state: &StateView = match st {
        Some(j) => {
            proof {
                lemma_last_stateful(rows@, positions(ev@), ev@.len() as int);
            }
            match &rows[ev[j]].event.state {
                Some(s) => s,
                None => &empty,
            }
        },
        None => &empty,
    };
    let last: Option<&EventView> = if ev.len() > 0 {
        Some(&rows[ev[ev.len() - 1]].event.view)
    } else {
        None
    };
    let (state_score, total, objective) = score(task.as_str(), state, last, parabox_index);
    let last_score = match last {
        Some(e) => e.score.as_i64(),
        None => None,
    };
    let finished = last_row_of(&types, "segment_finished");
    let disposition: Option<&str> = match finished {
        Some(f) => match &rows[f].payload.disposition {
            Some(d) => Some(d.as_str()),
            None => None,
        },
        None => None,
    };
    let terminal = authoritative_game_terminal(state);
    let outcome = run_outcome(terminal, state_score, last_score, total, lifecycle, disposition);
    let live = lifecycle == Lifecycle::Live;
    let orphaned = lifecycle == Lifecycle::Orphaned;
    let scores = event_scores_of(rows, &ev);
    let history = score_history(&scores);
    let execution = execution_clock(&types, live);
    let messages = message_rows_of(rows);
    let recent_messages = newest(&messages, 20);
    let notes_row = last_notes_of(rows);
    let (game, task_name) = task_labels(task.as_str());
    let agent = match &p.agent {
        Some(a) => a.clone(),
        None => String::new(),
    };
    let effort = match &p.effort {
        Some(e) => e.clone(),
        None => String::from_str("default"),
    };
    let job = text_copy(&p.job_name);
    let n = rows.len();
    let consumed_ms = if n > 0 {
        match rows[n - 1].elapsed_ms {
            Some(e) => e,
            None => 0,
        }
    } else {
        0
    };
    let latest_sequence = if n > 0 {
        match rows[n - 1].sequence {
            Some(q) => q,
            None => 0,
        }
    } else {
        0
    };
    let started_row = if n > 0 {
        Some(0)
    } else {
        None
    };
    Some(
        NativeRun {
            registration: g,
            task_id: task,
            game,
            task_name,
            model,
            agent,
            effort,
            job,
            total,
            objective,
            outcome,
            live,
            orphaned,
            events: ev,
            state_event: st,
            started_row,
            finished_row: finished,
            consumed_ms,
            latest_sequence,
            history,
            execution,
            recent_messages,
            notes_row,
        },
    )
}

proof fn lemma_last_stateful(rows: Seq<JournalRow>, ev: Seq<int>, k: int)
    ensures
        last_stateful(rows, ev, k) matches Some(j) ==> 0 <= j < k && rows[ev[j]].event.state is Some,
    decreases k,
{
    if k > 0 {
        lemma_last_stateful(rows, ev, k - 1);
    }
}

} // verus!
