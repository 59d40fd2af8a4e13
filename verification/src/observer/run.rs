//! What the gateway says of a run as a whole: the task it played, whether it
//! is still open, how it ended, and the points at which its score changed.
//! Journal rows are read here by their `type` member alone, a missing one
//! standing as the empty string.

use vstd::prelude::*;

use crate::text::{str_eq, string_from_chars, to_chars};

verus! {

/// What follows the last `/` of a task path, or the whole path.
pub open spec fn last_segment(s: Seq<char>) -> Seq<char>
    decreases s.len(),
{
    if s.len() == 0 {
        s
    } else if s.last() == '/' {
        Seq::empty()
    } else {
        last_segment(s.drop_last()).push(s.last())
    }
}

/// The tasks whose runs the gateway lists.
pub open spec fn listed_task(t: Seq<char>) -> bool {
    t == "parabox-intro"@ || t == "swarm-farming"@ || t == "sausage-roll"@ || t == "emergency-operator"@
        || t == "sokoban"@ || t == "minesweeper"@ || t == "kitchen-terminal"@
}

proof fn lemma_last_segment(s: Seq<char>, k: int)
    requires
        0 <= k <= s.len(),
        forall|j: int| k <= j < s.len() ==> s[j] != '/',
        k == 0 || s[k - 1] == '/',
    ensures
        last_segment(s) == s.subrange(k, s.len() as int),
    decreases s.len(),
{
    if s.len() == k {
        if k > 0 {
            assert(s.last() == '/');
        }
        assert(s.subrange(k, s.len() as int) =~= Seq::<char>::empty());
    } else {
        lemma_last_segment(s.drop_last(), k);
        assert(s.drop_last().subrange(k, s.len() - 1).push(s.last()) =~= s.subrange(k, s.len() as int));
    }
}

/// What follows the last `/` of a task path; see [`last_segment`].
pub fn task_segment(path: &str) -> (r: String)
    ensures
        r@ == last_segment(path@),
{
    let cs = to_chars(path);
    let mut start: usize = cs.len();
    while start > 0 && cs[start - 1] != '/'
        invariant
            cs@ == path@,
            start <= cs@.len(),
            forall|j: int| start <= j < cs@.len() ==> cs@[j] != '/',
        decreases start,
    {
        start -= 1;
    }
    let mut tail: Vec<char> = Vec::new();
    let mut i: usize = start;
    while i < cs.len()
        invariant
            cs@ == path@,
            start <= i <= cs@.len(),
            tail@ == cs@.subrange(start as int, i as int),
        decreases cs@.len() - i,
    {
        tail.push(cs[i]);
        assert(cs@.subrange(start as int, i as int).push(cs@[i as int]) =~= cs@.subrange(start as int, i + 1));
        i += 1;
    }
    proof {
        lemma_last_segment(cs@, start as int);
    }
    string_from_chars(tail.as_slice())
}

/// The task a run registered, by its last path segment, when the gateway
/// lists that task; `None` otherwise.
pub fn listed_task_name(task_path: &str) -> (r: Option<String>)
    ensures
        match r {
            Some(name) => name@ == last_segment(task_path@) && listed_task(name@),
            None => !listed_task(last_segment(task_path@)),
        },
{
    let name = task_segment(task_path);
    let s = name.as_str();
    if str_eq(s, "parabox-intro") || str_eq(s, "swarm-farming") || str_eq(s, "sausage-roll") || str_eq(
        s,
        "emergency-operator",
    ) || str_eq(s, "sokoban") || str_eq(s, "minesweeper") || str_eq(s, "kitchen-terminal") {
        Some(name)
    } else {
        None
    }
}

/// The rows' types.
pub open spec fn type_names(types: Seq<String>) -> Seq<Seq<char>> {
    types.map_values(|t: String| t@)
}

/// The index of the last row of type `kind`.
pub open spec fn last_of(types: Seq<Seq<char>>, kind: Seq<char>) -> Option<int>
    decreases types.len(),
{
    if types.len() == 0 {
        None
    } else if types.last() == kind {
        Some(types.len() - 1)
    } else {
        last_of(types.drop_last(), kind)
    }
}

pub(crate) proof fn lemma_last_of(types: Seq<Seq<char>>, kind: Seq<char>)
    ensures
        match last_of(types, kind) {
            Some(i) => 0 <= i < types.len() && types[i] == kind && forall|j: int| i < j < types.len() ==> types[j] != kind,
            None => forall|j: int| 0 <= j < types.len() ==> types[j] != kind,
        },
    decreases types.len(),
{
    if types.len() > 0 {
        let rest = types.drop_last();
        lemma_last_of(rest, kind);
        assert forall|j: int| 0 <= j < rest.len() implies rest[j] == types[j] by {}
    }
}

/// The index of the last row of type `kind`; see [`last_of`]. The gateway
/// finds a run's registration, its finish and its disposition this way.
pub fn last_row_of(types: &Vec<String>, kind: &str) -> (r: Option<usize>)
    ensures
        match last_of(type_names(types@), kind@) {
            Some(i) => r == Some(i as usize),
            None => r is None,
        },
{
    let ghost ts = type_names(types@);
    let mut i: usize = types.len();
    assert(ts.take(i as int) =~= ts);
    while i > 0
        invariant
            i <= types@.len(),
            ts == type_names(types@),
            last_of(ts, kind@) == last_of(ts.take(i as int), kind@),
        decreases i,
    {
        assert(ts.take(i as int).drop_last() =~= ts.take(i - 1));
        if str_eq(types[i - 1].as_str(), kind) {
            return Some(i - 1);
        }
        i -= 1;
    }
    None
}

/// Whether a run's journal is still open: it registered a segment and no
/// row after the last registration finished one.
pub open spec fn unsealed_spec(types: Seq<Seq<char>>) -> bool {
    match last_of(types, "segment_registered"@) {
        Some(i) => !types.subrange(i + 1, types.len() as int).contains("segment_finished"@),
        None => false,
    }
}

/// See [`unsealed_spec`].
pub fn unsealed(types: &Vec<String>) -> (r: bool)
    ensures
        r == unsealed_spec(type_names(types@)),
{
    let ghost ts = type_names(types@);
    proof {
        lemma_last_of(ts, "segment_registered"@);
    }
    let found = last_row_of(types, "segment_registered");
    let registered = match found {
        Some(i) => i,
        None => {
            assert(last_of(ts, "segment_registered"@) is None);
            return false;
        },
    };
    let n = types.len();
    assert(last_of(ts, "segment_registered"@) == Some(registered as int));
    let mut j: usize = registered + 1;
    while j < n
        invariant
            n == types@.len(),
            registered < types@.len(),
            registered + 1 <= j <= types@.len(),
            last_of(ts, "segment_registered"@) == Some(registered as int),
            ts == type_names(types@),
            forall|k: int| registered + 1 <= k < j ==> ts[k] != "segment_finished"@,
        decreases types@.len() - j,
    {
        if str_eq(types[j].as_str(), "segment_finished") {
            proof {
                let sub = ts.subrange(registered + 1, ts.len() as int);
                assert(sub[j - registered - 1] == ts[j as int]);
                assert(sub.contains("segment_finished"@));
            }
            return false;
        }
        j += 1;
    }
    proof {
        let sub = ts.subrange(registered + 1, ts.len() as int);
        if sub.contains("segment_finished"@) {
            let k = choose|k: int| 0 <= k < sub.len() && sub[k] == "segment_finished"@;
            assert(ts[registered + 1 + k] == sub[k]);
        }
    }
    true
}

/// Where a run stands: a writer still holds it, its segment is open with
/// no writer, or it finished.
#[derive(Clone, Copy, Debug, PartialEq, Eq, Structural)]
pub enum Lifecycle {
    Live,
    Orphaned,
    Finished,
}

/// How a run ended, as the gateway reports it.
#[derive(Clone, Copy, Debug, PartialEq, Eq, Structural)]
pub enum Termination {
    Live,
    Completed,
    Orphaned,
    AgentStopped,
    InfrastructureError,
    Cancelled,
    Interrupted,
}

/// The `kind` the gateway reports for a termination.
pub open spec fn kind_text(t: Termination) -> Seq<char> {
    match t {
        Termination::Live => "live"@,
        Termination::Completed => "completed"@,
        Termination::Orphaned => "orphaned"@,
        Termination::AgentStopped => "agent_stopped"@,
        Termination::InfrastructureError => "resumable"@,
        Termination::Cancelled => "stopped"@,
        Termination::Interrupted => "resumable"@,
    }
}

/// Whether a run that ended so can be resumed.
pub open spec fn resumable_spec(t: Termination) -> bool {
    match t {
        Termination::Orphaned | Termination::InfrastructureError | Termination::Cancelled
        | Termination::Interrupted => true,
        _ => false,
    }
}

/// The reason the gateway gives for a termination, where it gives one.
pub open spec fn reason_text(t: Termination) -> Option<Seq<char>> {
    match t {
        Termination::Orphaned => Some("active segment has no recorder lease"@),
        Termination::InfrastructureError => Some("infrastructure error"@),
        Termination::Cancelled => Some("cancelled"@),
        _ => None,
    }
}

impl Termination {
    /// See [`kind_text`].
    pub fn kind(&self) -> (r: &'static str)
        ensures
            r@ == kind_text(*self),
    {
        match self {
            Termination::Live => "live",
            Termination::Completed => "completed",
            Termination::Orphaned => "orphaned",
            Termination::AgentStopped => "agent_stopped",
            Termination::InfrastructureError => "resumable",
            Termination::Cancelled => "stopped",
            Termination::Interrupted => "resumable",
        }
    }

    /// See [`resumable_spec`].
    pub fn resumable(&self) -> (r: bool)
        ensures
            r == resumable_spec(*self),
    {
        match self {
            Termination::Orphaned | Termination::InfrastructureError | Termination::Cancelled
            | Termination::Interrupted => true,
            _ => false,
        }
    }

    /// See [`reason_text`].
    pub fn reason(&self) -> (r: Option<&'static str>)
        ensures
            match reason_text(*self) {
                Some(t) => r is Some && r->Some_0@ == t,
                None => r is None,
            },
    {
        match self {
            Termination::Orphaned => Some("active segment has no recorder lease"),
            Termination::InfrastructureError => Some("infrastructure error"),
            Termination::Cancelled => Some("cancelled"),
            _ => None,
        }
    }
}

/// A run is complete when its game says so, or when it scored its full,
/// positive total.
pub open spec fn completed_spec(terminal: bool, score: i64, total: i64) -> bool {
    terminal || (score >= total && total > 0)
}

/// How a run ended: a live run is live; else a completed one completed;
/// else an orphaned one orphaned; else the disposition its last finish
/// recorded decides.
pub open spec fn termination_spec(lifecycle: Lifecycle, completed: bool, disposition: Option<Seq<char>>) -> Termination {
    if lifecycle == Lifecycle::Live {
        Termination::Live
    } else if completed {
        Termination::Completed
    } else if lifecycle == Lifecycle::Orphaned {
        Termination::Orphaned
    } else {
        match disposition {
            Some(d) => if d == "agent_stopped"@ {
                Termination::AgentStopped
            } else if d == "error"@ {
                Termination::InfrastructureError
            } else if d == "cancelled"@ {
                Termination::Cancelled
            } else {
                Termination::Interrupted
            },
            None => Termination::Interrupted,
        }
    }
}

/// The status shown in a run's summary.
pub open spec fn status_text(lifecycle: Lifecycle, completed: bool) -> Seq<char> {
    if lifecycle == Lifecycle::Live {
        "running"@
    } else if lifecycle == Lifecycle::Orphaned && !completed {
        "orphaned"@
    } else {
        "finished"@
    }
}

/// What a run's summary states of its outcome.
#[derive(Clone, Copy, Debug, PartialEq, Eq)]
pub struct RunOutcome {
    pub score: i64,
    pub completed: bool,
    pub termination: Termination,
    pub status: &'static str,
}

/// The outcome of a run: its score is that of its last event, else the
/// state's own; see [`completed_spec`], [`termination_spec`] and
/// [`status_text`] for the rest.
pub fn run_outcome(
    terminal: bool,
    state_score: i64,
    last_event_score: Option<i64>,
    total: i64,
    lifecycle: Lifecycle,
    disposition: Option<&str>,
) -> (r: RunOutcome)
    ensures
        r.score == match last_event_score {
            Some(s) => s,
            None => state_score,
        },
        r.completed == completed_spec(terminal, r.score, total),
        r.termination == termination_spec(
            lifecycle,
            r.completed,
            match disposition {
                Some(d) => Some(d@),
                None => None,
            },
        ),
        r.status@ == status_text(lifecycle, r.completed),
{
    let score = match last_event_score {
        Some(s) => s,
        None => state_score,
    };
    let completed = terminal || (score >= total && total > 0);
    let live = lifecycle == Lifecycle::Live;
    let orphaned = lifecycle == Lifecycle::Orphaned;
    let termination = if live {
        Termination::Live
    } else if completed {
        Termination::Completed
    } else if orphaned {
        Termination::Orphaned
    } else {
        match disposition {
            Some(d) => if str_eq(d, "agent_stopped") {
                Termination::AgentStopped
            } else if str_eq(d, "error") {
                Termination::InfrastructureError
            } else if str_eq(d, "cancelled") {
                Termination::Cancelled
            } else {
                Termination::Interrupted
            },
            None => Termination::Interrupted,
        }
    };
    let status = if live {
        "running"
    } else if orphaned && !completed {
        "orphaned"
    } else {
        "finished"
    };
    RunOutcome { score, completed, termination, status }
}

/// A row that marks where the agent's clock last started or stopped.
pub open spec fn anchor_kind(t: Seq<char>) -> bool {
    t == "agent_execution_started"@ || t == "agent_execution_finished"@ || t == "segment_registered"@ || t
        == "segment_finished"@
}

/// The index of the last anchor row.
pub open spec fn last_anchor(types: Seq<Seq<char>>) -> Option<int>
    decreases types.len(),
{
    if types.len() == 0 {
        None
    } else if anchor_kind(types.last()) {
        Some(types.len() - 1)
    } else {
        last_anchor(types.drop_last())
    }
}

/// The agent's clock: the last anchor row, and whether the clock runs,
/// which it does in a live run whose last anchor started an execution.
pub fn execution_clock(types: &Vec<String>, live: bool) -> (r: (Option<usize>, bool))
    ensures
        match last_anchor(type_names(types@)) {
            Some(i) => r.0 == Some(i as usize) && r.1 == (live && type_names(types@)[i] == "agent_execution_started"@),
            None => r.0 is None && !r.1,
        },
{
    let ghost ts = type_names(types@);
    let mut i: usize = types.len();
    assert(ts.take(i as int) =~= ts);
    while i > 0
        invariant
            i <= types@.len(),
            ts == type_names(types@),
            last_anchor(ts) == last_anchor(ts.take(i as int)),
        decreases i,
    {
        assert(ts.take(i as int).drop_last() =~= ts.take(i - 1));
        let t = types[i - 1].as_str();
        let started = str_eq(t, "agent_execution_started");
        if started || str_eq(t, "agent_execution_finished") || str_eq(t, "segment_registered") || str_eq(
            t,
            "segment_finished",
        ) {
            return (Some(i - 1), live && started);
        }
        i -= 1;
    }
    (None, false)
}

/// The events at which a run's score history has a point: the first, and
/// each whose score differs from the one before.
pub open spec fn changes(s: Seq<i64>) -> Seq<int>
    decreases s.len(),
{
    if s.len() == 0 {
        Seq::empty()
    } else if s.len() == 1 || s[s.len() - 1] != s[s.len() - 2] {
        changes(s.drop_last()).push(s.len() - 1)
    } else {
        changes(s.drop_last())
    }
}

/// The last of the points whose score is positive.
pub open spec fn last_scoring(s: Seq<i64>, points: Seq<int>) -> Option<int>
    decreases points.len(),
{
    if points.len() == 0 {
        None
    } else if s[points.last()] > 0 {
        Some(points.last())
    } else {
        last_scoring(s, points.drop_last())
    }
}

/// Indices as integers.
pub open spec fn positions(v: Seq<usize>) -> Seq<int> {
    v.map_values(|p: usize| p as int)
}

/// A run's score history: the events at which its score changed, and the
/// last of them at which it was positive.
#[derive(Clone, Debug)]
pub struct ScoreHistory {
    pub points: Vec<usize>,
    pub last_scoring: Option<usize>,
}

/// The score history of events with these scores; see [`changes`] and
/// [`last_scoring`].
pub fn score_history(scores: &Vec<i64>) -> (r: ScoreHistory)
    ensures
        positions(r.points@) == changes(scores@),
        match last_scoring(scores@, changes(scores@)) {
            Some(p) => r.last_scoring == Some(p as usize),
            None => r.last_scoring is None,
        },
{
    let mut points: Vec<usize> = Vec::new();
    let mut last: Option<usize> = None;
    let mut i: usize = 0;
    while i < scores.len()
        invariant
            i <= scores@.len(),
            positions(points@) == changes(scores@.take(i as int)),
            match last_scoring(scores@, changes(scores@.take(i as int))) {
                Some(p) => last == Some(p as usize),
                None => last is None,
            },
            forall|k: int| 0 <= k < points@.len() ==> points@[k] < i,
        decreases scores@.len() - i,
    {
        let ghost before = scores@.take(i as int);
        let ghost after = scores@.take(i + 1);
        assert(after.drop_last() =~= before);
        if i == 0 || scores[i] != scores[i - 1] {
            points.push(i);
            if scores[i] > 0 {
                last = Some(i);
            }
            assert(positions(points@) =~= positions(points@.drop_last()).push(i as int));
            assert(changes(after) == changes(before).push(i as int));
            assert(changes(after).drop_last() =~= changes(before));
        } else {
            assert(changes(after) == changes(before));
        }
        i += 1;
    }
    assert(scores@.take(scores@.len() as int) =~= scores@);
    ScoreHistory { points, last_scoring: last }
}

proof fn lemma_changes_shape(s: Seq<i64>)
    ensures
        forall|k: int| 0 <= k < changes(s).len() ==> 0 <= #[trigger] changes(s)[k] < s.len(),
        forall|k: int, l: int| 0 <= k < l < changes(s).len() ==> changes(s)[k] < changes(s)[l],
        s.len() > 0 ==> changes(s).len() > 0 && changes(s)[0] == 0,
    decreases s.len(),
{
    if s.len() > 0 {
        let rest = s.drop_last();
        lemma_changes_shape(rest);
        let c = changes(rest);
        if s.len() == 1 || s[s.len() - 1] != s[s.len() - 2] {
            assert(changes(s) == c.push(s.len() - 1));
            assert forall|k: int| 0 <= k < changes(s).len() implies 0 <= #[trigger] changes(s)[k] < s.len() by {
                if k < c.len() {
                    assert(changes(s)[k] == c[k]);
                }
            }
        }
    }
}

/// The score history loses nothing: it starts at the first event, its
/// points go forward, and every event's score is the score at some point of
/// the history at or before it.
pub proof fn law_history_keeps_every_score(s: Seq<i64>, i: int)
    requires
        0 <= i < s.len(),
    ensures
        changes(s)[0] == 0,
        forall|k: int, l: int| 0 <= k < l < changes(s).len() ==> changes(s)[k] < changes(s)[l],
        exists|k: int| 0 <= k < changes(s).len() && changes(s)[k] <= i && s[#[trigger] changes(s)[k]] == s[i],
    decreases s.len(),
{
    lemma_changes_shape(s);
    let rest = s.drop_last();
    lemma_changes_shape(rest);
    let last = s.len() - 1;
    if s.len() == 1 || s[last] != s[last - 1] {
        assert(changes(s) == changes(rest).push(last));
        if i == last {
            let k = changes(rest).len() as int;
            assert(changes(s)[k] == last);
        } else {
            law_history_keeps_every_score(rest, i);
            let k = choose|k: int| 0 <= k < changes(rest).len() && changes(rest)[k] <= i && rest[#[trigger] changes(rest)[k]] == rest[i];
            assert(changes(s)[k] == changes(rest)[k]);
        }
    } else {
        assert(changes(s) == changes(rest));
        let j = if i == last { last - 1 } else { i };
        law_history_keeps_every_score(rest, j);
        let k = choose|k: int| 0 <= k < changes(rest).len() && changes(rest)[k] <= j && rest[#[trigger] changes(rest)[k]] == rest[j];
        assert(changes(s)[k] == changes(rest)[k]);
    }
}

} // verus!
