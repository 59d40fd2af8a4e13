//! The gateway's rules on what it reads: identifiers it accepts from
//! requests, and the score, total and objective it shows for a run's state.

use vstd::prelude::*;

use crate::text::{
    ascii_lower, char_is_whitespace, char_views, chars_eq, int_text, is_unicode_whitespace, lower_char, lower_char_exec,
    split_chars, split_spec, str_eq, string_from_chars, text_with_int, to_chars, trim_chars, trim_spec,
};

verus! {

/// A character allowed in an identifier: ASCII letters and digits, `-`,
/// `_` and `.`.
pub open spec fn id_char(c: char) -> bool {
    ('a' <= c && c <= 'z') || ('A' <= c && c <= 'Z') || ('0' <= c && c <= '9') || c == '-' || c
        == '_' || c == '.'
}

/// A non-empty identifier of allowed characters only, so that it can never
/// name a path outside its directory.
pub open spec fn safe_id_spec(value: Seq<char>) -> bool {
    value.len() > 0 && forall|i: int| 0 <= i < value.len() ==> id_char(#[trigger] value[i])
}

/// See [`safe_id_spec`].
pub fn safe_id(value: &str) -> (r: bool)
    ensures
        r == safe_id_spec(value@),
{
    let cs = to_chars(value);
    if cs.len() == 0 {
        return false;
    }
    let mut i: usize = 0;
    while i < cs.len()
        invariant
            cs@ == value@,
            i <= cs@.len(),
            forall|j: int| 0 <= j < i ==> id_char(#[trigger] cs@[j]),
        decreases cs@.len() - i,
    {
        let c = cs[i];
        let allowed = ('a' <= c && c <= 'z') || ('A' <= c && c <= 'Z') || ('0' <= c && c <= '9')
            || c == '-' || c == '_' || c == '.';
        if !allowed {
            return false;
        }
        i += 1;
    }
    true
}

/// A safe identifier holds no path separator.
pub proof fn law_safe_ids_hold_no_separator(value: Seq<char>)
    requires
        safe_id_spec(value),
    ensures
        !value.contains('/'),
        !value.contains('\\'),
{
    if value.contains('/') {
        let i = choose|i: int| 0 <= i < value.len() && value[i] == '/';
        assert(id_char(value[i]));
    }
    if value.contains('\\') {
        let i = choose|i: int| 0 <= i < value.len() && value[i] == '\\';
        assert(id_char(value[i]));
    }
}

/// A JSON value, as the scoring rules read it: absent, an integer that
/// fits in an `i64`, a boolean, a string, or anything else.
#[derive(Clone, Debug, PartialEq, Eq)]
pub enum Field {
    Absent,
    Integer(i64),
    Boolean(bool),
    Text(String),
    Other,
}

impl Field {
    pub open spec fn int_spec(&self) -> Option<i64> {
        match self {
            Field::Integer(i) => Some(*i),
            _ => None,
        }
    }

    pub open spec fn text_spec(&self) -> Option<Seq<char>> {
        match self {
            Field::Text(s) => Some(s@),
            _ => None,
        }
    }

    pub open spec fn bool_spec(&self) -> Option<bool> {
        match self {
            Field::Boolean(b) => Some(*b),
            _ => None,
        }
    }

    /// The integer, if the value is one.
    pub fn as_i64(&self) -> (r: Option<i64>)
        ensures
            r == self.int_spec(),
    {
        match self {
            Field::Integer(i) => Some(*i),
            _ => None,
        }
    }

    /// The string, if the value is one.
    pub fn as_str(&self) -> (r: Option<&str>)
        ensures
            match r {
                Some(s) => self.text_spec() == Some(s@),
                None => self.text_spec() is None,
            },
    {
        match self {
            Field::Text(s) => Some(s.as_str()),
            _ => None,
        }
    }

    /// The boolean, if the value is one.
    pub fn as_bool(&self) -> (r: Option<bool>)
        ensures
            r == self.bool_spec(),
    {
        match self {
            Field::Boolean(b) => Some(*b),
            _ => None,
        }
    }
}

/// The first of two values that is present, as one JSON pointer lookup
/// falls back on another.
pub open spec fn either(first: Field, second: Field) -> Field {
    if first is Absent {
        second
    } else {
        first
    }
}

fn either_of<'x>(first: &'x Field, second: &'x Field) -> (r: &'x Field)
    ensures
        *r == either(*first, *second),
{
    match first {
        Field::Absent => second,
        _ => first,
    }
}

/// What the scoring rules read of a run's state, each by its JSON
/// pointer: `/campaign/score`, `/campaign/solved` and so on, and the
/// top-level `mode`, `score` and `complete`.
#[derive(Clone, Debug, PartialEq, Eq)]
pub struct StateView {
    pub campaign_score: Field,
    pub campaign_solved: Field,
    pub campaign_total: Field,
    pub campaign_max_score: Field,
    pub campaign_level: Field,
    pub campaign_scene: Field,
    pub campaign_complete: Field,
    pub level_reference: Field,
    pub level_id: Field,
    pub level_title: Field,
    pub shift_status: Field,
    pub mode: Field,
    pub score: Field,
    pub complete: Field,
}

/// What the scoring rules read of a run's last event: its `score` and
/// `selected` members.
#[derive(Clone, Debug, PartialEq, Eq)]
pub struct EventView {
    pub score: Field,
    pub selected: Field,
}

/// The integer, or `default`.
pub open spec fn int_or(f: Field, default: i64) -> i64 {
    match f.int_spec() {
        Some(v) => v,
        None => default,
    }
}

/// The string, or `default`.
pub open spec fn text_or(f: Field, default: Seq<char>) -> Seq<char> {
    match f.text_spec() {
        Some(v) => v,
        None => default,
    }
}

/// An objective made of an id and a title: the title alone when the id is
/// empty.
pub open spec fn objective(id: Seq<char>, title: Seq<char>) -> Seq<char> {
    if id.len() == 0 {
        title
    } else {
        id + " / "@ + title
    }
}

/// A line of an index without the carriage return that ends it before a
/// line feed; the last line keeps what it has.
pub open spec fn index_line(pieces: Seq<Seq<char>>, i: int) -> Seq<char> {
    let p = pieces[i];
    if i + 1 < pieces.len() && p.len() > 0 && p.last() == '\r' {
        p.drop_last()
    } else {
        p
    }
}

/// The title that one index line gives the reference: its second
/// tab-separated field, when its first is the reference.
pub open spec fn line_title(line: Seq<char>, reference: Seq<char>) -> Option<Seq<char>> {
    let fields = split_spec(line, '\t');
    if fields.len() >= 2 && fields[0] == reference {
        Some(fields[1])
    } else {
        None
    }
}

/// The title of the first of the first `k` lines that names the reference.
pub open spec fn title_in(pieces: Seq<Seq<char>>, reference: Seq<char>, k: int) -> Option<Seq<char>>
    decreases k,
{
    if k <= 0 {
        None
    } else {
        match title_in(pieces, reference, k - 1) {
            Some(t) => Some(t),
            None => line_title(index_line(pieces, k - 1), reference),
        }
    }
}

/// The title a level index gives a reference; none without an index.
pub open spec fn index_title(index: Option<Seq<char>>, reference: Seq<char>) -> Option<Seq<char>> {
    match index {
        None => None,
        Some(text) => {
            let pieces = split_spec(text, '\n');
            title_in(pieces, reference, pieces.len() as int)
        },
    }
}

/// The score, total and objective shown for a run of a task, from its
/// state, its last event and, for the puzzle box task, its level index.
pub open spec fn score_spec(task: Seq<char>, s: StateView, last: Option<EventView>, index: Option<Seq<char>>) -> (i64, i64, Seq<char>) {
    if task == "parabox-intro"@ {
        let score = match either(s.campaign_score, s.campaign_solved).int_spec() {
            Some(v) => v,
            None => match last {
                Some(e) => int_or(e.score, 0),
                None => 0,
            },
        };
        let reference = match either(s.level_reference, s.level_id).text_spec() {
            Some(r) => r,
            None => match last {
                Some(e) => text_or(e.selected, Seq::empty()),
                None => Seq::empty(),
            },
        };
        let title = match s.level_title.text_spec() {
            Some(t) => t,
            None => match index_title(index, reference) {
                Some(t) => t,
                None => "Waiting for state"@,
            },
        };
        (score, int_or(s.campaign_total, 364), objective(reference, title))
    } else if task == "sausage-roll"@ {
        let goal = if s.mode.text_spec() == Some("overworld"@) {
            "Land's End / 大地图"@
        } else {
            objective(text_or(s.level_id, Seq::empty()), text_or(s.level_title, "Waiting for state"@))
        };
        (int_or(s.campaign_score, 0), int_or(s.campaign_total, 86), goal)
    } else if task == "emergency-operator"@ {
        let status = text_or(s.shift_status, "not_started"@);
        (
            int_or(s.campaign_score, 0),
            int_or(s.campaign_max_score, 0),
            if status == "not_started"@ {
                "Start shift"@
            } else {
                "Monitor dispatch"@
            },
        )
    } else if task == "sokoban"@ {
        (
            int_or(s.campaign_score, 0),
            int_or(s.campaign_max_score, 305),
            objective(text_or(s.level_id, Seq::empty()), text_or(s.level_title, "Select a level"@)),
        )
    } else if task == "minesweeper"@ {
        (
            int_or(s.campaign_score, 0),
            int_or(s.campaign_max_score, 50),
            objective(text_or(s.level_id, Seq::empty()), text_or(s.level_title, "Select a field"@)),
        )
    } else if task == "kitchen-terminal"@ {
        (
            int_or(s.campaign_score, 0),
            338,
            "Level "@ + int_text(int_or(s.campaign_level, 1) as int) + " / "@ + text_or(s.campaign_scene, "Kitchen shift"@),
        )
    } else {
        (int_or(s.score, 0), 1_000_000, "Make curry"@)
    }
}

fn int_field_or(f: &Field, default: i64) -> (r: i64)
    ensures
        r == int_or(*f, default),
{
    match f.as_i64() {
        Some(v) => v,
        None => default,
    }
}

fn text_field_or<'x>(f: &'x Field, default: &'x str) -> (r: &'x str)
    ensures
        r@ == text_or(*f, default@),
{
    match f.as_str() {
        Some(v) => v,
        None => default,
    }
}

fn objective_text(id: &str, title: &str) -> (r: String)
    ensures
        r@ == objective(id@, title@),
{
    if id.unicode_len() == 0 {
        return title.to_string();
    }
    let mut out = id.to_string();
    out.append(" / ");
    out.append(title);
    out
}

proof fn lemma_title_in_extends(pieces: Seq<Seq<char>>, reference: Seq<char>, a: int, b: int)
    requires
        0 <= a <= b,
        title_in(pieces, reference, a) is Some,
    ensures
        title_in(pieces, reference, b) == title_in(pieces, reference, a),
    decreases b - a,
{
    if a < b {
        lemma_title_in_extends(pieces, reference, a, b - 1);
    }
}

/// The title a level index gives a reference; see [`index_title`].
pub fn parabox_title(index: Option<&str>, reference: &str) -> (r: Option<String>)
    ensures
        match r {
            Some(t) => index_title(match index {
                Some(i) => Some(i@),
                None => None,
            }, reference@) == Some(t@),
            None => index_title(match index {
                Some(i) => Some(i@),
                None => None,
            }, reference@) is None,
        },
{
    let text = match index {
        Some(t) => t,
        None => {
            return None;
        },
    };
    let chars = to_chars(text);
    let wanted = to_chars(reference);
    let pieces = split_chars(chars.as_slice(), '\n');
    let ghost ps = split_spec(text@, '\n');
    let mut i: usize = 0;
    while i < pieces.len()
        invariant
            char_views(pieces@) == ps,
            ps == split_spec(text@, '\n'),
            index == Some(text),
            wanted@ == reference@,
            i <= ps.len(),
            title_in(ps, reference@, i as int) is None,
        decreases ps.len() - i,
    {
        let piece = &pieces[i];
        assert(piece@ == ps[i as int]);
        let mut line: Vec<char> = Vec::new();
        let strip = i + 1 < pieces.len() && piece.len() > 0 && piece[piece.len() - 1] == '\r';
        let end = if strip { piece.len() - 1 } else { piece.len() };
        let mut k: usize = 0;
        while k < end
            invariant
                end <= piece@.len(),
                k <= end,
                line@ == piece@.take(k as int),
            decreases end - k,
        {
            line.push(piece[k]);
            assert(line@ =~= piece@.take(k + 1));
            k += 1;
        }
        assert(line@ =~= index_line(ps, i as int));
        let fields = split_chars(line.as_slice(), '\t');
        if fields.len() >= 2 && chars_eq(fields[0].as_slice(), wanted.as_slice()) {
            assert(char_views(fields@)[0] == fields@[0]@);
            assert(char_views(fields@)[1] == fields@[1]@);
            proof {
                lemma_title_in_extends(ps, reference@, i + 1, ps.len() as int);
            }
            return Some(string_from_chars(fields[1].as_slice()));
        }
        proof {
            if fields@.len() >= 2 {
                assert(char_views(fields@)[0] == fields@[0]@);
            }
        }
        i += 1;
    }
    None
}

/// The score, total and objective shown for a run; see [`score_spec`].
pub fn score(task: &str, state: &StateView, last: Option<&EventView>, index: Option<&str>) -> (r: (i64, i64, String))
    ensures
        (r.0, r.1, r.2@) == score_spec(task@, *state, match last {
            Some(e) => Some(*e),
            None => None,
        }, match index {
            Some(i) => Some(i@),
            None => None,
        }),
{
    if str_eq(task, "parabox-intro") {
        let score = match either_of(&state.campaign_score, &state.campaign_solved).as_i64() {
            Some(v) => v,
            None => match last {
                Some(e) => int_field_or(&e.score, 0),
                None => 0,
            },
        };
        let reference: &str = match either_of(&state.level_reference, &state.level_id).as_str() {
            Some(r) => r,
            None => match last {
                Some(e) => text_field_or(&e.selected, ""),
                None => "",
            },
        };
        proof {
            reveal_strlit("");
        }
        let title: String = match state.level_title.as_str() {
            Some(t) => t.to_string(),
            None => match parabox_title(index, reference) {
                Some(t) => t,
                None => String::from_str("Waiting for state"),
            },
        };
        let ghost ls = match last {
            Some(e) => Some(*e),
            None => None,
        };
        let ghost is = match index {
            Some(i) => Some(i@),
            None => None,
        };
        let ghost expected = score_spec(task@, *state, ls, is);
        assert(score == expected.0);
        assert(reference@ == match either(state.level_reference, state.level_id).text_spec() {
            Some(r) => r,
            None => match ls {
                Some(e) => text_or(e.selected, Seq::empty()),
                None => Seq::empty(),
            },
        });
        let total = int_field_or(&state.campaign_total, 364);
        let goal = objective_text(reference, title.as_str());
        assert(goal@ == expected.2);
        return (score, total, goal);
    }
    if str_eq(task, "sausage-roll") {
        let overworld = match state.mode.as_str() {
            Some(m) => str_eq(m, "overworld"),
            None => false,
        };
        let goal = if overworld {
            String::from_str("Land's End / 大地图")
        } else {
            proof {
                reveal_strlit("");
            }
            objective_text(text_field_or(&state.level_id, ""), text_field_or(&state.level_title, "Waiting for state"))
        };
        return (int_field_or(&state.campaign_score, 0), int_field_or(&state.campaign_total, 86), goal);
    }
    if str_eq(task, "emergency-operator") {
        let status = text_field_or(&state.shift_status, "not_started");
        let goal = if str_eq(status, "not_started") {
            String::from_str("Start shift")
        } else {
            String::from_str("Monitor dispatch")
        };
        return (int_field_or(&state.campaign_score, 0), int_field_or(&state.campaign_max_score, 0), goal);
    }
    if str_eq(task, "sokoban") {
        proof {
            reveal_strlit("");
        }
        let goal = objective_text(text_field_or(&state.level_id, ""), text_field_or(&state.level_title, "Select a level"));
        return (int_field_or(&state.campaign_score, 0), int_field_or(&state.campaign_max_score, 305), goal);
    }
    if str_eq(task, "minesweeper") {
        proof {
            reveal_strlit("");
        }
        let goal = objective_text(text_field_or(&state.level_id, ""), text_field_or(&state.level_title, "Select a field"));
        return (int_field_or(&state.campaign_score, 0), int_field_or(&state.campaign_max_score, 50), goal);
    }
    if str_eq(task, "kitchen-terminal") {
        let mut goal = text_with_int("Level ", int_field_or(&state.campaign_level, 1));
        goal.append(" / ");
        goal.append(text_field_or(&state.campaign_scene, "Kitchen shift"));
        return (int_field_or(&state.campaign_score, 0), 338, goal);
    }
    (int_field_or(&state.score, 0), 1_000_000, String::from_str("Make curry"))
}

/// The short and the display name of a task.
pub open spec fn task_labels_spec(task: Seq<char>) -> (Seq<char>, Seq<char>) {
    if task == "parabox-intro"@ {
        ("parabox"@, "Patrick's Parabox"@)
    } else if task == "swarm-farming"@ {
        ("swarm"@, "Swarm Farming"@)
    } else if task == "sausage-roll"@ {
        ("sausage"@, "Stephen's Sausage Roll"@)
    } else if task == "emergency-operator"@ {
        ("operator"@, "Emergency Operator"@)
    } else if task == "sokoban"@ {
        ("sokoban"@, "Sokoban Classics"@)
    } else if task == "minesweeper"@ {
        ("minesweeper"@, "No-Guess Minesweeper"@)
    } else if task == "kitchen-terminal"@ {
        ("kitchen"@, "Overcooked Kitchen"@)
    } else {
        ("unknown"@, "Unknown"@)
    }
}

/// See [`task_labels_spec`].
pub fn task_labels(task: &str) -> (r: (&'static str, &'static str))
    ensures
        (r.0@, r.1@) == task_labels_spec(task@),
{
    if str_eq(task, "parabox-intro") {
        ("parabox", "Patrick's Parabox")
    } else if str_eq(task, "swarm-farming") {
        ("swarm", "Swarm Farming")
    } else if str_eq(task, "sausage-roll") {
        ("sausage", "Stephen's Sausage Roll")
    } else if str_eq(task, "emergency-operator") {
        ("operator", "Emergency Operator")
    } else if str_eq(task, "sokoban") {
        ("sokoban", "Sokoban Classics")
    } else if str_eq(task, "minesweeper") {
        ("minesweeper", "No-Guess Minesweeper")
    } else if str_eq(task, "kitchen-terminal") {
        ("kitchen", "Overcooked Kitchen")
    } else {
        ("unknown", "Unknown")
    }
}

/// A game reports itself finished: its campaign is complete, its shift's
/// status is `complete`, or the state itself is marked complete. A partial
/// score is no finish.
pub open spec fn game_terminal_spec(s: StateView) -> bool {
    s.campaign_complete.bool_spec() == Some(true) || s.shift_status.text_spec() == Some("complete"@)
        || s.complete.bool_spec() == Some(true)
}

/// See [`game_terminal_spec`].
pub fn authoritative_game_terminal(state: &StateView) -> (r: bool)
    ensures
        r == game_terminal_spec(*state),
{
    if state.campaign_complete.as_bool() == Some(true) {
        return true;
    }
    let shift_complete = match state.shift_status.as_str() {
        Some(status) => str_eq(status, "complete"),
        None => false,
    };
    shift_complete || state.complete.as_bool() == Some(true)
}

/// `needle` occurs in `hay`.
pub open spec fn has_sub(hay: Seq<char>, needle: Seq<char>) -> bool {
    exists|i: int| 0 <= i && i + needle.len() <= hay.len() && #[trigger] hay.subrange(i, i + needle.len()) == needle
}

/// A marker occurs in the item or in its heading.
pub open spec fn marked(lower: Seq<char>, heading: Seq<char>, marker: Seq<char>) -> bool {
    has_sub(lower, marker) || has_sub(heading, marker)
}

/// The note category of a bullet, by the markers its lowercased text or
/// its heading holds: solved (3) before rejected (2) before verified (1);
/// anything else is a plan (0).
pub open spec fn category(lower: Seq<char>, heading: Seq<char>) -> int {
    if marked(lower, heading, "solved"@) || marked(lower, heading, "已解"@) {
        3
    } else if marked(lower, heading, "reject"@) || marked(lower, heading, "dead-end"@) || marked(
        lower,
        heading,
        "dead end"@,
    ) || marked(lower, heading, "invalid"@) || marked(lower, heading, "死路"@) || marked(
        lower,
        heading,
        "不可行"@,
    ) {
        2
    } else if marked(lower, heading, "verified"@) || marked(lower, heading, "confirmed"@) || marked(
        lower,
        heading,
        "reusable"@,
    ) || marked(lower, heading, "mechanic"@) || marked(lower, heading, "rule"@) || marked(
        lower,
        heading,
        "规律"@,
    ) || marked(lower, heading, "经验"@) || marked(lower, heading, "机制"@) {
        1
    } else {
        0
    }
}

/// The line without its leading `#` marks.
pub open spec fn strip_hashes(line: Seq<char>) -> Seq<char>
    decreases line.len(),
{
    if line.len() > 0 && line[0] == '#' {
        strip_hashes(line.drop_first())
    } else {
        line
    }
}

/// The text of a bullet line (`- `, `* ` or `+ ` first), trimmed, when
/// it is not empty.
pub open spec fn bullet_item(line: Seq<char>) -> Option<Seq<char>> {
    if line.len() >= 2 && (line[0] == '-' || line[0] == '*' || line[0] == '+') && line[1] == ' ' {
        let item = trim_spec(line.skip(2));
        if item.len() > 0 {
            Some(item)
        } else {
            None
        }
    } else {
        None
    }
}

/// Every run of whitespace as one space.
pub open spec fn collapse(s: Seq<char>) -> Seq<char>
    decreases s.len(),
{
    if s.len() == 0 {
        s
    } else if is_unicode_whitespace(s.last()) {
        if s.len() >= 2 && is_unicode_whitespace(s[s.len() - 2]) {
            collapse(s.drop_last())
        } else {
            collapse(s.drop_last()).push(' ')
        }
    } else {
        collapse(s.drop_last()).push(s.last())
    }
}

/// A bullet's text as it is kept: whitespace collapsed, at most 700
/// characters.
pub open spec fn normalized(item: Seq<char>) -> Seq<char> {
    let c = collapse(item);
    if c.len() > 700 {
        c.take(700)
    } else {
        c
    }
}

/// The notes gathered so far, by category, and the current heading.
pub struct NotesState {
    pub heading: Seq<char>,
    pub lists: Seq<Seq<Seq<char>>>,
}

/// One line read: a heading line sets the heading; a bullet adds its
/// normalized text to its category unless it is there already.
pub open spec fn note_step(st: NotesState, raw: Seq<char>) -> NotesState {
    let line = trim_spec(raw);
    if line.len() > 0 && line[0] == '#' {
        NotesState { heading: ascii_lower(trim_spec(strip_hashes(line))), ..st }
    } else {
        match bullet_item(line) {
            None => st,
            Some(item) => {
                let c = category(ascii_lower(item), st.heading);
                let n = normalized(item);
                if st.lists[c].contains(n) {
                    st
                } else {
                    NotesState { lists: st.lists.update(c, st.lists[c].push(n)), ..st }
                }
            },
        }
    }
}

/// The notes after the first `k` lines.
pub open spec fn notes_after(lines: Seq<Seq<char>>, k: int) -> NotesState
    decreases k,
{
    if k <= 0 {
        NotesState { heading: Seq::empty(), lists: seq![Seq::empty(), Seq::empty(), Seq::empty(), Seq::empty()] }
    } else {
        note_step(notes_after(lines, k - 1), lines[k - 1])
    }
}

/// The notes of a markdown text, line by line.
pub open spec fn notes_of(markdown: Seq<char>) -> Seq<Seq<Seq<char>>> {
    let lines = split_spec(markdown, '\n');
    notes_after(lines, lines.len() as int).lists
}

proof fn lemma_notes_shape(lines: Seq<Seq<char>>, k: int)
    ensures
        notes_after(lines, k).lists.len() == 4,
    decreases k,
{
    if k > 0 {
        lemma_notes_shape(lines, k - 1);
    }
}

/// A run's experience: when it was last updated, and its notes by
/// category, each in the order first met.
#[derive(Clone, Debug, PartialEq, Eq)]
pub struct Experience<T> {
    pub updated_at: Option<T>,
    pub plan: Vec<String>,
    pub verified: Vec<String>,
    pub rejected: Vec<String>,
    pub solved: Vec<String>,
}

pub open spec fn string_views(v: Seq<String>) -> Seq<Seq<char>> {
    v.map_values(|s: String| s@)
}

fn has_sub_exec(hay: &[char], needle: &[char]) -> (r: bool)
    ensures
        r == has_sub(hay@, needle@),
{
    let n = needle.len();
    let mut i: usize = 0;
    while i <= hay.len() && hay.len() - i >= n
        invariant
            n == needle@.len(),
            i <= hay@.len() + 1,
            forall|k: int| 0 <= k < i ==> #[trigger] hay@.subrange(k, k + n as int) != needle@,
        decreases hay@.len() + 1 - i,
    {
        let mut same = true;
        let mut j: usize = 0;
        while j < n
            invariant
                n == needle@.len(),
                i + n <= hay.len(),
                hay.len() == hay@.len(),
                j <= n,
                same == forall|m: int| 0 <= m < j ==> hay@[i + m] == needle@[m],
            decreases n - j,
        {
            if hay[i + j] != needle[j] {
                same = false;
            }
            j += 1;
        }
        if same {
            assert(hay@.subrange(i as int, i + n as int) =~= needle@);
            return true;
        }
        proof {
            let m = choose|m: int| 0 <= m < n && hay@[i + m] != needle@[m];
            assert(hay@.subrange(i as int, i + n as int)[m] != needle@[m]);
        }
        i += 1;
    }
    proof {
        assert forall|k: int| 0 <= k && k + n <= hay@.len() implies #[trigger] hay@.subrange(k, k + n as int) != needle@ by {
            assert(k < i);
        }
    }
    false
}

fn marked_exec(lower: &[char], heading: &[char], marker: &str) -> (r: bool)
    ensures
        r == marked(lower@, heading@, marker@),
{
    let m = to_chars(marker);
    has_sub_exec(lower, m.as_slice()) || has_sub_exec(heading, m.as_slice())
}

fn category_exec(lower: &[char], heading: &[char]) -> (r: usize)
    ensures
        r as int == category(lower@, heading@),
{
    if marked_exec(lower, heading, "solved") || marked_exec(lower, heading, "已解") {
        3
    } else if marked_exec(lower, heading, "reject") || marked_exec(lower, heading, "dead-end")
        || marked_exec(lower, heading, "dead end") || marked_exec(lower, heading, "invalid")
        || marked_exec(lower, heading, "死路") || marked_exec(lower, heading, "不可行") {
        2
    } else if marked_exec(lower, heading, "verified") || marked_exec(lower, heading, "confirmed")
        || marked_exec(lower, heading, "reusable") || marked_exec(lower, heading, "mechanic")
        || marked_exec(lower, heading, "rule") || marked_exec(lower, heading, "规律")
        || marked_exec(lower, heading, "经验") || marked_exec(lower, heading, "机制") {
        1
    } else {
        0
    }
}

fn lower_chars(cs: &[char]) -> (r: Vec<char>)
    ensures
        r@ == ascii_lower(cs@),
{
    let mut out: Vec<char> = Vec::new();
    let mut i: usize = 0;
    while i < cs.len()
        invariant
            i <= cs@.len(),
            out@ == ascii_lower(cs@.take(i as int)),
        decreases cs@.len() - i,
    {
        out.push(lower_char_exec(cs[i]));
        assert(ascii_lower(cs@.take(i + 1)) =~= ascii_lower(cs@.take(i as int)).push(lower_char(cs@[i as int])));
        i += 1;
    }
    assert(cs@.take(cs@.len() as int) =~= cs@);
    out
}

fn strip_hashes_exec(line: &[char]) -> (r: Vec<char>)
    ensures
        r@ == strip_hashes(line@),
{
    let mut k: usize = 0;
    assert(line@.skip(0) =~= line@);
    while k < line.len() && line[k] == '#'
        invariant
            k <= line@.len(),
            strip_hashes(line@) == strip_hashes(line@.skip(k as int)),
        decreases line@.len() - k,
    {
        assert(line@.skip(k as int).drop_first() =~= line@.skip(k + 1));
        k += 1;
    }
    let mut out: Vec<char> = Vec::new();
    let mut i: usize = k;
    while i < line.len()
        invariant
            k <= i <= line@.len(),
            out@ == line@.subrange(k as int, i as int),
        decreases line@.len() - i,
    {
        out.push(line[i]);
        assert(out@ =~= line@.subrange(k as int, i + 1));
        i += 1;
    }
    assert(out@ =~= line@.skip(k as int));
    proof {
        if k < line@.len() {
            assert(line@.skip(k as int)[0] == line@[k as int]);
        }
    }
    out
}

fn collapse_exec(s: &[char]) -> (r: Vec<char>)
    ensures
        r@ == normalized(s@),
{
    let mut out: Vec<char> = Vec::new();
    let mut previous_blank = false;
    let mut i: usize = 0;
    while i < s.len()
        invariant
            i <= s@.len(),
            out@ == collapse(s@.take(i as int)),
            i > 0 ==> previous_blank == is_unicode_whitespace(s@[i - 1]),
        decreases s@.len() - i,
    {
        let c = s[i];
        let blank = char_is_whitespace(c);
        proof {
            let t = s@.take(i + 1);
            assert(t.drop_last() =~= s@.take(i as int));
            if i > 0 {
                assert(t[t.len() - 2] == s@[i - 1]);
            }
        }
        if blank {
            if !(i > 0 && previous_blank) {
                out.push(' ');
            }
        } else {
            out.push(c);
        }
        previous_blank = blank;
        i += 1;
    }
    assert(s@.take(s@.len() as int) =~= s@);
    if out.len() > 700 {
        let mut cut: Vec<char> = Vec::new();
        let mut k: usize = 0;
        while k < 700
            invariant
                k <= 700,
                700 < out@.len(),
                cut@ == out@.take(k as int),
            decreases 700 - k,
        {
            cut.push(out[k]);
            assert(cut@ =~= out@.take(k + 1));
            k += 1;
        }
        return cut;
    }
    out
}

fn contains_chars(list: &Vec<Vec<char>>, item: &Vec<char>) -> (r: bool)
    ensures
        r == char_views(list@).contains(item@),
{
    let mut i: usize = 0;
    while i < list.len()
        invariant
            i <= list@.len(),
            forall|j: int| 0 <= j < i ==> char_views(list@)[j] != item@,
        decreases list@.len() - i,
    {
        if chars_eq(list[i].as_slice(), item.as_slice()) {
            assert(char_views(list@)[i as int] == item@);
            return true;
        }
        i += 1;
    }
    false
}

fn to_strings(list: &Vec<Vec<char>>) -> (r: Vec<String>)
    ensures
        string_views(r@) == char_views(list@),
{
    let mut out: Vec<String> = Vec::new();
    let mut i: usize = 0;
    while i < list.len()
        invariant
            i <= list@.len(),
            string_views(out@) == char_views(list@).take(i as int),
        decreases list@.len() - i,
    {
        let text = string_from_chars(list[i].as_slice());
        let ghost before = out@;
        out.push(text);
        assert(string_views(out@) =~= string_views(before).push(text@));
        assert(char_views(list@).take(i + 1) =~= char_views(list@).take(i as int).push(list@[i as int]@));
        i += 1;
    }
    assert(char_views(list@).take(i as int) =~= char_views(list@));
    out
}

/// The experience of a run from its notes file and the time it was last
/// updated; see [`notes_of`].
pub fn experience<T>(markdown: &str, updated_at: Option<T>) -> (r: Experience<T>)
    ensures
        r.updated_at == updated_at,
        string_views(r.plan@) == notes_of(markdown@)[0],
        string_views(r.verified@) == notes_of(markdown@)[1],
        string_views(r.rejected@) == notes_of(markdown@)[2],
        string_views(r.solved@) == notes_of(markdown@)[3],
{
    let chars = to_chars(markdown);
    let pieces = split_chars(chars.as_slice(), '\n');
    let ghost lines = split_spec(markdown@, '\n');
    let mut lists: Vec<Vec<Vec<char>>> = vec![Vec::new(), Vec::new(), Vec::new(), Vec::new()];
    let mut heading: Vec<char> = Vec::new();
    let mut i: usize = 0;
    assert(lists@.map_values(|l: Vec<Vec<char>>| char_views(l@)) =~= notes_after(lines, 0).lists) by {
        assert(char_views(lists@[0]@) =~= Seq::<Seq<char>>::empty());
        assert(char_views(lists@[1]@) =~= Seq::<Seq<char>>::empty());
        assert(char_views(lists@[2]@) =~= Seq::<Seq<char>>::empty());
        assert(char_views(lists@[3]@) =~= Seq::<Seq<char>>::empty());
    }
    while i < pieces.len()
        invariant
            char_views(pieces@) == lines,
            i <= lines.len(),
            lists@.len() == 4,
            heading@ == notes_after(lines, i as int).heading,
            lists@.map_values(|l: Vec<Vec<char>>| char_views(l@)) == notes_after(lines, i as int).lists,
        decreases lines.len() - i,
    {
        proof {
            lemma_notes_shape(lines, i as int);
        }
        let ghost st = notes_after(lines, i as int);
        assert(pieces@[i as int]@ == lines[i as int]);
        let line = trim_chars(pieces[i].as_slice());
        if line.len() > 0 && line[0] == '#' {
            let stripped = strip_hashes_exec(line.as_slice());
            let trimmed = trim_chars(stripped.as_slice());
            heading = lower_chars(trimmed.as_slice());
        } else if line.len() >= 2 && (line[0] == '-' || line[0] == '*' || line[0] == '+') && line[1] == ' ' {
            let mut rest: Vec<char> = Vec::new();
            let mut k: usize = 2;
            while k < line.len()
                invariant
                    2 <= k <= line@.len(),
                    rest@ == line@.subrange(2, k as int),
                decreases line@.len() - k,
            {
                rest.push(line[k]);
                assert(rest@ =~= line@.subrange(2, k + 1));
                k += 1;
            }
            assert(rest@ =~= line@.skip(2));
            let item = trim_chars(rest.as_slice());
            if item.len() > 0 {
                let lower = lower_chars(item.as_slice());
                let c = category_exec(lower.as_slice(), heading.as_slice());
                let n = collapse_exec(item.as_slice());
                let present = contains_chars(&lists[c], &n);
                assert(lists@[c as int]@.map_values(|x: Vec<char>| x@) == st.lists[c as int]);
                if !present {
                    let ghost before = lists@;
                    let mut target = lists.remove(c);
                    target.push(n);
                    lists.insert(c, target);
                    proof {
                        assert(char_views(target@) =~= char_views(before[c as int]@).push(n@));
                        assert(lists@.map_values(|l: Vec<Vec<char>>| char_views(l@)) =~= st.lists.update(
                            c as int,
                            st.lists[c as int].push(n@),
                        )) by {
                            assert forall|j: int| 0 <= j < 4 implies #[trigger] lists@[j] == if j == c {
                                target
                            } else {
                                before[j]
                            } by {}
                        }
                    }
                }
            }
        }
        i += 1;
    }
    proof {
        lemma_notes_shape(lines, i as int);
        assert(lists@[0]@.map_values(|x: Vec<char>| x@) == notes_of(markdown@)[0]);
        assert(lists@[1]@.map_values(|x: Vec<char>| x@) == notes_of(markdown@)[1]);
        assert(lists@[2]@.map_values(|x: Vec<char>| x@) == notes_of(markdown@)[2]);
        assert(lists@[3]@.map_values(|x: Vec<char>| x@) == notes_of(markdown@)[3]);
    }
    Experience {
        updated_at,
        plan: to_strings(&lists[0]),
        verified: to_strings(&lists[1]),
        rejected: to_strings(&lists[2]),
        solved: to_strings(&lists[3]),
    }
}

/// The newest `n` items, newest first.
pub fn newest(items: &Vec<String>, n: usize) -> (r: Vec<String>)
    ensures
        r@.len() == if n < items@.len() { n as int } else { items@.len() as int },
        forall|i: int| 0 <= i < r@.len() ==> (#[trigger] r@[i])@ == items@[items@.len() - 1 - i]@,
{
    let mut out: Vec<String> = Vec::new();
    let mut i: usize = 0;
    while i < n && i < items.len()
        invariant
            i <= items@.len(),
            i <= n,
            out@.len() == i,
            forall|j: int| 0 <= j < i ==> (#[trigger] out@[j])@ == items@[items@.len() - 1 - j]@,
        decreases items@.len() - i,
    {
        let item = items[items.len() - 1 - i].clone();
        out.push(item);
        i += 1;
    }
    out
}

/// For every task but the parabox-intro and curry ones, the score shown is
/// the state's campaign score when it is an integer, and 0 otherwise;
/// whatever the campaign reports as solved plays no part.
pub proof fn law_shown_score_is_the_campaign_score(task: Seq<char>, s: StateView, last: Option<EventView>, index: Option<Seq<char>>)
    requires
        task == "sausage-roll"@ || task == "emergency-operator"@ || task == "sokoban"@ || task == "minesweeper"@ || task
            == "kitchen-terminal"@,
    ensures
        score_spec(task, s, last, index).0 == (match s.campaign_score {
            Field::Integer(v) => v,
            _ => 0i64,
        }),
{
    reveal_strlit("parabox-intro");
    reveal_strlit("sausage-roll");
    reveal_strlit("emergency-operator");
    reveal_strlit("sokoban");
    reveal_strlit("minesweeper");
    reveal_strlit("kitchen-terminal");
    assert(task != "parabox-intro"@) by {
        assert(task.len() != 13 || task[0] != 'p');
    }
    if task != "sausage-roll"@ {
        assert(task != "sausage-roll"@);
    }
}

/// The total shown beside the score: the campaign's reported total or
/// maximum when it is an integer, and each task's own full count otherwise.
pub proof fn law_shown_total_is_the_campaign_total(task: Seq<char>, s: StateView, last: Option<EventView>, index: Option<Seq<char>>)
    ensures
        task == "sausage-roll"@ ==> score_spec(task, s, last, index).1 == (match s.campaign_total {
            Field::Integer(v) => v,
            _ => 86i64,
        }),
        task == "sokoban"@ ==> score_spec(task, s, last, index).1 == (match s.campaign_max_score {
            Field::Integer(v) => v,
            _ => 305i64,
        }),
        task == "minesweeper"@ ==> score_spec(task, s, last, index).1 == (match s.campaign_max_score {
            Field::Integer(v) => v,
            _ => 50i64,
        }),
        task == "kitchen-terminal"@ ==> score_spec(task, s, last, index).1 == 338,
{
    reveal_strlit("parabox-intro");
    reveal_strlit("sausage-roll");
    reveal_strlit("emergency-operator");
    reveal_strlit("sokoban");
    reveal_strlit("minesweeper");
    reveal_strlit("kitchen-terminal");
    if task == "sausage-roll"@ || task == "sokoban"@ || task == "minesweeper"@ || task == "kitchen-terminal"@ {
        assert(task != "parabox-intro"@) by {
            assert(task.len() != 13 || task[0] != 'p');
        }
        assert(task != "emergency-operator"@) by {
            assert(task.len() != 18 || task[0] != 'e');
        }
    }
    if task == "sokoban"@ || task == "minesweeper"@ || task == "kitchen-terminal"@ {
        assert(task != "sausage-roll"@) by {
            assert(task.len() != 12 || task[1] != 'a');
        }
    }
    if task == "minesweeper"@ || task == "kitchen-terminal"@ {
        assert(task != "sokoban"@) by {
            assert(task.len() != 7 || task[1] != 'o');
        }
    }
    if task == "kitchen-terminal"@ {
        assert(task != "minesweeper"@) by {
            assert(task.len() != 11 || task[0] != 'm');
        }
    }
}

} // verus!
