//! Typed checkpoints of the public walkthrough: for every puzzle its entry
//! state, its direction replay and the game's own engine's entity states
//! after each non-final action, with a guided replay that checks a
//! direction sequence against them.

use vstd::prelude::*;

use crate::sausage::campaign::{puzzle_ids_spec, Campaign};
use crate::sausage::entries::{all_in, level_roots, puzzle_root, puzzle_root_spec};
use crate::sausage::game3d::Game3d;
use crate::sausage::model::{dir_of_value, Coord, Direction, GameState};
use crate::sausage::replay::Replay;
use crate::sausage::world::{direction_debug, direction_debug_text, entity_of};
use crate::text::{
    append_count, append_debug, append_int, char_views, debug_str, int_error_spec, int_error_text, int_text,
    keep_nonempty, nat_text, nonempty, parse_i32, parse_i32_spec, split_chars, split_once_chars, split_once_spec,
    split_spec, str_eq, to_chars, trim_chars, trim_spec,
};

verus! {

/// One entity of a checkpoint: its id and the state the game's own engine
/// gave it.
#[derive(Clone, Copy, Debug, PartialEq, Eq)]
pub struct OracleEntity {
    pub id: i32,
    pub pos: Coord,
    pub direction: Direction,
    pub rotation: i32,
    pub cook_data: i32,
}

/// Why `str::parse::<i32>` rejects a field.
pub open spec fn i32_error(s: Seq<char>) -> Seq<char> {
    int_error_spec(s, true, 2147483648, 2147483647)
}

/// A checkpoint entity written `id:x,y,z,direction,rotation,cook`; the
/// first failure otherwise, in that order.
pub open spec fn oracle_entity_spec(src: Seq<char>) -> Result<OracleEntity, Seq<char>> {
    match split_once_spec(src, ':') {
        None => Err("checkpoint entity has no id separator: "@ + debug_str(src)),
        Some((id, fields)) => {
            let v = split_spec(fields, ',');
            if v.len() != 6 {
                Err("checkpoint entity requires 6 fields, got "@ + nat_text(v.len()) + " in "@ + debug_str(src))
            } else {
                match parse_i32_spec(id) {
                    None => Err("invalid checkpoint entity id: "@ + i32_error(id)),
                    Some(n) => match parse_i32_spec(v[0]) {
                        None => Err("invalid checkpoint x: "@ + i32_error(v[0])),
                        Some(x) => match parse_i32_spec(v[1]) {
                            None => Err("invalid checkpoint y: "@ + i32_error(v[1])),
                            Some(y) => match parse_i32_spec(v[2]) {
                                None => Err("invalid checkpoint z: "@ + i32_error(v[2])),
                                Some(z) => match parse_i32_spec(v[3]) {
                                    None => Err("invalid checkpoint direction: "@ + i32_error(v[3])),
                                    Some(dv) => match dir_of_value(dv as int) {
                                        None => Err("invalid direction value "@ + int_text(dv as int)),
                                        Some(d) => match parse_i32_spec(v[4]) {
                                            None => Err("invalid checkpoint rotation: "@ + i32_error(v[4])),
                                            Some(rot) => match parse_i32_spec(v[5]) {
                                                None => Err("invalid checkpoint cook data: "@ + i32_error(v[5])),
                                                Some(cook) => Ok(
                                                    OracleEntity {
                                                        id: n,
                                                        pos: Coord { x, y, z },
                                                        direction: d,
                                                        rotation: rot,
                                                        cook_data: cook,
                                                    },
                                                ),
                                            },
                                        },
                                    },
                                },
                            },
                        },
                    },
                }
            }
        },
    }
}

fn field_i32(values: &Vec<Vec<char>>, index: usize, name: &str) -> (r: Result<i32, String>)
    requires
        index < values@.len(),
    ensures
        match parse_i32_spec(values@[index as int]@) {
            Some(n) => r == Ok::<i32, String>(n),
            None => r is Err && r->Err_0@ == "invalid checkpoint "@ + name@ + ": "@ + i32_error(values@[index as int]@),
        },
{
    match parse_i32(values[index].as_slice()) {
        Some(n) => Ok(n),
        None => {
            let mut message = String::from_str("invalid checkpoint ");
            message.append(name);
            message.append(": ");
            message.append(int_error_text(values[index].as_slice(), true, 2147483648, 2147483647));
            Err(message)
        },
    }
}

impl OracleEntity {
    /// Reads one checkpoint entity; see [`oracle_entity_spec`].
    pub fn parse(source: &str) -> (r: Result<OracleEntity, String>)
        ensures
            match oracle_entity_spec(source@) {
                Ok(e) => r == Ok::<OracleEntity, String>(e),
                Err(message) => r is Err && r->Err_0@ == message,
            },
    {
        let cs = to_chars(source);
        let (id, fields) = match split_once_chars(cs.as_slice(), ':') {
            Some(parts) => parts,
            None => {
                let mut message = String::from_str("checkpoint entity has no id separator: ");
                append_debug(&mut message, cs.as_slice());
                return Err(message);
            },
        };
        let values = split_chars(fields.as_slice(), ',');
        assert(values@.len() == split_spec(fields@, ',').len());
        if values.len() != 6 {
            let mut message = String::from_str("checkpoint entity requires 6 fields, got ");
            append_count(&mut message, values.len());
            message.append(" in ");
            append_debug(&mut message, cs.as_slice());
            return Err(message);
        }
        proof {
            assert forall|k: int| 0 <= k < 6 implies values@[k]@ == split_spec(fields@, ',')[k] by {
                assert(char_views(values@)[k] == values@[k]@);
            }
        }
        let n = match parse_i32(id.as_slice()) {
            Some(n) => n,
            None => {
                let mut message = String::from_str("invalid checkpoint entity id: ");
                message.append(int_error_text(id.as_slice(), true, 2147483648, 2147483647));
                return Err(message);
            },
        };
        proof {
            reveal_strlit("invalid checkpoint ");
            reveal_strlit(": ");
            reveal_strlit("x");
            reveal_strlit("y");
            reveal_strlit("z");
            reveal_strlit("direction");
            reveal_strlit("rotation");
            reveal_strlit("cook data");
            assert("invalid checkpoint "@ + "x"@ + ": "@ =~= "invalid checkpoint x: "@) by {
                reveal_strlit("invalid checkpoint x: ");
            }
            assert("invalid checkpoint "@ + "y"@ + ": "@ =~= "invalid checkpoint y: "@) by {
                reveal_strlit("invalid checkpoint y: ");
            }
            assert("invalid checkpoint "@ + "z"@ + ": "@ =~= "invalid checkpoint z: "@) by {
                reveal_strlit("invalid checkpoint z: ");
            }
            assert("invalid checkpoint "@ + "direction"@ + ": "@ =~= "invalid checkpoint direction: "@) by {
                reveal_strlit("invalid checkpoint direction: ");
            }
            assert("invalid checkpoint "@ + "rotation"@ + ": "@ =~= "invalid checkpoint rotation: "@) by {
                reveal_strlit("invalid checkpoint rotation: ");
            }
            assert("invalid checkpoint "@ + "cook data"@ + ": "@ =~= "invalid checkpoint cook data: "@) by {
                reveal_strlit("invalid checkpoint cook data: ");
            }
        }
        let x = match field_i32(&values, 0, "x") {
            Ok(v) => v,
            Err(e) => {
                return Err(e);
            },
        };
        let y = match field_i32(&values, 1, "y") {
            Ok(v) => v,
            Err(e) => {
                return Err(e);
            },
        };
        let z = match field_i32(&values, 2, "z") {
            Ok(v) => v,
            Err(e) => {
                return Err(e);
            },
        };
        let dv = match field_i32(&values, 3, "direction") {
            Ok(v) => v,
            Err(e) => {
                return Err(e);
            },
        };
        let direction = match Direction::from_i32(dv) {
            Ok(d) => d,
            Err(e) => {
                return Err(e);
            },
        };
        let rotation = match field_i32(&values, 4, "rotation") {
            Ok(v) => v,
            Err(e) => {
                return Err(e);
            },
        };
        let cook_data = match field_i32(&values, 5, "cook data") {
            Ok(v) => v,
            Err(e) => {
                return Err(e);
            },
        };
        Ok(OracleEntity { id: n, pos: Coord { x, y, z }, direction, rotation, cook_data })
    }
}

/// The state the game's own engine gave some entities after an action.
#[derive(Clone, Debug, PartialEq, Eq)]
pub struct OracleCheckpoint {
    pub entities: Vec<OracleEntity>,
}

/// The entity records of a checkpoint line: its `;`-separated non-empty
/// items, trimmed as a whole first.
pub open spec fn checkpoint_items(src: Seq<char>) -> Seq<Seq<char>> {
    nonempty(split_spec(trim_spec(src), ';'))
}

/// The first `k` items read as entities, or the first failure.
pub open spec fn parse_entities(items: Seq<Seq<char>>, k: int) -> Result<Seq<OracleEntity>, Seq<char>>
    decreases k,
{
    if k <= 0 {
        Ok(Seq::empty())
    } else {
        match parse_entities(items, k - 1) {
            Err(m) => Err(m),
            Ok(es) => match oracle_entity_spec(items[k - 1]) {
                Err(m) => Err(m),
                Ok(e) => Ok(es.push(e)),
            },
        }
    }
}

/// No two entities share an id.
pub open spec fn ids_unique(es: Seq<OracleEntity>) -> bool {
    forall|i: int, j: int| 0 <= i < j < es.len() ==> es[i].id != es[j].id
}

/// A checkpoint line: its entities, which must be at least one and of
/// distinct ids.
pub open spec fn checkpoint_spec(src: Seq<char>) -> Result<Seq<OracleEntity>, Seq<char>> {
    let items = checkpoint_items(src);
    match parse_entities(items, items.len() as int) {
        Err(m) => Err(m),
        Ok(es) => if es.len() == 0 {
            Err("oracle checkpoint has no entities"@)
        } else if !ids_unique(es) {
            Err("oracle checkpoint contains duplicate entity ids"@)
        } else {
            Ok(es)
        },
    }
}

/// The index of the first entity with this id.
pub open spec fn oracle_index_of(es: Seq<OracleEntity>, id: i32) -> Option<int>
    decreases es.len(),
{
    if es.len() == 0 {
        None
    } else {
        match oracle_index_of(es.drop_last(), id) {
            Some(i) => Some(i),
            None => if es.last().id == id {
                Some(es.len() - 1)
            } else {
                None
            },
        }
    }
}

/// The player's id in the game's own engine's checkpoints.
pub open spec fn oracle_player_id() -> i32 {
    67
}

proof fn lemma_parse_error_persists(items: Seq<Seq<char>>, k: int, n: int)
    requires
        0 <= k <= n,
        parse_entities(items, k) is Err,
    ensures
        parse_entities(items, n) == parse_entities(items, k),
    decreases n - k,
{
    if k < n {
        lemma_parse_error_persists(items, k, n - 1);
    }
}

proof fn lemma_oracle_index(es: Seq<OracleEntity>, id: i32, k: int)
    requires
        0 <= k <= es.len(),
        forall|j: int| 0 <= j < k ==> es[j].id != id,
    ensures
        oracle_index_of(es.take(k), id) is None,
    decreases k,
{
    if k > 0 {
        assert(es.take(k).drop_last() =~= es.take(k - 1));
        lemma_oracle_index(es, id, k - 1);
    }
}

proof fn lemma_oracle_index_extends(es: Seq<OracleEntity>, id: i32, k: int)
    requires
        0 <= k <= es.len(),
        oracle_index_of(es.take(k), id) is Some,
    ensures
        oracle_index_of(es, id) == oracle_index_of(es.take(k), id),
    decreases es.len() - k,
{
    if k < es.len() {
        assert(es.take(k + 1).drop_last() =~= es.take(k));
        lemma_oracle_index_extends(es, id, k + 1);
    } else {
        assert(es.take(k) =~= es);
    }
}

impl OracleCheckpoint {
    /// Reads one checkpoint line; see [`checkpoint_spec`].
    pub fn parse(source: &str) -> (r: Result<OracleCheckpoint, String>)
        ensures
            match checkpoint_spec(source@) {
                Ok(es) => r is Ok && r->Ok_0.entities@ == es,
                Err(message) => r is Err && r->Err_0@ == message,
            },
    {
        let chars = to_chars(source);
        let trimmed = trim_chars(chars.as_slice());
        let pieces = split_chars(trimmed.as_slice(), ';');
        let items = keep_nonempty(&pieces);
        let ghost all = checkpoint_items(source@);
        assert(char_views(items@) == all);
        let mut entities: Vec<OracleEntity> = Vec::new();
        let mut i: usize = 0;
        while i < items.len()
            invariant
                char_views(items@) == all,
                all == checkpoint_items(source@),
                i <= all.len(),
                parse_entities(all, i as int) == Ok::<Seq<OracleEntity>, Seq<char>>(entities@),
            decreases all.len() - i,
        {
            assert(items@[i as int]@ == all[i as int]);
            let text = crate::text::string_from_chars(items[i].as_slice());
            match OracleEntity::parse(text.as_str()) {
                Ok(e) => {
                    entities.push(e);
                },
                Err(message) => {
                    proof {
                        lemma_parse_error_persists(all, i + 1, all.len() as int);
                    }
                    return Err(message);
                },
            }
            i += 1;
        }
        if entities.len() == 0 {
            return Err(String::from_str("oracle checkpoint has no entities"));
        }
        assert(all.take(all.len() as int) =~= all);
        let ghost parsed = entities@;
        assert(checkpoint_spec(source@) == (if parsed.len() == 0 {
            Err::<Seq<OracleEntity>, Seq<char>>("oracle checkpoint has no entities"@)
        } else if !ids_unique(parsed) {
            Err::<Seq<OracleEntity>, Seq<char>>("oracle checkpoint contains duplicate entity ids"@)
        } else {
            Ok::<Seq<OracleEntity>, Seq<char>>(parsed)
        }));
        let mut a: usize = 0;
        while a < entities.len()
            invariant
                parsed == entities@,
                parsed.len() > 0,
                checkpoint_spec(source@) == (if !ids_unique(parsed) {
                    Err::<Seq<OracleEntity>, Seq<char>>("oracle checkpoint contains duplicate entity ids"@)
                } else {
                    Ok::<Seq<OracleEntity>, Seq<char>>(parsed)
                }),
                a <= entities@.len(),
                forall|p: int, q: int| 0 <= p < q < entities@.len() && p < a ==> entities@[p].id != entities@[q].id,
            decreases entities@.len() - a,
        {
            let mut b: usize = a + 1;
            while b < entities.len()
                invariant
                    parsed == entities@,
                    checkpoint_spec(source@) == (if !ids_unique(parsed) {
                        Err::<Seq<OracleEntity>, Seq<char>>("oracle checkpoint contains duplicate entity ids"@)
                    } else {
                        Ok::<Seq<OracleEntity>, Seq<char>>(parsed)
                    }),
                    a < entities@.len(),
                    a + 1 <= b <= entities@.len(),
                    forall|p: int, q: int| 0 <= p < q < entities@.len() && p < a ==> entities@[p].id != entities@[q].id,
                    forall|q: int| a < q < b ==> entities@[a as int].id != entities@[q].id,
                decreases entities@.len() - b,
            {
                if entities[a].id == entities[b].id {
                    assert(!ids_unique(entities@));
                    return Err(String::from_str("oracle checkpoint contains duplicate entity ids"));
                }
                b += 1;
            }
            a += 1;
        }
        Ok(OracleCheckpoint { entities })
    }

    /// The player's entity, if the checkpoint holds it.
    pub fn player(&self) -> (r: Option<&OracleEntity>)
        ensures
            match r {
                Some(e) => oracle_index_of(self.entities@, oracle_player_id()) matches Some(i) && *e == self.entities@[i],
                None => oracle_index_of(self.entities@, oracle_player_id()) is None,
            },
    {
        let mut i: usize = 0;
        while i < self.entities.len()
            invariant
                i <= self.entities@.len(),
                forall|j: int| 0 <= j < i ==> self.entities@[j].id != oracle_player_id(),
            decreases self.entities@.len() - i,
        {
            if self.entities[i].id == 67 {
                proof {
                    lemma_oracle_index(self.entities@, 67, i as int);
                    assert(self.entities@.take(i + 1).drop_last() =~= self.entities@.take(i as int));
                    lemma_oracle_index_extends(self.entities@, 67, i + 1);
                }
                return Some(&self.entities[i]);
            }
            i += 1;
        }
        proof {
            lemma_oracle_index(self.entities@, 67, i as int);
            assert(self.entities@.take(i as int) =~= self.entities@);
        }
        None
    }
}

/// One puzzle of the walkthrough: its entry state, its direction replay
/// and the game's own engine's state after each action but the last, which
/// returns to the overworld.
#[derive(Clone, Debug, PartialEq, Eq)]
pub struct OracleSegment {
    pub ordinal: usize,
    pub id: String,
    pub entry: GameState,
    pub replay: Replay,
    pub checkpoints: Vec<OracleCheckpoint>,
}

/// The texts the walkthrough archive holds for one puzzle: its entry
/// state, its direction replay and its checkpoint trace.
#[derive(Clone, Debug, PartialEq, Eq)]
pub struct SegmentSources {
    pub state: Option<String>,
    pub replay: Option<String>,
    pub trace: Option<String>,
}

/// `str::parse::<usize>`.
pub open spec fn usize_of(s: Seq<char>) -> Option<usize> {
    match crate::text::parse_u64_spec(s) {
        Some(v) => if v <= usize::MAX {
            Some(v as usize)
        } else {
            None
        },
        None => None,
    }
}

/// The puzzle a saved state targets: the level of its `I` header.
pub open spec fn state_target(v: Seq<char>) -> Seq<char> {
    if crate::sausage::model::in_level(v) {
        crate::sausage::model::raw_records(v)[0].drop_first()
    } else {
        Seq::empty()
    }
}

/// The first `k` lines of a trace read as checkpoints, or the first
/// failure.
pub open spec fn parse_checkpoints(lines: Seq<Seq<char>>, k: int) -> Result<Seq<Seq<OracleEntity>>, Seq<char>>
    decreases k,
{
    if k <= 0 {
        Ok(Seq::empty())
    } else {
        match parse_checkpoints(lines, k - 1) {
            Err(m) => Err(m),
            Ok(cs) => match checkpoint_spec(lines[k - 1]) {
                Err(m) => Err(m),
                Ok(c) => Ok(cs.push(c)),
            },
        }
    }
}

/// A checkpoint trace: one checkpoint per line.
pub open spec fn trace_spec(text: Seq<char>) -> Result<Seq<Seq<OracleEntity>>, Seq<char>> {
    let lines = crate::text::lines_spec(text);
    parse_checkpoints(lines, lines.len() as int)
}

/// What reading a puzzle's sources gives: a failure with its message, an
/// entry state that does not parse, or the puzzle's parts.
pub enum SegmentCheck {
    Failed(Seq<char>),
    BadState,
    Parsed { ordinal: usize, id: Seq<char>, moves: Seq<Direction>, removed: nat, checkpoints: Seq<Seq<OracleEntity>> },
}

/// A puzzle's sources read in order: the `<ordinal>-<id>` stem, the entry
/// state (which must target the puzzle), the replay, the trace, and one
/// checkpoint per action but the last.
pub open spec fn segment_check(stem: Seq<char>, state: Option<Seq<char>>, replay: Option<Seq<char>>, trace: Option<Seq<char>>) -> SegmentCheck {
    match split_once_spec(stem, '-') {
        None => SegmentCheck::Failed("oracle segment stem has no ordinal: "@ + debug_str(stem)),
        Some((o, id)) => match usize_of(o) {
            None => SegmentCheck::Failed(
                "invalid oracle ordinal in "@ + debug_str(stem) + ": "@ + int_error_spec(o, false, 0, usize::MAX as int),
            ),
            Some(n) => match state {
                None => SegmentCheck::Failed("missing entry state for "@ + stem),
                Some(t) => if !crate::sausage::model::state_ok(t) {
                    SegmentCheck::BadState
                } else if !crate::sausage::model::in_level(t) || state_target(t) != id {
                    SegmentCheck::Failed(
                        stem + " entry targets "@ + debug_str(state_target(t)) + " instead of "@ + debug_str(id),
                    )
                } else {
                    match replay {
                        None => SegmentCheck::Failed("missing direction replay for "@ + stem),
                        Some(rt) => match crate::sausage::replay::replay_run(split_spec(rt, '\n')) {
                            Err(m) => SegmentCheck::Failed("invalid direction replay for "@ + stem + ": "@ + m),
                            Ok((moves, removed)) => match trace {
                                None => SegmentCheck::Failed("missing checkpoint trace for "@ + stem),
                                Some(tt) => match trace_spec(tt) {
                                    Err(m) => SegmentCheck::Failed("invalid checkpoint trace for "@ + stem + ": "@ + m),
                                    Ok(cps) => if cps.len() + 1 != moves.len() {
                                        SegmentCheck::Failed(
                                            stem + " has "@ + nat_text(moves.len()) + " actions but "@ + nat_text(cps.len())
                                                + " non-final checkpoints"@,
                                        )
                                    } else {
                                        SegmentCheck::Parsed { ordinal: n, id, moves, removed, checkpoints: cps }
                                    },
                                },
                            },
                        },
                    }
                },
            },
        },
    }
}

pub open spec fn opt_view(s: Option<String>) -> Option<Seq<char>> {
    match s {
        Some(t) => Some(t@),
        None => None,
    }
}

pub open spec fn checkpoint_views(cs: Seq<OracleCheckpoint>) -> Seq<Seq<OracleEntity>> {
    cs.map_values(|c: OracleCheckpoint| c.entities@)
}

proof fn lemma_checkpoints_error_persists(lines: Seq<Seq<char>>, k: int, n: int)
    requires
        0 <= k <= n,
        parse_checkpoints(lines, k) is Err,
    ensures
        parse_checkpoints(lines, n) == parse_checkpoints(lines, k),
    decreases n - k,
{
    if k < n {
        lemma_checkpoints_error_persists(lines, k, n - 1);
    }
}

fn parse_trace(text: &str) -> (r: Result<Vec<OracleCheckpoint>, String>)
    ensures
        match trace_spec(text@) {
            Ok(cs) => r is Ok && checkpoint_views(r->Ok_0@) == cs,
            Err(m) => r is Err && r->Err_0@ == m,
        },
{
    let lines = crate::text::lines_of(text);
    let ghost all = crate::text::lines_spec(text@);
    let mut out: Vec<OracleCheckpoint> = Vec::new();
    assert(checkpoint_views(out@) =~= Seq::<Seq<OracleEntity>>::empty());
    let mut i: usize = 0;
    while i < lines.len()
        invariant
            char_views(lines@) == all,
            all == crate::text::lines_spec(text@),
            i <= all.len(),
            parse_checkpoints(all, i as int) == Ok::<Seq<Seq<OracleEntity>>, Seq<char>>(checkpoint_views(out@)),
        decreases all.len() - i,
    {
        assert(lines@[i as int]@ == all[i as int]);
        let line = crate::text::string_from_chars(lines[i].as_slice());
        match OracleCheckpoint::parse(line.as_str()) {
            Ok(c) => {
                let ghost before = out@;
                out.push(c);
                assert(checkpoint_views(out@) =~= checkpoint_views(before).push(c.entities@));
            },
            Err(m) => {
                proof {
                    lemma_checkpoints_error_persists(all, i + 1, all.len() as int);
                }
                return Err(m);
            },
        }
        i += 1;
    }
    assert(all.take(all.len() as int) =~= all);
    Ok(out)
}

impl OracleSegment {
    /// Reads one puzzle of the walkthrough from its stem and sources; see
    /// [`segment_check`].
    pub fn parse(stem: &str, sources: SegmentSources) -> (r: Result<OracleSegment, String>)
        ensures
            segment_read(stem@, opt_view(sources.state), opt_view(sources.replay), opt_view(sources.trace), r),
    {
        let stem_chars = to_chars(stem);
        let (ordinal_text, id) = match split_once_chars(stem_chars.as_slice(), '-') {
            Some(parts) => parts,
            None => {
                let mut message = String::from_str("oracle segment stem has no ordinal: ");
                append_debug(&mut message, stem_chars.as_slice());
                return Err(message);
            },
        };
        let ordinal: usize = match crate::text::parse_u64_limited(ordinal_text.as_slice(), usize::MAX as u64) {
            Some(v) => v as usize,
            None => {
                let mut message = String::from_str("invalid oracle ordinal in ");
                append_debug(&mut message, stem_chars.as_slice());
                message.append(": ");
                message.append(int_error_text(ordinal_text.as_slice(), false, 0, usize::MAX as u64));
                return Err(message);
            },
        };
        let state_text = match &sources.state {
            Some(t) => t,
            None => {
                let mut message = String::from_str("missing entry state for ");
                message.append(stem);
                return Err(message);
            },
        };
        let entry = match GameState::parse(state_text.as_str()) {
            Ok(g) => g,
            Err(error) => {
                let mut message = String::from_str("invalid entry state for ");
                message.append(stem);
                message.append(": ");
                let ghost head = message@;
                message.append(error.as_str());
                assert(message@.take(head.len() as int) =~= head);
                return Err(message);
            },
        };
        let id_text = crate::text::string_from_chars(id.as_slice());
        if entry.overworld || !str_eq(entry.push_target_level.as_str(), id_text.as_str()) {
            let mut message = String::from_str(stem);
            message.append(" entry targets ");
            let target = to_chars(entry.push_target_level.as_str());
            append_debug(&mut message, target.as_slice());
            message.append(" instead of ");
            append_debug(&mut message, id.as_slice());
            return Err(message);
        }
        let replay_text = match &sources.replay {
            Some(t) => t,
            None => {
                let mut message = String::from_str("missing direction replay for ");
                message.append(stem);
                return Err(message);
            },
        };
        let replay = match Replay::parse(replay_text.as_str()) {
            Ok(r) => r,
            Err(error) => {
                let mut message = String::from_str("invalid direction replay for ");
                message.append(stem);
                message.append(": ");
                message.append(error.as_str());
                return Err(message);
            },
        };
        let trace_text = match &sources.trace {
            Some(t) => t,
            None => {
                let mut message = String::from_str("missing checkpoint trace for ");
                message.append(stem);
                return Err(message);
            },
        };
        let checkpoints = match parse_trace(trace_text.as_str()) {
            Ok(cs) => cs,
            Err(error) => {
                let mut message = String::from_str("invalid checkpoint trace for ");
                message.append(stem);
                message.append(": ");
                message.append(error.as_str());
                return Err(message);
            },
        };
        assert(checkpoint_views(checkpoints@).len() == checkpoints@.len());
        if checkpoints.len() >= replay.directions.len() || checkpoints.len() + 1 != replay.directions.len() {
            let mut message = String::from_str(stem);
            message.append(" has ");
            append_count(&mut message, replay.directions.len());
            message.append(" actions but ");
            append_count(&mut message, checkpoints.len());
            message.append(" non-final checkpoints");
            return Err(message);
        }
        Ok(OracleSegment { ordinal, id: id_text, entry, replay, checkpoints })
    }
}

/// What reading one puzzle from its stem and sources gives; see
/// [`segment_check`].
pub open spec fn segment_read(
    stem: Seq<char>,
    state: Option<Seq<char>>,
    replay: Option<Seq<char>>,
    trace: Option<Seq<char>>,
    r: Result<OracleSegment, String>,
) -> bool {
    match segment_check(stem, state, replay, trace) {
        SegmentCheck::Failed(m) => r is Err && r->Err_0@ == m,
        SegmentCheck::BadState => r is Err && r->Err_0@.len() >= ("invalid entry state for "@ + stem + ": "@).len()
            && r->Err_0@.take(("invalid entry state for "@ + stem + ": "@).len() as int) == "invalid entry state for "@ + stem + ": "@,
        SegmentCheck::Parsed { ordinal, id, moves, removed, checkpoints } => r is Ok && {
            let seg = r->Ok_0;
            &&& seg.ordinal == ordinal
            &&& seg.id@ == id
            &&& crate::sausage::model::state_of(state->0, seg.entry)
            &&& seg.replay.directions@ == moves
            &&& seg.replay.removed_undos == removed
            &&& checkpoint_views(seg.checkpoints@) == checkpoints
        },
    }
}

/// The walkthrough built from parsed segments: the first gap in their
/// sorted ordinals is an error; otherwise the segments in ordinal order,
/// numbered from one.
pub open spec fn campaign_built(segments: Seq<OracleSegment>, r: Result<OracleCampaign, String>) -> bool {
    match first_gap(sorted_ordinals(segments), segments.len() as int) {
        Some(k) => r is Err && r->Err_0@ == "expected oracle ordinal "@ + nat_text((k + 1) as nat) + ", found "@
            + nat_text(sorted_ordinals(segments)[k] as nat),
        None => r is Ok && r->Ok_0.segments@.to_multiset() == segments.to_multiset() && forall|k: int|
            0 <= k < r->Ok_0.segments@.len() ==> (#[trigger] r->Ok_0.segments@[k]).ordinal == k + 1,
    }
}

/// The whole walkthrough, puzzle by puzzle.
#[derive(Clone, Debug, PartialEq, Eq)]
pub struct OracleCampaign {
    pub segments: Vec<OracleSegment>,
}

/// What replaying the walkthrough on the engine covered.
#[derive(Clone, Copy, Debug, PartialEq, Eq)]
pub struct EngineVerification {
    pub puzzles: usize,
    pub actions: usize,
    pub checkpoints: usize,
}

/// The number of actions of the first `k` segments.
pub open spec fn actions_of(segs: Seq<OracleSegment>, k: int) -> nat
    decreases k,
{
    if k <= 0 {
        0
    } else {
        actions_of(segs, k - 1) + segs[k - 1].replay.directions@.len()
    }
}

/// The roots of the segments' puzzle ids, in segment order.
pub open spec fn segment_roots(segs: Seq<OracleSegment>) -> Seq<Seq<char>> {
    segs.map_values(|s: OracleSegment| puzzle_root_spec(s.id@))
}

/// The number of actions of the complete walkthrough.
pub open spec fn walkthrough_actions() -> nat {
    11_769
}

proof fn lemma_actions_grow(segs: Seq<OracleSegment>, a: int, b: int)
    requires
        0 <= a <= b <= segs.len(),
    ensures
        actions_of(segs, a) <= actions_of(segs, b),
    decreases b - a,
{
    if a < b {
        lemma_actions_grow(segs, a, b - 1);
    }
}

/// A replay guided by one segment: each direction must be the segment's
/// next one.
#[derive(Clone, Debug)]
pub struct GuidedReplay<'a> {
    segment: &'a OracleSegment,
    action_index: usize,
}

impl<'a> GuidedReplay<'a> {
    pub closed spec fn segment_of(&self) -> OracleSegment {
        *self.segment
    }

    pub closed spec fn index_of(&self) -> nat {
        self.action_index as nat
    }

    /// A replay of the segment at its first action.
    pub fn new(segment: &'a OracleSegment) -> (r: GuidedReplay<'a>)
        ensures
            r.segment_of() == *segment,
            r.index_of() == 0,
    {
        GuidedReplay { segment, action_index: 0 }
    }

    /// Takes one direction. It must be the segment's next one: then the
    /// replay moves on and gives the checkpoint after that action, none
    /// after the last. A replay at its end, or another direction, is an
    /// error and the replay stays where it was.
    pub fn step(&mut self, direction: Direction) -> (r: Result<Option<&'a OracleCheckpoint>, String>)
        requires
            old(self).index_of() <= old(self).segment_of().replay.directions@.len(),
        ensures
            final(self).segment_of() == old(self).segment_of(),
            final(self).index_of() <= final(self).segment_of().replay.directions@.len(),
            ({
                let seg = old(self).segment_of();
                let k = old(self).index_of() as int;
                let ds = seg.replay.directions@;
                if k >= ds.len() {
                    r is Err && final(self).index_of() == old(self).index_of()
                        && r->Err_0@ == seg.id@ + " replay is already complete"@
                } else if direction != ds[k] {
                    r is Err && final(self).index_of() == old(self).index_of()
                        && r->Err_0@ == seg.id@ + " action "@ + nat_text((k + 1) as nat) + " is "@
                        + direction_debug(direction) + ", expected "@ + direction_debug(ds[k])
                } else {
                    &&& r is Ok
                    &&& final(self).index_of() == k + 1
                    &&& match r->Ok_0 {
                        Some(c) => k + 1 < ds.len() && k < seg.checkpoints@.len() && *c == seg.checkpoints@[k],
                        None => k + 1 == ds.len() || k >= seg.checkpoints@.len(),
                    }
                }
            }),
    {
        let segment: &'a OracleSegment = self.segment;
        if self.action_index >= segment.replay.directions.len() {
            let mut message = String::from_str(segment.id.as_str());
            message.append(" replay is already complete");
            return Err(message);
        }
        let expected = segment.replay.directions[self.action_index];
        if direction != expected {
            let mut message = String::from_str(segment.id.as_str());
            message.append(" action ");
            append_count(&mut message, self.action_index + 1);
            message.append(" is ");
            message.append(direction_debug_text(direction));
            message.append(", expected ");
            message.append(direction_debug_text(expected));
            return Err(message);
        }
        self.action_index += 1;
        if self.action_index == segment.replay.directions.len() {
            Ok(None)
        } else if self.action_index - 1 < segment.checkpoints.len() {
            Ok(Some(&segment.checkpoints[self.action_index - 1]))
        } else {
            Ok(None)
        }
    }

    /// Whether every direction of the segment has been taken.
    pub fn complete(&self) -> (r: bool)
        ensures
            r == (self.index_of() == self.segment_of().replay.directions@.len()),
    {
        self.action_index == self.segment.replay.directions.len()
    }

    /// The number of directions taken.
    pub fn action_index(&self) -> (r: usize)
        ensures
            r == self.index_of(),
    {
        self.action_index
    }
}

impl OracleCampaign {
    /// The number of actions over all segments.
    pub fn action_count(&self) -> (r: usize)
        requires
            actions_of(self.segments@, self.segments@.len() as int) <= usize::MAX,
        ensures
            r == actions_of(self.segments@, self.segments@.len() as int),
    {
        let mut total: usize = 0;
        let mut i: usize = 0;
        while i < self.segments.len()
            invariant
                i <= self.segments@.len(),
                actions_of(self.segments@, self.segments@.len() as int) <= usize::MAX,
                total == actions_of(self.segments@, i as int),
            decreases self.segments@.len() - i,
        {
            proof {
                lemma_actions_grow(self.segments@, i + 1, self.segments@.len() as int);
            }
            total = total + self.segments[i].replay.directions.len();
            i += 1;
        }
        total
    }

    /// Checks that the walkthrough covers the complete campaign: one
    /// segment per puzzle, the roots of their ids exactly the campaign's
    /// puzzle ids, the complete action count, and each segment's replay
    /// accepted in full by its guided replay.
    pub fn validate_against(&self, campaign: &Campaign) -> (r: Result<(), String>)
        requires
            actions_of(self.segments@, self.segments@.len() as int) <= usize::MAX,
        ensures
            self.segments@.len() != crate::sausage::entries::campaign_size() ==> r is Err && r->Err_0@
                == "complete walkthrough requires 86 segments, found "@ + nat_text(self.segments@.len()),
            self.segments@.len() == crate::sausage::entries::campaign_size() ==> {
                let roots_match = segment_roots(self.segments@).to_set() == puzzle_ids_spec(campaign.view().temples).to_set();
                let actions = actions_of(self.segments@, self.segments@.len() as int);
                &&& !roots_match ==> r is Err && r->Err_0@.take(46) == "walkthrough/campaign puzzle mismatch; missing="@
                &&& roots_match && actions != walkthrough_actions() ==> r is Err && r->Err_0@
                    == "expected 11769 puzzle actions, found "@ + nat_text(actions)
                &&& roots_match && actions == walkthrough_actions() ==> r is Ok
            },
    {
        if self.segments.len() != 86 {
            let mut message = String::from_str("complete walkthrough requires 86 segments, found ");
            append_count(&mut message, self.segments.len());
            return Err(message);
        }
        let expected = campaign.puzzle_ids();
        let mut actual: Vec<&str> = Vec::new();
        let mut i: usize = 0;
        while i < self.segments.len()
            invariant
                i <= self.segments@.len(),
                actual@.map_values(|x: &str| x@) == segment_roots(self.segments@).take(i as int),
            decreases self.segments@.len() - i,
        {
            let root = puzzle_root(self.segments[i].id.as_str());
            let ghost before = actual@;
            actual.push(root);
            assert(actual@.map_values(|x: &str| x@) =~= before.map_values(|x: &str| x@).push(root@));
            assert(segment_roots(self.segments@).take(i + 1) =~= segment_roots(self.segments@).take(i as int).push(
                puzzle_root_spec(self.segments@[i as int].id@),
            ));
            i += 1;
        }
        assert(segment_roots(self.segments@).take(i as int) =~= segment_roots(self.segments@));
        let missing = crate::sausage::entries::missing_from(&expected, &actual);
        let extra = crate::sausage::entries::missing_from(&actual, &expected);
        let ghost ev = expected@.map_values(|x: &str| x@).to_set();
        let ghost av = actual@.map_values(|x: &str| x@).to_set();
        if missing.len() != 0 || extra.len() != 0 {
            proof {
                if av == ev {
                    assert(av =~= ev.union(av));
                    assert(ev =~= av.union(ev));
                }
            }
            let mut message = String::from_str("walkthrough/campaign puzzle mismatch; missing=");
            proof {
                reveal_strlit("walkthrough/campaign puzzle mismatch; missing=");
            }
            let ghost head = message@;
            crate::sausage::entries::append_list(&mut message, &missing);
            let ghost m1 = message@;
            message.append(", extra=");
            let ghost m2 = message@;
            crate::sausage::entries::append_list(&mut message, &extra);
            proof {
                assert(m1.take(46) =~= head);
                assert(m2.take(46) =~= m1.take(46));
                assert(message@.take(46) =~= m2.take(m2.len() as int).take(46));
            }
            return Err(message);
        }
        assert(av =~= ev) by {
            assert forall|x: Seq<char>| av.contains(x) <==> ev.contains(x) by {
                assert(av.contains(x) ==> av.union(ev).contains(x));
                assert(ev.contains(x) ==> ev.union(av).contains(x));
            }
        }
        let actions = self.action_count();
        if actions != 11_769 {
            let mut message = String::from_str("expected 11769 puzzle actions, found ");
            append_count(&mut message, actions);
            return Err(message);
        }
        let mut s: usize = 0;
        while s < self.segments.len()
            invariant
                s <= self.segments@.len(),
            decreases self.segments@.len() - s,
        {
            let segment = &self.segments[s];
            let mut replay = GuidedReplay::new(segment);
            let mut k: usize = 0;
            while k < segment.replay.directions.len()
                invariant
                    k <= segment.replay.directions@.len(),
                    replay.segment_of() == *segment,
                    replay.index_of() == k,
                decreases segment.replay.directions@.len() - k,
            {
                let direction = segment.replay.directions[k];
                match replay.step(direction) {
                    Ok(_) => {},
                    Err(message) => {
                        return Err(message);
                    },
                }
                k += 1;
            }
            if !replay.complete() {
                let mut message = String::from_str(segment.id.as_str());
                message.append(" did not consume its complete replay");
                return Err(message);
            }
            s += 1;
        }
        Ok(())
    }
}

/// How `Debug` writes a checkpoint state: `(Coord { x: .., y: .., z: .. },
/// direction, rotation, cook data)`.
pub open spec fn state_debug(pos: Coord, direction: Direction, rotation: i32, cook_data: i32) -> Seq<char> {
    "(Coord { x: "@ + int_text(pos.x as int) + ", y: "@ + int_text(pos.y as int) + ", z: "@ + int_text(pos.z as int)
        + " }, "@ + direction_debug(direction) + ", "@ + int_text(rotation as int) + ", "@ + int_text(cook_data as int)
        + ")"@
}

fn append_state(out: &mut String, pos: Coord, direction: Direction, rotation: i32, cook_data: i32)
    ensures
        final(out)@ == old(out)@ + state_debug(pos, direction, rotation, cook_data),
{
    out.append("(Coord { x: ");
    append_int(out, pos.x as i64);
    out.append(", y: ");
    append_int(out, pos.y as i64);
    out.append(", z: ");
    append_int(out, pos.z as i64);
    out.append(" }, ");
    out.append(direction_debug_text(direction));
    out.append(", ");
    append_int(out, rotation as i64);
    out.append(", ");
    append_int(out, cook_data as i64);
    out.append(")");
}

/// Whether the engine's entity matches a checkpoint entity: same position,
/// direction, rotation and cook data.
pub open spec fn matches_checkpoint(actual: crate::sausage::model::Entity, expected: OracleEntity) -> bool {
    actual.pos == expected.pos && actual.direction == expected.direction && actual.rotation == expected.rotation
        && actual.cook_data == expected.cook_data
}

/// The first checkpoint entity, among the first `k`, that the game lacks
/// or does not match.
pub open spec fn first_mismatch(v: crate::sausage::world::WorldView, es: Seq<OracleEntity>, k: int) -> Option<int>
    decreases k,
{
    if k <= 0 {
        None
    } else {
        match first_mismatch(v, es, k - 1) {
            Some(i) => Some(i),
            None => match entity_of(v, es[k - 1].id) {
                None => Some(k - 1),
                Some(a) => if matches_checkpoint(a, es[k - 1]) {
                    None
                } else {
                    Some(k - 1)
                },
            },
        }
    }
}

proof fn lemma_mismatch_persists(v: crate::sausage::world::WorldView, es: Seq<OracleEntity>, k: int, n: int)
    requires
        0 <= k <= n,
        first_mismatch(v, es, k) is Some,
    ensures
        first_mismatch(v, es, n) == first_mismatch(v, es, k),
    decreases n - k,
{
    if k < n {
        lemma_mismatch_persists(v, es, k, n - 1);
    }
}

/// Checks a game against a checkpoint after an action: every checkpoint
/// entity exists and matches; the first that does not is reported.
pub fn verify_checkpoint(game: &Game3d, checkpoint: &OracleCheckpoint, puzzle: &str, action: usize) -> (r: Result<(), String>)
    ensures
        match first_mismatch(game.world_view(), checkpoint.entities@, checkpoint.entities@.len() as int) {
            None => r is Ok,
            Some(i) => {
                let e = checkpoint.entities@[i];
                r is Err && r->Err_0@ == match entity_of(game.world_view(), e.id) {
                    None => puzzle@ + " action "@ + nat_text(action as nat) + ": missing entity "@ + int_text(e.id as int),
                    Some(a) => puzzle@ + " action "@ + nat_text(action as nat) + ": entity "@ + int_text(e.id as int)
                        + " actual="@ + state_debug(a.pos, a.direction, a.rotation, a.cook_data) + " expected="@
                        + state_debug(e.pos, e.direction, e.rotation, e.cook_data),
                }
            },
        },
{
    let ghost v = game.world_view();
    let ghost es = checkpoint.entities@;
    let mut i: usize = 0;
    while i < checkpoint.entities.len()
        invariant
            v == game.world_view(),
            es == checkpoint.entities@,
            i <= es.len(),
            first_mismatch(v, es, i as int) is None,
        decreases es.len() - i,
    {
        let expected = checkpoint.entities[i];
        match game.physics().entity(expected.id) {
            None => {
                proof {
                    lemma_mismatch_persists(v, es, i + 1, es.len() as int);
                }
                let mut message = String::from_str(puzzle);
                message.append(" action ");
                append_count(&mut message, action);
                message.append(": missing entity ");
                append_int(&mut message, expected.id as i64);
                return Err(message);
            },
            Some(actual) => {
                if !(actual.pos == expected.pos && actual.direction == expected.direction && actual.rotation
                    == expected.rotation && actual.cook_data == expected.cook_data) {
                    proof {
                        lemma_mismatch_persists(v, es, i + 1, es.len() as int);
                    }
                    let mut message = String::from_str(puzzle);
                    message.append(" action ");
                    append_count(&mut message, action);
                    message.append(": entity ");
                    append_int(&mut message, expected.id as i64);
                    message.append(" actual=");
                    append_state(&mut message, actual.pos, actual.direction, actual.rotation, actual.cook_data);
                    message.append(" expected=");
                    append_state(&mut message, expected.pos, expected.direction, expected.rotation, expected.cook_data);
                    return Err(message);
                }
            },
        }
        i += 1;
    }
    Ok(())
}

/// The segments' ordinals, in segment order.
pub open spec fn segment_ordinals(segs: Seq<OracleSegment>) -> Seq<usize> {
    segs.map_values(|s: OracleSegment| s.ordinal)
}

/// Ordinals in ascending order.
pub open spec fn ordinal_leq() -> spec_fn(usize, usize) -> bool {
    |a: usize, b: usize| a <= b
}

/// The segments' ordinals, sorted.
pub open spec fn sorted_ordinals(segs: Seq<OracleSegment>) -> Seq<usize> {
    segment_ordinals(segs).sort_by(ordinal_leq())
}

/// The first place, among the first `k`, whose sorted ordinal is not the
/// place counted from one.
pub open spec fn first_gap(ords: Seq<usize>, k: int) -> Option<int>
    decreases k,
{
    if k <= 0 {
        None
    } else {
        match first_gap(ords, k - 1) {
            Some(i) => Some(i),
            None => if ords[k - 1] != k {
                Some(k - 1)
            } else {
                None
            },
        }
    }
}

proof fn lemma_gap_persists(ords: Seq<usize>, k: int, n: int)
    requires
        0 <= k <= n,
        first_gap(ords, k) is Some,
    ensures
        first_gap(ords, n) == first_gap(ords, k),
    decreases n - k,
{
    if k < n {
        lemma_gap_persists(ords, k, n - 1);
    }
}

proof fn lemma_ordinal_leq_total()
    ensures
        vstd::relations::total_ordering(ordinal_leq()),
{
    let leq = ordinal_leq();
    assert(vstd::relations::reflexive(leq));
    assert(vstd::relations::antisymmetric(leq));
    assert(vstd::relations::transitive(leq));
    assert(vstd::relations::strongly_connected(leq));
}

impl OracleCampaign {
    /// The walkthrough from its parsed segments, put in ordinal order; the
    /// ordinals must run from one without a gap or a repeat.
    pub fn from_segments(segments: Vec<OracleSegment>) -> (r: Result<OracleCampaign, String>)
        ensures
            campaign_built(segments@, r),
    {
        let ghost orig = segments@;
        let mut rest = segments;
        let mut sorted: Vec<OracleSegment> = Vec::new();
        let ghost mut taken: int = 0;
        assert(sorted@ =~= orig.take(0));
        assert(orig.skip(0) =~= orig);
        while rest.len() > 0
            invariant
                0 <= taken <= orig.len(),
                rest@ == orig.skip(taken),
                vstd::relations::sorted_by(segment_ordinals(sorted@), ordinal_leq()),
                sorted@.to_multiset() == orig.take(taken).to_multiset(),
                segment_ordinals(sorted@).to_multiset() == segment_ordinals(orig.take(taken)).to_multiset(),
            decreases rest@.len(),
        {
            let segment = rest.remove(0);
            let mut p: usize = 0;
            while p < sorted.len() && sorted[p].ordinal <= segment.ordinal
                invariant
                    p <= sorted@.len(),
                    forall|k: int| 0 <= k < p ==> sorted@[k].ordinal <= segment.ordinal,
                decreases sorted@.len() - p,
            {
                p += 1;
            }
            let ghost before = sorted@;
            let ghost item = segment;
            sorted.insert(p, segment);
            proof {
                assert(orig.take(taken + 1) =~= orig.take(taken).push(item)) by {
                    assert(orig.skip(taken)[0] == orig[taken]);
                }
                vstd::seq_lib::to_multiset_insert(before, p as int, item);
                vstd::seq_lib::to_multiset_build(orig.take(taken), item);
                assert(segment_ordinals(sorted@) =~= segment_ordinals(before).insert(p as int, item.ordinal));
                assert(segment_ordinals(orig.take(taken + 1)) =~= segment_ordinals(orig.take(taken)).push(item.ordinal));
                vstd::seq_lib::to_multiset_insert(segment_ordinals(before), p as int, item.ordinal);
                vstd::seq_lib::to_multiset_build(segment_ordinals(orig.take(taken)), item.ordinal);
                let so = segment_ordinals(sorted@);
                assert forall|a: int, b: int| 0 <= a < b < so.len() implies #[trigger] ordinal_leq()(so[a], so[b]) by {
                    let sb = segment_ordinals(before);
                    if b < p {
                        assert(so[a] == sb[a] && so[b] == sb[b]);
                        assert(ordinal_leq()(sb[a], sb[b]));
                    } else if a > p {
                        assert(so[a] == sb[a - 1] && so[b] == sb[b - 1]);
                        assert(ordinal_leq()(sb[a - 1], sb[b - 1]));
                    } else if a == p {
                        assert(so[b] == sb[b - 1]);
                        if p < before.len() {
                            assert(sb[p as int] > item.ordinal);
                            if b - 1 > p {
                                assert(ordinal_leq()(sb[p as int], sb[b - 1]));
                            }
                        }
                    } else if b == p {
                        assert(so[a] == sb[a]);
                        assert(so[b] == item.ordinal);
                        assert(before[a].ordinal <= item.ordinal);
                    } else {
                        assert(so[a] == sb[a] && so[b] == sb[b - 1]);
                        assert(ordinal_leq()(sb[a], sb[b - 1]));
                    }
                }
                assert(orig.skip(taken + 1) =~= rest@);
                taken = taken + 1;
            }
        }
        proof {
            assert(orig.take(taken) =~= orig);
            let sb = segment_ordinals(sorted@);
            lemma_ordinal_leq_total();
            segment_ordinals(orig).lemma_sort_by_ensures(ordinal_leq());
            vstd::seq_lib::lemma_sorted_unique(sb, sorted_ordinals(orig), ordinal_leq());
            vstd::seq_lib::to_multiset_len(sorted@);
            vstd::seq_lib::to_multiset_len(orig);
            assert(sb.len() == sorted@.len());
        }
        let mut k: usize = 0;
        while k < sorted.len()
            invariant
                orig == segments@,
                k <= sorted@.len(),
                sorted@.len() == orig.len(),
                segment_ordinals(sorted@) == sorted_ordinals(orig),
                first_gap(sorted_ordinals(orig), k as int) is None,
                forall|q: int| 0 <= q < k ==> (#[trigger] sorted@[q]).ordinal == q + 1,
            decreases sorted@.len() - k,
        {
            assert(segment_ordinals(sorted@)[k as int] == sorted@[k as int].ordinal);
            if sorted[k].ordinal != k + 1 {
                proof {
                    lemma_gap_persists(sorted_ordinals(orig), k + 1, orig.len() as int);
                }
                let mut message = String::from_str("expected oracle ordinal ");
                append_count(&mut message, k + 1);
                message.append(", found ");
                append_count(&mut message, sorted[k].ordinal);
                return Err(message);
            }
            k += 1;
        }
        Ok(OracleCampaign { segments: sorted })
    }
}

} // verus!
