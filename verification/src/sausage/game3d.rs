//! The general three-dimensional game: a [`PhysicsWorld`] together with the
//! puzzle's exit, and the rules that decide when a puzzle is won and can be
//! left.

use vstd::prelude::*;

use crate::sausage::campaign::{lookup, named_players, Campaign, PositionedDirection};
use crate::sausage::model::{
    ccw45_spec, coord_diff, coord_step, dir_of_value, is_extended_spec, coord_sum, cw45_spec, face, footprint_spec, inverse_spec, is_cardinal_spec, left_of_spec,
    normal_spec, parallel_spec, step_fits, Coord, Direction, Entity, EntityType, GameState,
};
use crate::sausage::physics::{comparable, Movement, MovementKind};
use crate::sausage::world::{
    at_ok, at_spec, collides_ok, collides_spec, motions_ok, world_wf, cooked_in, direction_debug, entities_at_from, entity_index_of, entity_of, first_index_of, footprint_of, from_state_error, from_state_ok,
    bounds_of, has_entity, has_movement, initial_view, lemma_entity_index_of, lower_of, lemma_movement_of_found, lemma_movement_of_none, lemma_without_found, lemma_without_none, without_movement, mask_entries, min_remaining, movement_of,
    no_mask_text, small, tick_ok, tick_state, unknown_entity_text, world_small, PhysicsWorld, WorldView, max_id, dynamic_ids,
    backup_step, restore_step,
};
use crate::sausage::physics::{duration_spec, same_value, speed_ok, zero_frac, Animation};
use crate::text::{append_int, int_text, split_spec};

verus! {

/// A force passed on to an entity: its direction, speed and twist.
#[derive(Clone, Copy, Debug, PartialEq, Eq)]
pub struct PassiveForce {
    pub direction: Direction,
    pub speed: i32,
    pub torsion: i32,
}

/// Two forces on one entity: opposed forces cancel to a slow stop, two
/// stops keep the faster, and agreeing forces keep the slower speed and the
/// twist they share.
pub open spec fn merged_force(left: PassiveForce, right: PassiveForce) -> PassiveForce {
    if left.direction != right.direction {
        PassiveForce { direction: Direction::NoDirection, speed: 1, torsion: 0 }
    } else if left.direction == Direction::NoDirection {
        PassiveForce {
            direction: Direction::NoDirection,
            speed: if left.speed >= right.speed { left.speed } else { right.speed },
            torsion: 0,
        }
    } else {
        PassiveForce {
            direction: left.direction,
            speed: if left.speed <= right.speed { left.speed } else { right.speed },
            torsion: if left.torsion == right.torsion { left.torsion } else { 0 },
        }
    }
}

/// See [`merged_force`].
pub fn merge_forces(left: PassiveForce, right: PassiveForce) -> (r: PassiveForce)
    ensures
        r == merged_force(left, right),
{
    if left.direction != right.direction {
        return PassiveForce { direction: Direction::NoDirection, speed: 1, torsion: 0 };
    }
    if left.direction == Direction::NoDirection {
        return PassiveForce {
            direction: Direction::NoDirection,
            speed: if left.speed >= right.speed { left.speed } else { right.speed },
            torsion: 0,
        };
    }
    PassiveForce {
        direction: left.direction,
        speed: if left.speed <= right.speed { left.speed } else { right.speed },
        torsion: if left.torsion == right.torsion { left.torsion } else { 0 },
    }
}

/// Merging forces does not depend on their order.
pub proof fn law_merging_forces_commutes(left: PassiveForce, right: PassiveForce)
    ensures
        merged_force(left, right) == merged_force(right, left),
{
}

/// Whether two boxes, given by their corners, share a cell.
pub fn boxes_overlap(left_min: Coord, left_max: Coord, right_min: Coord, right_max: Coord) -> (r: bool)
    ensures
        r == (left_min.x <= right_max.x && left_max.x >= right_min.x && left_min.y <= right_max.y
            && left_max.y >= right_min.y && left_min.z <= right_max.z && left_max.z >= right_min.z),
{
    left_min.x <= right_max.x && left_max.x >= right_min.x && left_min.y <= right_max.y && left_max.y
        >= right_min.y && left_min.z <= right_max.z && left_max.z >= right_min.z
}

/// A face of a sausage touching a grill: a raw face becomes cooked, fully
/// when the sausage lies along the grill and half otherwise; a cooked face
/// burns.
pub fn cook_face(face: &mut i32, grill: Direction, sausage: Direction)
    ensures
        *old(face) == 0 && parallel_spec(grill, sausage) ==> *final(face) == 2,
        *old(face) == 0 && !parallel_spec(grill, sausage) ==> *final(face) == 1,
        *old(face) != 0 ==> *final(face) == 3,
{
    if *face == 0 {
        *face = if grill.parallel_to(sausage) { 2 } else { 1 };
    } else {
        *face = 3;
    }
}

/// Every face of the cook data is cooked once: none raw, none burnt.
pub open spec fn perfectly_cooked(cook: i32) -> bool {
    forall|k: nat| k < 4 ==> face(cook as int, k) != 0 && face(cook as int, k) != 3
}

/// Sausages that count for a puzzle: not above height 8 and not marked
/// with `S`.
pub open spec fn counted_sausage(e: Entity) -> bool {
    e.entity_type == EntityType::Sausage && e.pos.z <= 8 && !(e.data@.len() > 0 && e.data@[0] == 'S')
}

/// A puzzle is won when some sausage counts, and every counted sausage is
/// above the water and perfectly cooked.
pub open spec fn won_spec(es: Seq<Entity>) -> bool {
    &&& exists|i: int| 0 <= i < es.len() && counted_sausage(#[trigger] es[i])
    &&& forall|i: int| 0 <= i < es.len() && counted_sausage(#[trigger] es[i]) ==> es[i].pos.z >= -3 && perfectly_cooked(es[i].cook_data)
}

/// The index of the first entity of a type whose data is `data`.
pub open spec fn first_named_of(es: Seq<Entity>, t: EntityType, data: Seq<char>) -> Option<int>
    decreases es.len(),
{
    if es.len() == 0 {
        None
    } else {
        match first_named_of(es.drop_last(), t, data) {
            Some(i) => Some(i),
            None => if es.last().entity_type == t && es.last().data@ == data {
                Some(es.len() - 1)
            } else {
                None
            },
        }
    }
}

/// The index of the first sausage standing on a cell.
pub open spec fn first_sausage_on(es: Seq<Entity>, player_has_fork: bool, cell: Coord) -> Option<int>
    decreases es.len(),
{
    if es.len() == 0 {
        None
    } else {
        match first_sausage_on(es.drop_last(), player_has_fork, cell) {
            Some(i) => Some(i),
            None => if es.last().entity_type == EntityType::Sausage && footprint_spec(es.last(), player_has_fork).contains(cell) {
                Some(es.len() - 1)
            } else {
                None
            },
        }
    }
}

/// A game, from its exit back to what it was made of.
pub struct GameView {
    pub overworld: bool,
    pub push_target_level: Seq<char>,
    pub exit_pos: Coord,
    pub exit_direction: Direction,
    pub exit_up: bool,
    pub exit_attachment: Option<i32>,
    pub last_direction: Direction,
}

/// Why a state makes no game, when it does not: no player, no entry
/// position for its puzzle, no active island, or a world error.
pub open spec fn game_error(c: Campaign, state: GameState) -> Option<Seq<char>> {
    let level = state.push_target_level@;
    if first_index_of(state.entities@, EntityType::Player) is None {
        Some("state has no player"@)
    } else if lookup(named_players(c.player_positions@), level) is None {
        Some("puzzle "@ + crate::text::debug_str(level) + " has no campaign entry position"@)
    } else if first_named_of(state.entities@, EntityType::Island, level) is None {
        Some("puzzle "@ + crate::text::debug_str(level) + " has no active island"@)
    } else if !from_state_ok(state) {
        Some(from_state_error(state))
    } else {
        None
    }
}

/// The exit of a state's puzzle: the entry position relative to its
/// active island, and the sausage under it if any.
pub open spec fn initial_game(c: Campaign, state: GameState) -> GameView {
    let level = state.push_target_level@;
    let entry = lookup(named_players(c.player_positions@), level)->0;
    let island = state.entities@[first_named_of(state.entities@, EntityType::Island, level)->0];
    let exit_pos = coord_sum(entry.pos, island.pos);
    let has_fork = first_index_of(state.entities@, EntityType::Fork) is None;
    GameView {
        overworld: state.overworld,
        push_target_level: level,
        exit_pos,
        exit_direction: entry.direction,
        exit_up: true,
        exit_attachment: match first_sausage_on(state.entities@, has_fork, coord_step(exit_pos, Direction::Down)) {
            Some(i) => Some(state.entities@[i].id),
            None => None,
        },
        last_direction: Direction::NoDirection,
    }
}

/// Positions are small enough that the exit and the cells under it can be
/// computed.
pub open spec fn game_inputs_small(c: Campaign, state: GameState) -> bool {
    &&& forall|i: int| 0 <= i < state.entities@.len() ==> small((#[trigger] state.entities@[i]).pos)
    &&& forall|i: int| 0 <= i < c.player_positions@.len() ==> small((#[trigger] c.player_positions@[i]).1.pos)
}

/// The general game: the world and the puzzle's exit.
pub struct Game3d<'a> {
    pub world: PhysicsWorld<'a>,
    overworld: bool,
    push_target_level: String,
    exit_pos: Coord,
    exit_direction: Direction,
    exit_up: bool,
    exit_attachment: Option<i32>,
    last_direction: Direction,
}

pub(crate) fn player_position<'b>(entries: &'b Vec<(String, PositionedDirection)>, name: &str) -> (r: Option<&'b PositionedDirection>)
    ensures
        match r {
            Some(p) => lookup(named_players(entries@), name@) == Some(*p),
            None => lookup(named_players(entries@), name@) is None,
        },
{
    let ghost all = named_players(entries@);
    let mut i = entries.len();
    assert(all.take(i as int) =~= all);
    while i > 0
        invariant
            i <= entries@.len(),
            all == named_players(entries@),
            lookup(all, name@) == lookup(all.take(i as int), name@),
        decreases i,
    {
        assert(all.take(i as int).drop_last() =~= all.take(i - 1));
        if crate::text::str_eq(entries[i - 1].0.as_str(), name) {
            return Some(&entries[i - 1].1);
        }
        i -= 1;
    }
    None
}

proof fn lemma_first_named(es: Seq<Entity>, t: EntityType, data: Seq<char>, k: int)
    requires
        0 <= k <= es.len(),
        forall|j: int| 0 <= j < k ==> !(es[j].entity_type == t && es[j].data@ == data),
    ensures
        first_named_of(es.take(k), t, data) is None,
    decreases k,
{
    if k > 0 {
        assert(es.take(k).drop_last() =~= es.take(k - 1));
        lemma_first_named(es, t, data, k - 1);
    }
}

proof fn lemma_first_named_extends(es: Seq<Entity>, t: EntityType, data: Seq<char>, k: int)
    requires
        0 <= k <= es.len(),
        first_named_of(es.take(k), t, data) is Some,
    ensures
        first_named_of(es, t, data) == first_named_of(es.take(k), t, data),
    decreases es.len() - k,
{
    if k < es.len() {
        assert(es.take(k + 1).drop_last() =~= es.take(k));
        lemma_first_named_extends(es, t, data, k + 1);
    } else {
        assert(es.take(k) =~= es);
    }
}

pub(crate) fn find_named(es: &Vec<Entity>, t: EntityType, data: &str) -> (r: Option<usize>)
    ensures
        match r {
            Some(i) => first_named_of(es@, t, data@) == Some(i as int) && i < es@.len(),
            None => first_named_of(es@, t, data@) is None,
        },
{
    let mut i: usize = 0;
    while i < es.len()
        invariant
            i <= es@.len(),
            forall|j: int| 0 <= j < i ==> !(es@[j].entity_type == t && es@[j].data@ == data@),
        decreases es@.len() - i,
    {
        if es[i].entity_type == t && crate::text::str_eq(es[i].data.as_str(), data) {
            proof {
                lemma_first_named(es@, t, data@, i as int);
                assert(es@.take(i + 1).drop_last() =~= es@.take(i as int));
                lemma_first_named_extends(es@, t, data@, i + 1);
            }
            return Some(i);
        }
        i += 1;
    }
    proof {
        lemma_first_named(es@, t, data@, i as int);
        assert(es@.take(i as int) =~= es@);
    }
    None
}

fn find_sausage_on(es: &Vec<Entity>, player_has_fork: bool, cell: Coord) -> (r: Option<usize>)
    requires
        forall|i: int| 0 <= i < es@.len() ==> small((#[trigger] es@[i]).pos),
    ensures
        match r {
            Some(i) => first_sausage_on(es@, player_has_fork, cell) == Some(i as int) && i < es@.len(),
            None => first_sausage_on(es@, player_has_fork, cell) is None,
        },
{
    let mut i: usize = 0;
    while i < es.len()
        invariant
            i <= es@.len(),
            forall|k: int| 0 <= k < es@.len() ==> small((#[trigger] es@[k]).pos),
            first_sausage_on(es@.take(i as int), player_has_fork, cell) is None,
        decreases es@.len() - i,
    {
        assert(es@.take(i + 1).drop_last() =~= es@.take(i as int));
        assert(small(es@[i as int].pos));
        proof {
            crate::sausage::physics::lemma_delta_bounds(es@[i as int].direction);
        }
        if es[i].entity_type == EntityType::Sausage {
            let cells = es[i].footprint(player_has_fork);
            let mut found = false;
            let mut k: usize = 0;
            while k < cells.len()
                invariant
                    k <= cells@.len(),
                    found == exists|j: int| 0 <= j < k && cells@[j] == cell,
                decreases cells@.len() - k,
            {
                if cells[k] == cell {
                    found = true;
                }
                k += 1;
            }
            assert(found == cells@.contains(cell));
            if found {
                proof {
                    lemma_sausage_extends(es@, player_has_fork, cell, i + 1);
                }
                return Some(i);
            }
        }
        i += 1;
    }
    assert(es@.take(i as int) =~= es@);
    None
}

proof fn lemma_sausage_extends(es: Seq<Entity>, player_has_fork: bool, cell: Coord, k: int)
    requires
        0 <= k <= es.len(),
        first_sausage_on(es.take(k), player_has_fork, cell) is Some,
    ensures
        first_sausage_on(es, player_has_fork, cell) == first_sausage_on(es.take(k), player_has_fork, cell),
    decreases es.len() - k,
{
    if k < es.len() {
        assert(es.take(k + 1).drop_last() =~= es.take(k));
        lemma_sausage_extends(es, player_has_fork, cell, k + 1);
    } else {
        assert(es.take(k) =~= es);
    }
}

/// Whether every face of the cook data is cooked once; see
/// [`perfectly_cooked`].
fn cooked_once(cook: i32) -> (r: bool)
    ensures
        r == perfectly_cooked(cook),
{
    let mut faces = cook;
    let mut k: usize = 0;
    while k < 4
        invariant
            k <= 4,
            faces as int == crate::sausage::world::trunc_power(cook as int, k as nat),
            forall|q: nat| q < k ==> face(cook as int, q) != 0 && face(cook as int, q) != 3,
        decreases 4 - k,
    {
        proof {
            crate::sausage::world::lemma_face_step(cook as int, k as nat);
        }
        if faces % 4 == 0 || faces % 4 == 3 {
            assert(!perfectly_cooked(cook));
            return false;
        }
        faces = faces / 4;
        k += 1;
    }
    true
}

/// Whether the player can leave: the puzzle is won, the player holds the
/// fork, the exit is upright and the player stands on it facing its way.
pub open spec fn exit_open(v: WorldView, g: GameView) -> bool {
    won_spec(v.entities) && v.fork_id is None && g.exit_up && match entity_of(v, v.player_id) {
        Some(p) => p.pos == g.exit_pos && p.direction == g.exit_direction,
        None => false,
    }
}

impl<'a> Game3d<'a> {
    /// The view of the game's world.
    pub closed spec fn world_view(&self) -> crate::sausage::world::WorldView {
        self.world.view()
    }

    /// The campaign the game's world draws on.
    pub closed spec fn campaign_of(&self) -> crate::sausage::campaign::Campaign {
        self.world.campaign_of()
    }

    /// Whether the game's world is well formed.
    pub closed spec fn world_wf(&self) -> bool {
        self.world.wf()
    }

    /// The game's world.
    pub fn physics(&self) -> (r: &PhysicsWorld<'a>)
        ensures
            r.view() == self.world_view(),
            r.wf() == self.world_wf(),
            r.campaign_of() == self.campaign_of(),
    {
        &self.world
    }

    pub closed spec fn game_view(&self) -> GameView {
        GameView {
            overworld: self.overworld,
            push_target_level: self.push_target_level@,
            exit_pos: self.exit_pos,
            exit_direction: self.exit_direction,
            exit_up: self.exit_up,
            exit_attachment: self.exit_attachment,
            last_direction: self.last_direction,
        }
    }

    /// The game of a puzzle state; see [`initial_game`] and
    /// [`game_error`].
    pub fn from_state(campaign: &'a Campaign, state: &GameState) -> (r: Result<Game3d<'a>, String>)
        requires
            game_inputs_small(*campaign, *state),
        ensures
            match r {
                Ok(g) => game_error(*campaign, *state) is None && g.game_view() == initial_game(*campaign, *state)
                    && g.world_wf() && g.world_view() == initial_view(*state),
                Err(message) => game_error(*campaign, *state) == Some(message@),
            },
    {
        match crate::sausage::world::first_index_of_type(&state.entities, EntityType::Player) {
            Some(_) => {},
            None => {
                return Err(String::from_str("state has no player"));
            },
        }
        let entry = match player_position(&campaign.player_positions, state.push_target_level.as_str()) {
            Some(p) => *p,
            None => {
                let mut message = String::from_str("puzzle ");
                let cs = crate::text::to_chars(state.push_target_level.as_str());
                crate::text::append_debug(&mut message, cs.as_slice());
                message.append(" has no campaign entry position");
                return Err(message);
            },
        };
        let island = match find_named(&state.entities, EntityType::Island, state.push_target_level.as_str()) {
            Some(i) => i,
            None => {
                let mut message = String::from_str("puzzle ");
                let cs = crate::text::to_chars(state.push_target_level.as_str());
                crate::text::append_debug(&mut message, cs.as_slice());
                message.append(" has no active island");
                return Err(message);
            },
        };
        proof {
            let players = named_players(campaign.player_positions@);
            crate::sausage::world::lemma_lookup_member(players, state.push_target_level@);
            let j = choose|j: int| 0 <= j < players.len() && (#[trigger] players[j]).1 == entry;
            assert(small(campaign.player_positions@[j].1.pos));
            assert(small(state.entities@[island as int].pos));
        }
        let exit_pos = entry.pos.plus(state.entities[island].pos);
        let has_fork = crate::sausage::world::first_index_of_type(&state.entities, EntityType::Fork).is_none();
        let below = exit_pos.step(Direction::Down);
        let exit_attachment = match find_sausage_on(&state.entities, has_fork, below) {
            Some(i) => Some(state.entities[i].id),
            None => None,
        };
        let world = match PhysicsWorld::from_state(campaign, state) {
            Ok(w) => w,
            Err(message) => {
                return Err(message);
            },
        };
        let game = Game3d {
            world,
            overworld: state.overworld,
            push_target_level: state.push_target_level.clone(),
            exit_pos,
            exit_direction: entry.direction,
            exit_up: true,
            exit_attachment,
            last_direction: Direction::NoDirection,
        };
        Ok(game)
    }

    /// Whether the puzzle is won; see [`won_spec`].
    pub fn won(&self) -> (r: bool)
        ensures
            r == won_spec(self.world_view().entities),
    {
        let es = self.world.entity_list();
        let ghost s = self.world_view().entities;
        let mut found = false;
        let mut i: usize = 0;
        while i < es.len()
            invariant
                es@ == s,
                s == self.world_view().entities,
                i <= s.len(),
                found == exists|j: int| 0 <= j < i && counted_sausage(#[trigger] s[j]),
                forall|j: int| 0 <= j < i && counted_sausage(#[trigger] s[j]) ==> s[j].pos.z >= -3 && perfectly_cooked(s[j].cook_data),
            decreases s.len() - i,
        {
            let e = &es[i];
            let data = e.data.as_str();
            let marked = data.unicode_len() > 0 && data.get_char(0) == 'S';
            assert(marked == (e.data@.len() > 0 && e.data@[0] == 'S'));
            if e.entity_type == EntityType::Sausage && e.pos.z <= 8 && !marked {
                assert(counted_sausage(s[i as int]));
                if e.pos.z < -3 || !cooked_once(e.cook_data) {
                    return false;
                }
                found = true;
            }
            i += 1;
        }
        found
    }

    /// Whether the puzzle is complete: it is won.
    pub fn complete(&self) -> (r: bool)
        ensures
            r == won_spec(self.world_view().entities),
    {
        self.won()
    }

    /// Where and facing which way the player leaves the puzzle.
    pub fn exit(&self) -> (r: (Coord, Direction))
        ensures
            r == (self.game_view().exit_pos, self.game_view().exit_direction),
    {
        (self.exit_pos, self.exit_direction)
    }

    /// Whether the player can leave: the puzzle is won, the player holds
    /// the fork, the exit is upright and the player stands on it facing its
    /// way.
    pub fn can_exit(&self) -> (r: bool)
        ensures
            r == exit_open(self.world_view(), self.game_view()),
    {
        if !self.won() || !self.world.player_has_fork() || !self.exit_up {
            return false;
        }
        match self.world.entity(self.world.player_id()) {
            Some(p) => p.pos == self.exit_pos && p.direction == self.exit_direction,
            None => false,
        }
    }
}

/// What a player's input falls back to when no ladder takes it: a move,
/// or a turn of the player.
#[derive(Clone, Copy, Debug, PartialEq, Eq, Structural)]
pub enum InputFallback {
    Move,
    Turn { clockwise: bool },
}

/// How the engine takes an input: a climb up when it is to ask for a ladder
/// up and finds one, else a climb down when it is to ask for a ladder down
/// and finds one, else the fallback.
#[derive(Clone, Copy, Debug, PartialEq, Eq, Structural)]
pub struct InputPlan {
    pub ask_ladder_up: bool,
    pub ask_ladder_down: bool,
    pub fallback: InputFallback,
}

/// The plan for an input in `direction` by this player. A player carrying
/// a sausage moves along its own axis and otherwise tries the ladders
/// before moving. A free player moving along its axis climbs only without
/// the fork extended, up when walking forward and down when walking back.
/// A free player pushing across its axis climbs only with the fork
/// extended, and otherwise turns toward the input.
pub open spec fn input_plan_spec(direction: Direction, player: Entity, extended: bool) -> InputPlan {
    let parallel = parallel_spec(direction, player.direction);
    if player.stuck_to >= 0 {
        if parallel {
            InputPlan { ask_ladder_up: false, ask_ladder_down: false, fallback: InputFallback::Move }
        } else {
            InputPlan { ask_ladder_up: true, ask_ladder_down: true, fallback: InputFallback::Move }
        }
    } else if parallel {
        InputPlan {
            ask_ladder_up: !extended && direction == player.direction,
            ask_ladder_down: !extended && direction == inverse_spec(player.direction),
            fallback: InputFallback::Move,
        }
    } else {
        InputPlan {
            ask_ladder_up: extended,
            ask_ladder_down: extended,
            fallback: InputFallback::Turn { clockwise: left_of_spec(player.direction, direction) },
        }
    }
}

impl<'a> Game3d<'a> {
    /// How the game takes an input in `direction`: refused unless the
    /// direction is cardinal; ignored (`None`) while the player moves or once
    /// it has fallen below the world; else planned as [`input_plan_spec`]
    /// says, the fork counting as extended while the player holds it.
    pub fn plan_input(&self, direction: Direction) -> (r: Result<Option<InputPlan>, String>)
        ensures
            !is_cardinal_spec(direction) ==> r is Err && r->Err_0@ == "input direction must be cardinal, got "@
                + direction_debug(direction),
            is_cardinal_spec(direction) ==> {
                let v = self.world_view();
                if has_movement(v.movements, v.player_id) {
                    r == Ok::<Option<InputPlan>, String>(None)
                } else {
                    match entity_of(v, v.player_id) {
                        None => r is Err && r->Err_0@ == "player disappeared"@,
                        Some(p) => if p.pos.z < -2 {
                            r == Ok::<Option<InputPlan>, String>(None)
                        } else {
                            r == Ok::<Option<InputPlan>, String>(Some(input_plan_spec(direction, p, v.fork_id is None)))
                        },
                    }
                }
            },
    {
        if !direction.is_cardinal() {
            let mut message = "input direction must be cardinal, got ".to_owned();
            crate::text::append_chars(
                &mut message,
                crate::text::to_chars(crate::sausage::world::direction_debug_text(direction)).as_slice(),
            );
            return Err(message);
        }
        let player_id = self.world.player_id();
        if self.world.movement(player_id).is_some() {
            return Ok(None);
        }
        let player = match self.world.entity(player_id) {
            Some(p) => p,
            None => {
                return Err("player disappeared".to_owned());
            },
        };
        if player.pos.z < -2 {
            return Ok(None);
        }
        let extended = self.world.player_has_fork();
        let parallel = direction.parallel_to(player.direction);
        let plan = if player.stuck_to >= 0 {
            if parallel {
                InputPlan { ask_ladder_up: false, ask_ladder_down: false, fallback: InputFallback::Move }
            } else {
                InputPlan { ask_ladder_up: true, ask_ladder_down: true, fallback: InputFallback::Move }
            }
        } else if parallel {
            InputPlan {
                ask_ladder_up: !extended && direction == player.direction,
                ask_ladder_down: !extended && direction == player.direction.inverse(),
                fallback: InputFallback::Move,
            }
        } else {
            InputPlan {
                ask_ladder_up: extended,
                ask_ladder_down: extended,
                fallback: InputFallback::Turn { clockwise: player.direction.left_of(direction) },
            }
        };
        Ok(Some(plan))
    }
}

/// Where the puzzle's exit stands: its cell, the way it faces, and whether
/// it is upright.
#[derive(Clone, Copy, Debug, PartialEq, Eq, Structural)]
pub struct ExitMark {
    pub pos: Coord,
    pub direction: Direction,
    pub up: bool,
}

/// The exit after the sausage it lies on finished `movement`, the sausage
/// as it was when the movement started. A roll moves the exit along; a roll
/// with a twist also turns it over, and reverses it when it lay across the
/// sausage. A rotation turns it by an eighth, against the clock when the
/// sausage turned left; an exit off the sausage's anchor cell moves to the
/// cell above the sausage's new other end. Other movements leave it.
pub open spec fn followed_exit(exit: ExitMark, movement: Movement, sausage: Entity) -> ExitMark {
    match movement.kind {
        MovementKind::Translation => {
            let pos = coord_step(exit.pos, movement.direction);
            if movement.torsion != 0 {
                ExitMark {
                    pos,
                    direction: if normal_spec(exit.direction, sausage.direction) {
                        inverse_spec(exit.direction)
                    } else {
                        exit.direction
                    },
                    up: !exit.up,
                }
            } else {
                ExitMark { pos, direction: exit.direction, up: exit.up }
            }
        },
        MovementKind::Rotation => ExitMark {
            pos: if exit.pos != sausage.pos {
                coord_step(coord_step(sausage.pos, movement.to), Direction::Up)
            } else {
                exit.pos
            },
            direction: if left_of_spec(sausage.direction, movement.to) {
                ccw45_spec(exit.direction)
            } else {
                cw45_spec(exit.direction)
            },
            up: exit.up,
        },
        _ => exit,
    }
}

/// See [`followed_exit`].
pub fn follow_exit(exit: ExitMark, movement: Movement, sausage: &Entity) -> (r: ExitMark)
    requires
        movement.kind == MovementKind::Translation ==> step_fits(exit.pos, movement.direction),
        movement.kind == MovementKind::Rotation && exit.pos != sausage.pos ==> step_fits(sausage.pos, movement.to)
            && step_fits(coord_step(sausage.pos, movement.to), Direction::Up),
    ensures
        r == followed_exit(exit, movement, *sausage),
{
    match movement.kind {
        MovementKind::Translation => {
            let pos = exit.pos.step(movement.direction);
            if movement.torsion != 0 {
                let direction = if exit.direction.normal_to(sausage.direction) {
                    exit.direction.inverse()
                } else {
                    exit.direction
                };
                ExitMark { pos, direction, up: !exit.up }
            } else {
                ExitMark { pos, direction: exit.direction, up: exit.up }
            }
        },
        MovementKind::Rotation => {
            let pos = if exit.pos != sausage.pos {
                sausage.pos.step(movement.to).step(Direction::Up)
            } else {
                exit.pos
            };
            let direction = if sausage.direction.left_of(movement.to) {
                exit.direction.counterclockwise_45()
            } else {
                exit.direction.clockwise_45()
            };
            ExitMark { pos, direction, up: exit.up }
        },
        _ => exit,
    }
}

/// The ladder among the entities `ids[k..]` at `pos`: the first ladder
/// entity's direction, or the direction an island's mask cell gives (cells 3
/// to 6 are ladders facing the directions numbered 0 to 3), or no direction
/// when none of them holds a ladder there; the first error met instead.
pub open spec fn ladder_among(v: WorldView, c: Campaign, ids: Seq<i32>, pos: Coord, k: int) -> Result<Direction, Seq<char>>
    decreases ids.len() - k,
{
    if k < 0 || k >= ids.len() {
        Ok(Direction::NoDirection)
    } else {
        match entity_of(v, ids[k]) {
            None => Err("ladder entity "@ + int_text(ids[k] as int) + " disappeared"@),
            Some(e) => if e.entity_type == EntityType::Ladder {
                Ok(e.direction)
            } else if e.entity_type == EntityType::Island {
                match lookup(mask_entries(c), e.data@) {
                    None => Err(no_mask_text(e)),
                    Some(m) => {
                        let value: int = match m.get_spec(coord_diff(coord_diff(pos, e.pos), m.offset)) {
                            Some(x) => x as int,
                            None => 0,
                        };
                        if 3 <= value <= 6 {
                            Ok(dir_of_value(value - 3)->0)
                        } else {
                            ladder_among(v, c, ids, pos, k + 1)
                        }
                    },
                }
            } else {
                ladder_among(v, c, ids, pos, k + 1)
            },
        }
    }
}

/// The ladder at a cell; see [`ladder_among`].
pub open spec fn ladder_spec(v: WorldView, c: Campaign, pos: Coord) -> Result<Direction, Seq<char>> {
    match entities_at_from(v, c, pos, false, v.entities.len() as int) {
        Err(message) => Err(message),
        Ok(ids) => ladder_among(v, c, ids, pos, 0),
    }
}

pub(crate) proof fn lemma_entity_small(v: WorldView, c: Campaign, id: i32)
    requires
        world_small(v, c),
    ensures
        entity_of(v, id) matches Some(e) ==> small(e.pos),
{
    crate::sausage::world::lemma_entity_index_of(v.entities, id);
}

impl<'a> Game3d<'a> {
    /// The ladder at a cell; see [`ladder_spec`].
    pub fn ladder_at(&self, pos: Coord) -> (r: Result<Direction, String>)
        requires
            world_small(self.world_view(), self.campaign_of()),
            small(pos),
        ensures
            match ladder_spec(self.world_view(), self.campaign_of(), pos) {
                Ok(d) => r == Ok::<Direction, String>(d),
                Err(message) => r is Err && r->Err_0@ == message,
            },
    {
        let ghost v = self.world_view();
        let ghost c = self.campaign_of();
        let ids = match self.world.entities_at(pos, false) {
            Ok(ids) => ids,
            Err(message) => {
                return Err(message);
            },
        };
        let mut k: usize = 0;
        while k < ids.len()
            invariant
                v == self.world_view(),
                c == self.campaign_of(),
                world_small(v, c),
                small(pos),
                k <= ids@.len(),
                ladder_spec(v, c, pos) == ladder_among(v, c, ids@, pos, k as int),
            decreases ids@.len() - k,
        {
            let id = ids[k];
            let entity = match self.world.entity(id) {
                Some(e) => e,
                None => {
                    let mut message = "ladder entity ".to_owned();
                    append_int(&mut message, id as i64);
                    crate::text::append_chars(&mut message, crate::text::to_chars(" disappeared").as_slice());
                    return Err(message);
                },
            };
            if entity.entity_type == EntityType::Ladder {
                return Ok(entity.direction);
            }
            if entity.entity_type == EntityType::Island {
                let (value, _) = match self.world.island_mask_value(id, pos) {
                    Ok(found) => found,
                    Err(message) => {
                        return Err(message);
                    },
                };
                if 3 <= value && value <= 6 {
                    return Direction::from_i32(value - 3);
                }
            }
            k += 1;
        }
        Ok(Direction::NoDirection)
    }

    /// Whether the input `direction` leads the player up a ladder: the cell
    /// ahead holds a ladder facing back at the player.
    pub fn ladder_up_in_direction(&self, direction: Direction) -> (r: Result<bool, String>)
        requires
            world_small(self.world_view(), self.campaign_of()),
            entity_of(self.world_view(), self.world_view().player_id) matches Some(p) ==> small(
                coord_step(p.pos, direction),
            ),
        ensures
            match entity_of(self.world_view(), self.world_view().player_id) {
                None => r is Err && r->Err_0@ == "player disappeared"@,
                Some(p) => match ladder_spec(self.world_view(), self.campaign_of(), coord_step(p.pos, direction)) {
                    Ok(d) => r == Ok::<bool, String>(d == inverse_spec(direction)),
                    Err(message) => r is Err && r->Err_0@ == message,
                },
            },
    {
        let player = match self.world.entity(self.world.player_id()) {
            Some(p) => p,
            None => {
                return Err("player disappeared".to_owned());
            },
        };
        proof {
            lemma_entity_small(self.world_view(), self.campaign_of(), self.world_view().player_id);
        }
        let ladder = self.ladder_at(player.pos.step(direction))?;
        Ok(ladder == direction.inverse())
    }

    /// Whether the input `direction` leads the player down a ladder: the
    /// cell below holds a ladder facing that way and nothing stands below the
    /// cell ahead.
    pub fn ladder_down_in_direction(&self, direction: Direction) -> (r: Result<bool, String>)
        requires
            world_small(self.world_view(), self.campaign_of()),
            entity_of(self.world_view(), self.world_view().player_id) matches Some(p) ==> small(
                coord_step(p.pos, Direction::Down),
            ) && small(coord_step(coord_step(p.pos, direction), Direction::Down)),
        ensures
            match entity_of(self.world_view(), self.world_view().player_id) {
                None => r is Err && r->Err_0@ == "player disappeared"@,
                Some(p) => match ladder_spec(self.world_view(), self.campaign_of(), coord_step(p.pos, Direction::Down)) {
                    Err(message) => r is Err && r->Err_0@ == message,
                    Ok(d) => if d != direction {
                        r == Ok::<bool, String>(false)
                    } else {
                        match entities_at_from(
                            self.world_view(),
                            self.campaign_of(),
                            coord_step(coord_step(p.pos, direction), Direction::Down),
                            false,
                            self.world_view().entities.len() as int,
                        ) {
                            Ok(ids) => r == Ok::<bool, String>(ids.len() == 0),
                            Err(message) => r is Err && r->Err_0@ == message,
                        }
                    },
                },
            },
    {
        let player = match self.world.entity(self.world.player_id()) {
            Some(p) => p,
            None => {
                return Err("player disappeared".to_owned());
            },
        };
        proof {
            lemma_entity_small(self.world_view(), self.campaign_of(), self.world_view().player_id);
        }
        let below = self.ladder_at(player.pos.step(Direction::Down))?;
        if below != direction {
            return Ok(false);
        }
        let ahead = player.pos.step(direction);
        let ids = self.world.entities_at(ahead.step(Direction::Down), false)?;
        Ok(ids.len() == 0)
    }
}

/// How strongly an entity holds up what stands on it, lower first:
/// sausages, the fork, the player, islands, barriers, the rest; an unknown
/// id last.
pub open spec fn floor_rank(v: WorldView, id: i32) -> int {
    match entity_of(v, id) {
        None => usize::MAX as int,
        Some(e) => match e.entity_type {
            EntityType::Sausage => 0,
            EntityType::Fork => 1,
            EntityType::Player => 2,
            EntityType::Island => 3,
            EntityType::Barrier => 4,
            _ => 5,
        },
    }
}

/// An entity that can be a floor: anything but a fork held by the player.
pub open spec fn floor_candidate(v: WorldView, id: i32) -> bool {
    v.fork_id != Some(id) || (entity_of(v, id) matches Some(f) && f.stuck_to < 0)
}

/// The first candidate of least rank among `ids[..k]`.
pub open spec fn best_floor(v: WorldView, ids: Seq<i32>, k: int) -> Option<i32>
    decreases k,
{
    if k <= 0 {
        None
    } else {
        let prev = best_floor(v, ids, k - 1);
        let id = ids[k - 1];
        if !floor_candidate(v, id) {
            prev
        } else {
            match prev {
                None => Some(id),
                Some(b) => if floor_rank(v, id) < floor_rank(v, b) {
                    Some(id)
                } else {
                    prev
                },
            }
        }
    }
}

/// What a cell stands on: the best floor among the entities in the cell
/// below; see [`best_floor`].
pub open spec fn floor_spec(v: WorldView, c: Campaign, pos: Coord, instant: bool) -> Result<Option<i32>, Seq<char>> {
    match entities_at_from(v, c, coord_step(pos, Direction::Down), instant, v.entities.len() as int) {
        Err(message) => Err(message),
        Ok(ids) => Ok(best_floor(v, ids, ids.len() as int)),
    }
}

/// The floors under the cells `cells[..k]`, each once, in the order first
/// met; the first error met instead.
pub open spec fn floors_under(v: WorldView, c: Campaign, cells: Seq<Coord>, k: int) -> Result<Seq<i32>, Seq<char>>
    decreases k,
{
    if k <= 0 {
        Ok(Seq::empty())
    } else {
        match floors_under(v, c, cells, k - 1) {
            Err(message) => Err(message),
            Ok(found) => match floor_spec(v, c, cells[k - 1], false) {
                Err(message) => Err(message),
                Ok(None) => Ok(found),
                Ok(Some(f)) => if found.contains(f) {
                    Ok(found)
                } else {
                    Ok(found.push(f))
                },
            },
        }
    }
}

/// What an entity rests on: the floors under the cells it occupies.
pub open spec fn under_spec(v: WorldView, c: Campaign, id: i32) -> Result<Seq<i32>, Seq<char>> {
    match entity_of(v, id) {
        None => Err(unknown_entity_text(id)),
        Some(e) => match footprint_of(v, c, e) {
            Err(message) => Err(message),
            Ok(cells) => floors_under(v, c, cells, cells.len() as int),
        },
    }
}

proof fn lemma_floors_error(v: WorldView, c: Campaign, cells: Seq<Coord>, k: int, message: Seq<char>)
    requires
        0 <= k <= cells.len(),
        floors_under(v, c, cells, k) == Err::<Seq<i32>, Seq<char>>(message),
    ensures
        floors_under(v, c, cells, cells.len() as int) == Err::<Seq<i32>, Seq<char>>(message),
    decreases cells.len() - k,
{
    if k < cells.len() {
        lemma_floors_error(v, c, cells, k + 1, message);
    }
}

fn floor_rank_of(world: &PhysicsWorld, id: i32) -> (r: u64)
    ensures
        r as int == floor_rank(world.view(), id),
{
    match world.entity(id) {
        None => usize::MAX as u64,
        Some(e) => match e.entity_type {
            EntityType::Sausage => 0,
            EntityType::Fork => 1,
            EntityType::Player => 2,
            EntityType::Island => 3,
            EntityType::Barrier => 4,
            _ => 5,
        },
    }
}

impl<'a> Game3d<'a> {
    /// What the cell `pos` stands on; see [`floor_spec`].
    pub fn floor_at(&self, pos: Coord, instant: bool) -> (r: Result<Option<i32>, String>)
        requires
            world_small(self.world_view(), self.campaign_of()),
            step_fits(pos, Direction::Down),
            forall|i: int|
                0 <= i < self.world_view().entities.len() ==> at_ok(
                    self.world_view(),
                    (#[trigger] self.world_view().entities[i]).id,
                    coord_step(pos, Direction::Down),
                    instant,
                ),
        ensures
            match floor_spec(self.world_view(), self.campaign_of(), pos, instant) {
                Ok(f) => r == Ok::<Option<i32>, String>(f),
                Err(message) => r is Err && r->Err_0@ == message,
            },
    {
        let ghost v = self.world_view();
        let ids = match self.world.entities_at(pos.step(Direction::Down), instant) {
            Ok(ids) => ids,
            Err(message) => {
                return Err(message);
            },
        };
        let fork_id = self.world.fork_id();
        let mut best: Option<i32> = None;
        let mut best_rank: u64 = 0;
        let mut k: usize = 0;
        while k < ids.len()
            invariant
                v == self.world_view(),
                fork_id == v.fork_id,
                k <= ids@.len(),
                best == best_floor(v, ids@, k as int),
                best matches Some(b) ==> best_rank as int == floor_rank(v, b),
            decreases ids@.len() - k,
        {
            let id = ids[k];
            let candidate = match fork_id {
                Some(f) => if f == id {
                    match self.world.entity(id) {
                        Some(fork) => fork.stuck_to < 0,
                        None => false,
                    }
                } else {
                    true
                },
                None => true,
            };
            if candidate {
                let rank = floor_rank_of(&self.world, id);
                match best {
                    None => {
                        best = Some(id);
                        best_rank = rank;
                    },
                    Some(_) => {
                        if rank < best_rank {
                            best = Some(id);
                            best_rank = rank;
                        }
                    },
                }
            }
            k += 1;
        }
        Ok(best)
    }

    /// What entity `id` rests on; see [`under_spec`].
    pub fn under(&self, id: i32) -> (r: Result<Vec<i32>, String>)
        requires
            world_small(self.world_view(), self.campaign_of()),
            entity_of(self.world_view(), id) matches Some(e) ==> (footprint_of(
                self.world_view(),
                self.campaign_of(),
                e,
            ) matches Ok(cells) ==> forall|i: int|
                0 <= i < cells.len() ==> step_fits(#[trigger] cells[i], Direction::Down) && small(
                    coord_step(cells[i], Direction::Down),
                )),
        ensures
            match under_spec(self.world_view(), self.campaign_of(), id) {
                Ok(found) => r is Ok && r->Ok_0@ == found,
                Err(message) => r is Err && r->Err_0@ == message,
            },
    {
        let ghost v = self.world_view();
        let ghost c = self.campaign_of();
        let cells = match self.world.source_footprint(id) {
            Ok(cells) => cells,
            Err(message) => {
                return Err(message);
            },
        };
        let mut found: Vec<i32> = Vec::new();
        let mut k: usize = 0;
        while k < cells.len()
            invariant
                v == self.world_view(),
                c == self.campaign_of(),
                world_small(v, c),
                forall|i: int|
                    0 <= i < cells@.len() ==> step_fits(#[trigger] cells@[i], Direction::Down) && small(
                        coord_step(cells@[i], Direction::Down),
                    ),
                k <= cells@.len(),
                under_spec(v, c, id) == floors_under(v, c, cells@, cells@.len() as int),
                floors_under(v, c, cells@, k as int) == Ok::<Seq<i32>, Seq<char>>(found@),
            decreases cells@.len() - k,
        {
            let pos = cells[k];
            match self.floor_at(pos, false) {
                Err(message) => {
                    proof {
                        lemma_floors_error(v, c, cells@, k + 1, message@);
                    }
                    return Err(message);
                },
                Ok(None) => {},
                Ok(Some(f)) => {
                    let mut seen = false;
                    let mut j: usize = 0;
                    while j < found.len()
                        invariant
                            j <= found@.len(),
                            seen == found@.take(j as int).contains(f),
                        decreases found@.len() - j,
                    {
                        if found[j] == f {
                            seen = true;
                        }
                        proof {
                            let t = found@.take(j + 1);
                            assert(t == found@.take(j as int).push(found@[j as int]));
                            if found@.take(j as int).contains(f) {
                                let w = choose|w: int| 0 <= w < j && found@.take(j as int)[w] == f;
                                assert(t[w] == f);
                            }
                            if t.contains(f) && found@[j as int] != f {
                                let w = choose|w: int| 0 <= w < j + 1 && t[w] == f;
                                assert(found@.take(j as int)[w] == f);
                            }
                            if found@[j as int] == f {
                                assert(t[j as int] == f);
                            }
                        }
                        j += 1;
                    }
                    assert(found@.take(found@.len() as int) =~= found@);
                    if !seen {
                        found.push(f);
                    }
                },
            }
            k += 1;
        }
        Ok(found)
    }
}

/// The grill among the entities `ids[k..]` at `pos`: a grill entity's
/// direction and id, or the direction an island's mask cell gives (cell 2
/// grills eastward, cell 20 northward) with the island's name and the
/// cell's local coordinates; no direction and no name when none grills
/// there; the first error met instead.
pub open spec fn bbq_among(v: WorldView, c: Campaign, ids: Seq<i32>, pos: Coord, k: int) -> Result<(Direction, Seq<char>), Seq<char>>
    decreases ids.len() - k,
{
    if k < 0 || k >= ids.len() {
        Ok((Direction::NoDirection, Seq::empty()))
    } else {
        match entity_of(v, ids[k]) {
            None => Err("BBQ entity "@ + int_text(ids[k] as int) + " disappeared"@),
            Some(e) => if e.entity_type == EntityType::Bbq {
                Ok((e.direction, int_text(ids[k] as int)))
            } else if e.entity_type == EntityType::Island {
                match lookup(mask_entries(c), e.data@) {
                    None => Err(no_mask_text(e)),
                    Some(m) => {
                        let local = coord_diff(coord_diff(pos, e.pos), m.offset);
                        let value: int = match m.get_spec(local) {
                            Some(x) => x as int,
                            None => 0,
                        };
                        if value == 2 {
                            Ok((Direction::East, grill_name(e.data@, local)))
                        } else if value == 20 {
                            Ok((Direction::North, grill_name(e.data@, local)))
                        } else {
                            bbq_among(v, c, ids, pos, k + 1)
                        }
                    },
                }
            } else {
                bbq_among(v, c, ids, pos, k + 1)
            },
        }
    }
}

/// The name of an island's grill cell: the island's name and the cell's
/// local coordinates, joined by dots.
pub open spec fn grill_name(island: Seq<char>, local: Coord) -> Seq<char> {
    island + "."@ + int_text(local.x as int) + "."@ + int_text(local.y as int) + "."@ + int_text(local.z as int)
}

/// The grill at a cell; see [`bbq_among`].
pub open spec fn bbq_spec(v: WorldView, c: Campaign, pos: Coord) -> Result<(Direction, Seq<char>), Seq<char>> {
    match entities_at_from(v, c, pos, false, v.entities.len() as int) {
        Err(message) => Err(message),
        Ok(ids) => bbq_among(v, c, ids, pos, 0),
    }
}

/// Whether an entity could fall, looked at alone: it exists, is not
/// moving and is not far below the world; an island falls only outside
/// the overworld and when it is not the puzzle's own; a player in the
/// middle of a climb does not fall.
pub open spec fn falls_alone(v: WorldView, g: GameView, id: i32) -> bool {
    match entity_of(v, id) {
        None => false,
        Some(e) => if has_movement(v.movements, id) || e.pos.z < -10 {
            false
        } else if e.entity_type == EntityType::Island {
            !g.overworld && e.data@ != g.push_target_level
        } else if e.entity_type == EntityType::Player && e.data@.len() > 0 {
            false
        } else {
            true
        },
    }
}

/// Whether an entity could fall; with `recurse`, one stuck to another falls
/// as that other one does, looked at alone.
pub open spec fn falls_spec(v: WorldView, g: GameView, id: i32, recurse: bool) -> bool {
    if !falls_alone(v, g, id) {
        false
    } else {
        let e = entity_of(v, id)->0;
        if recurse && e.entity_type != EntityType::Island && e.stuck_to >= 0 {
            falls_alone(v, g, e.stuck_to)
        } else {
            true
        }
    }
}

impl<'a> Game3d<'a> {
    /// The grill at a cell; see [`bbq_spec`].
    pub fn bbq_at(&self, pos: Coord) -> (r: Result<(Direction, String), String>)
        requires
            world_small(self.world_view(), self.campaign_of()),
            small(pos),
        ensures
            match bbq_spec(self.world_view(), self.campaign_of(), pos) {
                Ok((d, name)) => r is Ok && r->Ok_0.0 == d && r->Ok_0.1@ == name,
                Err(message) => r is Err && r->Err_0@ == message,
            },
    {
        let ghost v = self.world_view();
        let ghost c = self.campaign_of();
        let ids = match self.world.entities_at(pos, false) {
            Ok(ids) => ids,
            Err(message) => {
                return Err(message);
            },
        };
        let mut k: usize = 0;
        while k < ids.len()
            invariant
                v == self.world_view(),
                c == self.campaign_of(),
                world_small(v, c),
                small(pos),
                k <= ids@.len(),
                bbq_spec(v, c, pos) == bbq_among(v, c, ids@, pos, k as int),
            decreases ids@.len() - k,
        {
            let id = ids[k];
            let entity = match self.world.entity(id) {
                Some(e) => e,
                None => {
                    let mut message = "BBQ entity ".to_owned();
                    append_int(&mut message, id as i64);
                    crate::text::append_chars(&mut message, crate::text::to_chars(" disappeared").as_slice());
                    return Err(message);
                },
            };
            if entity.entity_type == EntityType::Bbq {
                let mut name = String::new();
                append_int(&mut name, id as i64);
                return Ok((entity.direction, name));
            }
            if entity.entity_type == EntityType::Island {
                let (value, local) = match self.world.island_mask_value(id, pos) {
                    Ok(found) => found,
                    Err(message) => {
                        return Err(message);
                    },
                };
                let direction = if value == 2 {
                    Direction::East
                } else if value == 20 {
                    Direction::North
                } else {
                    Direction::NoDirection
                };
                if direction != Direction::NoDirection {
                    let mut name = entity.data.clone();
                    crate::text::append_chars(&mut name, crate::text::to_chars(".").as_slice());
                    append_int(&mut name, local.x as i64);
                    crate::text::append_chars(&mut name, crate::text::to_chars(".").as_slice());
                    append_int(&mut name, local.y as i64);
                    crate::text::append_chars(&mut name, crate::text::to_chars(".").as_slice());
                    append_int(&mut name, local.z as i64);
                    return Ok((direction, name));
                }
            }
            k += 1;
        }
        Ok((Direction::NoDirection, String::new()))
    }

    /// Whether an entity spans more than one cell: sausages and islands
    /// always, the player while it holds the fork; an unknown id is an
    /// error.
    pub fn is_extended(&self, id: i32) -> (r: Result<bool, String>)
        ensures
            match entity_of(self.world_view(), id) {
                None => r is Err && r->Err_0@ == unknown_entity_text(id),
                Some(e) => r == Ok::<bool, String>(
                    is_extended_spec(e.entity_type) || (e.entity_type == EntityType::Player && self.world_view().fork_id is None),
                ),
            },
    {
        match self.world.entity(id) {
            None => {
                let mut message = "unknown entity id ".to_owned();
                append_int(&mut message, id as i64);
                Err(message)
            },
            Some(e) => Ok(e.entity_type.is_extended() || (e.entity_type == EntityType::Player
                && self.world.player_has_fork())),
        }
    }

    fn falls_alone_exec(&self, id: i32) -> (r: bool)
        ensures
            r == falls_alone(self.world_view(), self.game_view(), id),
    {
        let entity = match self.world.entity(id) {
            Some(e) => e,
            None => {
                return false;
            },
        };
        if self.world.movement(id).is_some() || entity.pos.z < -10 {
            return false;
        }
        if entity.entity_type == EntityType::Island {
            return !self.overworld && !(entity.data == self.push_target_level);
        }
        !(entity.entity_type == EntityType::Player && !entity.data.as_str().is_empty())
    }

    /// See [`falls_spec`].
    pub fn can_fall_liberal(&self, id: i32, recurse: bool) -> (r: bool)
        ensures
            r == falls_spec(self.world_view(), self.game_view(), id, recurse),
    {
        if !self.falls_alone_exec(id) {
            return false;
        }
        let entity = match self.world.entity(id) {
            Some(e) => e,
            None => {
                return false;
            },
        };
        if recurse && entity.entity_type != EntityType::Island && entity.stuck_to >= 0 {
            return self.falls_alone_exec(entity.stuck_to);
        }
        true
    }
}

/// A face after touching a grill; see [`cook_face`].
pub open spec fn cooked_face(f: int, grill: Direction, sausage: Direction) -> int {
    if f == 0 {
        if parallel_spec(grill, sausage) {
            2
        } else {
            1
        }
    } else {
        3
    }
}

/// The first character of a sausage's data, its status, or `M`.
pub open spec fn status_char(data: Seq<char>) -> char {
    if data.len() > 0 {
        data[0]
    } else {
        'M'
    }
}

/// A sausage off every grill keeps only its status: `L`, `S`, or `M` for
/// anything else.
pub open spec fn raw_data(data: Seq<char>) -> Seq<char> {
    if data.len() > 0 && data[0] == 'L' {
        "L;;"@
    } else if data.len() > 0 && data[0] == 'S' {
        "S;;"@
    } else {
        "M;;"@
    }
}

/// The grill an end of the sausage last touched, as its data records it:
/// the `i`-th `;`-separated field.
pub open spec fn stored_key(data: Seq<char>, i: int) -> Option<Seq<char>> {
    let f = split_spec(data, ';');
    if i < f.len() {
        Some(f[i])
    } else {
        None
    }
}

/// The faces of a sausage after its ends touch these grills: an end cooks
/// the face below it when a grill is there and it is not the grill that
/// end last touched. The first end's face is the fourth (third when the
/// sausage is rolled over), the second end's the first (second).
pub open spec fn cooked_faces(e: Entity, g1: Direction, k1: Seq<char>, g2: Direction, k2: Seq<char>) -> Seq<int> {
    let c = e.cook_data as int;
    let f = seq![face(c, 0), face(c, 1), face(c, 2), face(c, 3)];
    let i1: int = if e.rotation == 0 { 3 } else { 2 };
    let i2: int = if e.rotation == 0 { 0 } else { 1 };
    let f1 = if g1 != Direction::NoDirection && stored_key(e.data@, 1) != Some(k1) {
        f.update(i1, cooked_face(f[i1], g1, e.direction))
    } else {
        f
    };
    if g2 != Direction::NoDirection && stored_key(e.data@, 2) != Some(k2) {
        f1.update(i2, cooked_face(f1[i2], g2, e.direction))
    } else {
        f1
    }
}

/// The cook data and data of a sausage whose ends lie on these grills
/// (grill directions and names). Off every grill it keeps its cook data and
/// only its status; otherwise its faces cook as [`cooked_faces`] says, it is
/// burnt (`B`) once a face is, and it records the grills its ends touch.
pub open spec fn cook_outcome(e: Entity, g1: Direction, k1: Seq<char>, g2: Direction, k2: Seq<char>) -> (int, Seq<char>) {
    if g1 == Direction::NoDirection && g2 == Direction::NoDirection {
        (e.cook_data as int, raw_data(e.data@))
    } else {
        let f = cooked_faces(e, g1, k1, g2, k2);
        let status = if f[0] > 2 || f[1] > 2 || f[2] > 2 || f[3] > 2 {
            'B'
        } else {
            status_char(e.data@)
        };
        (f[0] + 4 * f[1] + 16 * f[2] + 64 * f[3], seq![status] + ";"@ + k1 + ";"@ + k2)
    }
}

fn stored_key_is(fields: &Vec<Vec<char>>, i: usize, key: &Vec<char>) -> (r: bool)
    ensures
        r == (i < fields@.len() && fields@[i as int]@ == key@),
{
    if i < fields.len() {
        crate::text::chars_eq(fields[i].as_slice(), key.as_slice())
    } else {
        false
    }
}

/// The four faces of cook data, lowest first; see [`face`].
fn faces_of(cook: i32) -> (r: Vec<i32>)
    ensures
        r@.len() == 4,
        forall|q: int| 0 <= q < 4 ==> (#[trigger] r@[q]) as int == face(cook as int, q as nat),
        forall|q: int| 0 <= q < 4 ==> -4 < #[trigger] r@[q] < 4,
{
    let ghost c = cook as int;
    let mut faces: Vec<i32> = Vec::new();
    let mut rest = cook;
    let mut k: usize = 0;
    while k < 4
        invariant
            k <= 4,
            c == cook as int,
            faces@.len() == k,
            rest as int == crate::sausage::world::trunc_power(c, k as nat),
            forall|q: int| 0 <= q < k ==> (#[trigger] faces@[q]) as int == face(c, q as nat),
            forall|q: int| 0 <= q < k ==> -4 < #[trigger] faces@[q] < 4,
        decreases 4 - k,
    {
        proof {
            crate::sausage::world::lemma_face_step(c, k as nat);
        }
        faces.push(rest % 4);
        rest = rest / 4;
        k += 1;
    }
    faces
}

/// The faces after the ends touch the grills; see [`cooked_faces`].
fn cook_faces(entity: &Entity, first_grill: Direction, k1: &Vec<char>, second_grill: Direction, k2: &Vec<char>) -> (r: Vec<
    i32,
>)
    ensures
        r@.len() == 4,
        r@.map_values(|x: i32| x as int) == cooked_faces(*entity, first_grill, k1@, second_grill, k2@),
        forall|q: int| 0 <= q < 4 ==> -4 < #[trigger] r@[q] < 4,
{
    let data = crate::text::to_chars(entity.data.as_str());
    let fields = crate::text::split_chars(data.as_slice(), ';');
    let mut faces = faces_of(entity.cook_data);
    let ghost c = entity.cook_data as int;
    let ghost f0 = faces@.map_values(|x: i32| x as int);
    assert(f0 =~= seq![face(c, 0), face(c, 1), face(c, 2), face(c, 3)]);
    let first: usize = if entity.rotation == 0 { 3 } else { 2 };
    let second: usize = if entity.rotation == 0 { 0 } else { 1 };
    if first_grill != Direction::NoDirection && !stored_key_is(&fields, 1, k1) {
        let mut f = faces[first];
        cook_face(&mut f, first_grill, entity.direction);
        faces.set(first, f);
    }
    let ghost f1 = faces@.map_values(|x: i32| x as int);
    assert(f1 =~= if first_grill != Direction::NoDirection && stored_key(entity.data@, 1) != Some(k1@) {
        f0.update(first as int, cooked_face(f0[first as int], first_grill, entity.direction))
    } else {
        f0
    });
    if second_grill != Direction::NoDirection && !stored_key_is(&fields, 2, k2) {
        let mut f = faces[second];
        cook_face(&mut f, second_grill, entity.direction);
        faces.set(second, f);
    }
    assert(faces@.map_values(|x: i32| x as int) =~= if second_grill != Direction::NoDirection && stored_key(
        entity.data@,
        2,
    ) != Some(k2@) {
        f1.update(second as int, cooked_face(f1[second as int], second_grill, entity.direction))
    } else {
        f1
    });
    faces
}

/// See [`cook_outcome`].
pub fn cook_result(entity: &Entity, first_grill: Direction, first_key: &str, second_grill: Direction, second_key: &str) -> (r: (
    i32,
    String,
))
    ensures
        (r.0 as int, r.1@) == cook_outcome(*entity, first_grill, first_key@, second_grill, second_key@),
{
    let data = crate::text::to_chars(entity.data.as_str());
    if first_grill == Direction::NoDirection && second_grill == Direction::NoDirection {
        let text = if data.len() > 0 && data[0] == 'L' {
            "L;;".to_owned()
        } else if data.len() > 0 && data[0] == 'S' {
            "S;;".to_owned()
        } else {
            "M;;".to_owned()
        };
        return (entity.cook_data, text);
    }
    let k1 = crate::text::to_chars(first_key);
    let k2 = crate::text::to_chars(second_key);
    let faces = cook_faces(entity, first_grill, &k1, second_grill, &k2);
    let ghost f = cooked_faces(*entity, first_grill, first_key@, second_grill, second_key@);
    assert(faces@[0] as int == f[0] && faces@[1] as int == f[1] && faces@[2] as int == f[2] && faces@[3] as int == f[3]);
    let cook = faces[0] + 4 * faces[1] + 16 * faces[2] + 64 * faces[3];
    let status = if faces[0] > 2 || faces[1] > 2 || faces[2] > 2 || faces[3] > 2 {
        'B'
    } else if data.len() > 0 {
        data[0]
    } else {
        'M'
    };
    let mut text = String::new();
    crate::text::push_char(&mut text, status);
    crate::text::append_chars(&mut text, crate::text::to_chars(";").as_slice());
    crate::text::append_chars(&mut text, k1.as_slice());
    crate::text::append_chars(&mut text, crate::text::to_chars(";").as_slice());
    crate::text::append_chars(&mut text, k2.as_slice());
    proof {
        reveal_strlit(";");
    }
    assert(text@ =~= seq![status] + ";"@ + first_key@ + ";"@ + second_key@);
    (cook, text)
}

/// The cells a sausage's ends rest on are within the engine's range.
pub open spec fn cook_cells_small(v: WorldView, id: i32) -> bool {
    entity_of(v, id) matches Some(e) ==> (e.entity_type == EntityType::Sausage && e.pos.z > -2 ==> small(
        coord_step(e.pos, Direction::Down),
    ) && small(coord_step(coord_step(e.pos, e.direction), Direction::Down)))
}

/// What cooking entity `id` does: nothing in the overworld, to an entity
/// that is not a sausage or to one that sank; otherwise the sausage's ends
/// are held to the grills below them, as [`cook_outcome`] says. An unknown
/// id, or an error reading a grill, is reported and changes nothing.
pub open spec fn cook_done(v: WorldView, c: Campaign, g: GameView, id: i32, after: WorldView, r: Result<(), String>) -> bool {
    if g.overworld {
        r is Ok && after == v
    } else {
        match entity_of(v, id) {
            None => r is Err && r->Err_0@ == "cook target "@ + int_text(id as int) + " disappeared"@ && after == v,
            Some(e) => if e.entity_type != EntityType::Sausage || e.pos.z <= -2 {
                r is Ok && after == v
            } else {
                match bbq_spec(v, c, coord_step(e.pos, Direction::Down)) {
                    Err(m) => r is Err && r->Err_0@ == m && after == v,
                    Ok((g1, k1)) => match bbq_spec(v, c, coord_step(coord_step(e.pos, e.direction), Direction::Down)) {
                        Err(m) => r is Err && r->Err_0@ == m && after == v,
                        Ok((g2, k2)) => r is Ok && {
                            let (cook, data) = cook_outcome(e, g1, k1, g2, k2);
                            cooked_in(v, after, entity_index_of(v.entities, id)->0, cook, data)
                        },
                    },
                }
            },
        }
    }
}

impl<'a> Game3d<'a> {
    /// Cooks entity `id` on the grills below it; see [`cook_done`].
    pub fn cook(&mut self, id: i32) -> (r: Result<(), String>)
        requires
            world_small(old(self).world_view(), old(self).campaign_of()),
            cook_cells_small(old(self).world_view(), id),
        ensures
            final(self).game_view() == old(self).game_view(),
            final(self).campaign_of() == old(self).campaign_of(),
            old(self).world_wf() ==> final(self).world_wf(),
            world_small(final(self).world_view(), final(self).campaign_of()),
            cook_done(old(self).world_view(), old(self).campaign_of(), old(self).game_view(), id, final(self).world_view(), r),
    {
        if self.overworld {
            return Ok(());
        }
        let entity = match self.world.entity(id) {
            Some(e) => e.duplicate(),
            None => {
                let mut message = "cook target ".to_owned();
                append_int(&mut message, id as i64);
                crate::text::append_chars(&mut message, crate::text::to_chars(" disappeared").as_slice());
                return Err(message);
            },
        };
        if entity.entity_type != EntityType::Sausage || entity.pos.z <= -2 {
            return Ok(());
        }
        proof {
            lemma_entity_small(self.world_view(), self.campaign_of(), id);
        }
        let first = entity.pos;
        let second = entity.pos.step(entity.direction);
        let (first_grill, first_key) = self.bbq_at(first.step(Direction::Down))?;
        let (second_grill, second_key) = self.bbq_at(second.step(Direction::Down))?;
        let (cook, data) = cook_result(&entity, first_grill, first_key.as_str(), second_grill, second_key.as_str());
        proof {
            crate::sausage::world::lemma_entity_index_of(self.world_view().entities, id);
        }
        self.world.set_cooking(id, cook, data);
        Ok(())
    }
}

proof fn lemma_split_after(x: Seq<char>, y: Seq<char>)
    requires
        !y.contains(';'),
    ensures
        split_spec(x + seq![';'] + y, ';') == split_spec(x, ';').push(y),
    decreases y.len(),
{
    let s = x + seq![';'] + y;
    if y.len() == 0 {
        assert(s.drop_last() =~= x);
        assert(s.last() == ';');
        assert(y =~= Seq::<char>::empty());
        assert(split_spec(s, ';') == split_spec(s.drop_last(), ';').push(Seq::<char>::empty()));
    } else {
        assert(s.drop_last() =~= x + seq![';'] + y.drop_last());
        assert(!y.drop_last().contains(';')) by {
            if y.drop_last().contains(';') {
                let w = choose|w: int| 0 <= w < y.drop_last().len() && y.drop_last()[w] == ';';
                assert(y[w] == ';');
            }
        }
        lemma_split_after(x, y.drop_last());
        assert(s.last() == y.last());
        assert(y.last() != ';') by {
            assert(y[y.len() - 1] == y.last());
        }
        let before = split_spec(s.drop_last(), ';');
        assert(before == split_spec(x, ';').push(y.drop_last()));
        assert(split_spec(s, ';') == before.update(before.len() - 1, before.last().push(s.last())));
        assert(y.drop_last().push(y.last()) =~= y);
        assert(before.update(before.len() - 1, before.last().push(s.last())) =~= split_spec(x, ';').push(y));
    }
}

proof fn lemma_cooked_keys(status: char, k1: Seq<char>, k2: Seq<char>)
    requires
        status != ';',
        !k1.contains(';'),
        !k2.contains(';'),
    ensures
        stored_key(seq![status] + ";"@ + k1 + ";"@ + k2, 1) == Some(k1),
        stored_key(seq![status] + ";"@ + k1 + ";"@ + k2, 2) == Some(k2),
        status_char(seq![status] + ";"@ + k1 + ";"@ + k2) == status,
{
    reveal_strlit(";");
    let d = seq![status] + ";"@ + k1 + ";"@ + k2;
    assert(d =~= (seq![status] + seq![';'] + k1) + seq![';'] + k2);
    lemma_split_after(seq![status] + seq![';'] + k1, k2);
    lemma_split_after(seq![status], k1);
    let one = seq![status];
    assert(one.drop_last() =~= Seq::<char>::empty());
    assert(split_spec(Seq::<char>::empty(), ';') == seq![Seq::<char>::empty()]);
    assert(split_spec(one, ';') == split_spec(one.drop_last(), ';').update(0, Seq::<char>::empty().push(status)));
    assert(split_spec(one, ';') =~= seq![seq![status]]);
    assert(split_spec(d, ';') =~= seq![seq![status], k1, k2]);
    assert(d[0] == status);
}

proof fn lemma_faces_recombine(f0: int, f1: int, f2: int, f3: int)
    requires
        0 <= f0 < 4,
        0 <= f1 < 4,
        0 <= f2 < 4,
        0 <= f3 < 4,
    ensures
        ({
            let c = f0 + 4 * f1 + 16 * f2 + 64 * f3;
            face(c, 0) == f0 && face(c, 1) == f1 && face(c, 2) == f2 && face(c, 3) == f3
        }),
{
    let c = f0 + 4 * f1 + 16 * f2 + 64 * f3;
    vstd::arithmetic::div_mod::lemma_fundamental_div_mod_converse(c, 4, f1 + 4 * f2 + 16 * f3, f0);
    vstd::arithmetic::div_mod::lemma_fundamental_div_mod_converse(c, 16, f2 + 4 * f3, f0 + 4 * f1);
    vstd::arithmetic::div_mod::lemma_fundamental_div_mod_converse(c, 64, f3, f0 + 4 * f1 + 16 * f2);
    vstd::arithmetic::div_mod::lemma_fundamental_div_mod_converse(f1 + 4 * f2 + 16 * f3, 4, f2 + 4 * f3, f1);
    vstd::arithmetic::div_mod::lemma_fundamental_div_mod_converse(f2 + 4 * f3, 4, f3, f2);
    vstd::arithmetic::div_mod::lemma_fundamental_div_mod_converse(f3, 4, 0, f3);
}

proof fn lemma_face_range(c: int, k: nat)
    requires
        c >= 0,
        k < 4,
    ensures
        0 <= face(c, k) < 4,
{
    vstd::arithmetic::div_mod::lemma_div_pos_is_pos(c, 4);
    vstd::arithmetic::div_mod::lemma_div_pos_is_pos(c, 16);
    vstd::arithmetic::div_mod::lemma_div_pos_is_pos(c, 64);
}

/// Cooking is done once per grill: a sausage cooked on grills and cooked
/// again on the same grills, without moving, comes out as after the first
/// time. This holds for cook data that is not negative, data that does not
/// start with `;`, and grill names without `;`.
#[verifier::rlimit(40)]
pub proof fn law_cooking_twice_is_cooking_once(
    e: Entity,
    g1: Direction,
    k1: Seq<char>,
    g2: Direction,
    k2: Seq<char>,
    cooked: Entity,
)
    requires
        e.cook_data >= 0,
        status_char(e.data@) != ';',
        !k1.contains(';'),
        !k2.contains(';'),
        cooked.cook_data as int == cook_outcome(e, g1, k1, g2, k2).0,
        cooked.data@ == cook_outcome(e, g1, k1, g2, k2).1,
        cooked.rotation == e.rotation,
        cooked.direction == e.direction,
    ensures
        cook_outcome(cooked, g1, k1, g2, k2) == cook_outcome(e, g1, k1, g2, k2),
{
    if g1 == Direction::NoDirection && g2 == Direction::NoDirection {
        reveal_strlit("L;;");
        reveal_strlit("S;;");
        reveal_strlit("M;;");
    } else {
        let c = e.cook_data as int;
        lemma_face_range(c, 0);
        lemma_face_range(c, 1);
        lemma_face_range(c, 2);
        lemma_face_range(c, 3);
        let f = cooked_faces(e, g1, k1, g2, k2);
        assert(0 <= f[0] < 4 && 0 <= f[1] < 4 && 0 <= f[2] < 4 && 0 <= f[3] < 4);
        lemma_faces_recombine(f[0], f[1], f[2], f[3]);
        let status = if f[0] > 2 || f[1] > 2 || f[2] > 2 || f[3] > 2 { 'B' } else { status_char(e.data@) };
        lemma_cooked_keys(status, k1, k2);
        let f2 = cooked_faces(cooked, g1, k1, g2, k2);
        assert(f2 =~= f);
    }
}

/// The world after a tick, with the ids whose movements finished: unchanged
/// when no time is left to pass, else as [`tick_state`] gives it.
pub open spec fn ticked_world(v: WorldView) -> (WorldView, Seq<i32>) {
    if same_value(min_remaining(v.movements), zero_frac()) {
        (v, Seq::empty())
    } else {
        (WorldView { entities: tick_state(v).entities, movements: tick_state(v).movements, ..v }, tick_state(v).finished)
    }
}

/// The exit as it stands in a game.
pub open spec fn exit_mark_of(g: GameView) -> ExitMark {
    ExitMark { pos: g.exit_pos, direction: g.exit_direction, up: g.exit_up }
}

/// Whether the exit can follow the movement of the sausage it lies on
/// without leaving the coordinate range; see [`follow_exit`].
pub open spec fn exit_follow_fits(v: WorldView, g: GameView) -> bool {
    match g.exit_attachment {
        Some(id) => match (movement_of(v, id), entity_of(v, id)) {
            (Some(m), Some(e)) => {
                &&& m.kind == MovementKind::Translation ==> step_fits(g.exit_pos, m.direction)
                &&& m.kind == MovementKind::Rotation && g.exit_pos != e.pos ==> step_fits(e.pos, m.to)
                    && step_fits(coord_step(e.pos, m.to), Direction::Up)
            },
            _ => true,
        },
        None => true,
    }
}

/// The game after a tick that finished the movements of `finished`, `v`
/// being the world before it: the exit follows the sausage it lies on when
/// that sausage's movement finished (see [`followed_exit`]).
pub open spec fn exit_after_tick(v: WorldView, g: GameView, finished: Seq<i32>) -> GameView {
    match g.exit_attachment {
        Some(id) => match (movement_of(v, id), entity_of(v, id)) {
            (Some(m), Some(e)) => if finished.contains(e.id) {
                let mark = followed_exit(exit_mark_of(g), m, e);
                GameView { exit_pos: mark.pos, exit_direction: mark.direction, exit_up: mark.up, ..g }
            } else {
                g
            },
            _ => g,
        },
        None => g,
    }
}

fn ids_contain(ids: &Vec<i32>, id: i32) -> (r: bool)
    ensures
        r == ids@.contains(id),
{
    let mut k: usize = 0;
    while k < ids.len()
        invariant
            k <= ids@.len(),
            forall|j: int| 0 <= j < k ==> ids@[j] != id,
        decreases ids@.len() - k,
    {
        if ids[k] == id {
            assert(ids@[k as int] == id);
            return true;
        }
        k += 1;
    }
    false
}

impl<'a> Game3d<'a> {
    /// Advances the world to its next movement boundary (see
    /// [`PhysicsWorld::tick`]), the exit following the sausage it lies on;
    /// see [`ticked_world`] and [`exit_after_tick`].
    pub fn tick_world(&mut self) -> (r: Result<Vec<i32>, String>)
        requires
            old(self).world_wf(),
            tick_ok(old(self).world_view()),
            exit_follow_fits(old(self).world_view(), old(self).game_view()),
        ensures
            final(self).campaign_of() == old(self).campaign_of(),
            final(self).world_wf(),
            r is Ok,
            (final(self).world_view(), r->Ok_0@) == ticked_world(old(self).world_view()),
            final(self).game_view() == exit_after_tick(old(self).world_view(), old(self).game_view(), r->Ok_0@),
    {
        let ghost v = self.world.view();
        let attached = match self.exit_attachment {
            Some(id) => match self.world.movement(id) {
                Some(m) => match self.world.entity(id) {
                    Some(e) => {
                        proof {
                            lemma_movement_of_found(v, m, id);
                        }
                        Some((m, e.duplicate()))
                    },
                    None => None,
                },
                None => {
                    proof {
                        lemma_movement_of_none(v, id);
                    }
                    None
                },
            },
            None => None,
        };
        let finished = match self.world.tick() {
            Ok(finished) => finished,
            Err(message) => {
                return Err(message);
            },
        };
        if let Some((m, e)) = attached {
            if ids_contain(&finished, e.id) {
                let mark = follow_exit(ExitMark { pos: self.exit_pos, direction: self.exit_direction, up: self.exit_up }, m, &e);
                self.exit_pos = mark.pos;
                self.exit_direction = mark.direction;
                self.exit_up = mark.up;
            }
        }
        Ok(finished)
    }
}

/// Whether a set of supports moves as one: there are some, and each is
/// rolling in some direction.
pub open spec fn footprint_consistent(v: WorldView, supports: Seq<i32>) -> bool {
    supports.len() > 0 && forall|i: int|
        0 <= i < supports.len() ==> match movement_of(v, #[trigger] supports[i]) {
            Some(m) => m.kind == MovementKind::Translation && m.direction != Direction::NoDirection,
            None => false,
        }
}

/// The entity an entity is stuck to, if any.
pub open spec fn attachment_of(v: WorldView, id: i32) -> Option<i32> {
    match entity_of(v, id) {
        Some(e) => if e.stuck_to >= 0 {
            Some(e.stuck_to)
        } else {
            None
        },
        None => None,
    }
}

impl<'a> Game3d<'a> {
    /// Whether the supports move as one; see [`footprint_consistent`].
    pub fn consistent_footprint(&self, supports: &[i32]) -> (r: bool)
        requires
            self.world_wf(),
        ensures
            r == footprint_consistent(self.world_view(), supports@),
    {
        let ghost v = self.world.view();
        if supports.len() == 0 {
            return false;
        }
        let mut k: usize = 0;
        while k < supports.len()
            invariant
                v == self.world.view(),
                self.world.wf(),
                k <= supports@.len(),
                forall|i: int|
                    0 <= i < k ==> match movement_of(v, #[trigger] supports@[i]) {
                        Some(m) => m.kind == MovementKind::Translation && m.direction != Direction::NoDirection,
                        None => false,
                    },
            decreases supports@.len() - k,
        {
            match self.world.movement(supports[k]) {
                Some(m) => {
                    proof {
                        lemma_movement_of_found(v, m, supports@[k as int]);
                    }
                    let rolling = match m.kind {
                        MovementKind::Translation => !matches!(m.direction, Direction::NoDirection),
                        _ => false,
                    };
                    if !rolling {
                        return false;
                    }
                },
                None => {
                    proof {
                        lemma_movement_of_none(v, supports@[k as int]);
                    }
                    return false;
                },
            }
            k += 1;
        }
        true
    }

    /// Stops an entity's movement and that of the entity it is stuck to.
    pub fn clear_movement_with_attachment(&mut self, id: i32)
        requires
            old(self).world_wf(),
        ensures
            final(self).world_wf(),
            final(self).campaign_of() == old(self).campaign_of(),
            final(self).game_view() == old(self).game_view(),
            final(self).world_view() == (WorldView {
                movements: match attachment_of(old(self).world_view(), id) {
                    Some(a) => without_movement(without_movement(old(self).world_view().movements, id), a),
                    None => without_movement(old(self).world_view().movements, id),
                },
                ..old(self).world_view()
            }),
    {
        let ghost v0 = self.world.view();
        let attached = match self.world.entity(id) {
            Some(e) => if e.stuck_to >= 0 {
                Some(e.stuck_to)
            } else {
                None
            },
            None => None,
        };
        match self.world.clear_movement(id) {
            Some(m) => {
                proof {
                    let i = choose|i: int| 0 <= i < v0.movements.len() && v0.movements[i] == m && m.target_id == id
                        && self.world.view() == (WorldView { movements: v0.movements.remove(i), ..v0 });
                    lemma_without_found(v0, i, id);
                }
            },
            None => {
                proof {
                    lemma_without_none(v0.movements, id);
                }
            },
        }
        let ghost v1 = self.world.view();
        assert(v1 == (WorldView { movements: without_movement(v0.movements, id), ..v0 }));
        if let Some(a) = attached {
            match self.world.clear_movement(a) {
                Some(m) => {
                    proof {
                        let i = choose|i: int| 0 <= i < v1.movements.len() && v1.movements[i] == m && m.target_id == a
                            && self.world.view() == (WorldView { movements: v1.movements.remove(i), ..v1 });
                        lemma_without_found(v1, i, a);
                    }
                },
                None => {
                    proof {
                        lemma_without_none(v1.movements, a);
                    }
                },
            }
        }
    }
}

/// The step an attached entity takes along with `m`: the same direction,
/// twist, speed, animation, side and tower level.
pub open spec fn attached_step(e: Entity, m: Movement) -> Movement {
    Movement {
        target_id: e.id,
        kind: MovementKind::Translation,
        direction: m.direction,
        torsion: if parallel_spec(m.direction, e.direction) {
            0
        } else {
            m.torsion
        },
        remaining: duration_spec(m.speed as int),
        speed: m.speed,
        from: Direction::NoDirection,
        to: Direction::NoDirection,
        animation: m.animation,
        left: m.left,
        tower_level: m.tower_level,
        pure_direct_force: false,
    }
}

/// Starting movement `m` with its attachment: nothing when its target
/// already moves; an error when the target is missing; else the movement,
/// and a step of the entity the target is stuck to unless that one moves
/// already (an error when it is missing).
pub open spec fn moved_with_attachment(v: WorldView, m: Movement) -> (Result<(), Seq<char>>, WorldView) {
    let t = m.target_id;
    if has_movement(v.movements, t) {
        (Ok(()), v)
    } else if !has_entity(v.entities, t) {
        (
            Err("could not move entity "@ + int_text(t as int) + " with attachment: "@ + ("movement targets unknown entity "@
                + int_text(t as int))),
            v,
        )
    } else {
        let v1 = WorldView { movements: v.movements.push(m), ..v };
        match attachment_of(v, t) {
            Some(a) => if has_movement(v1.movements, a) {
                (Ok(()), v1)
            } else {
                match entity_of(v1, a) {
                    None => (Err("attached entity "@ + int_text(a as int) + " disappeared"@), v1),
                    Some(e) => (Ok(()), WorldView { movements: v1.movements.push(attached_step(e, m)), ..v1 }),
                }
            },
            None => (Ok(()), v1),
        }
    }
}

impl<'a> Game3d<'a> {
    /// Starts a movement together with the entity its target is stuck to;
    /// see [`moved_with_attachment`].
    pub fn set_movement_with_attachment(&mut self, movement: Movement) -> (r: Result<(), String>)
        requires
            old(self).world_wf(),
            attachment_of(old(self).world_view(), movement.target_id) is Some ==> speed_ok(movement.speed as int),
        ensures
            final(self).world_wf(),
            final(self).campaign_of() == old(self).campaign_of(),
            final(self).game_view() == old(self).game_view(),
            ({
                let (res, after) = moved_with_attachment(old(self).world_view(), movement);
                &&& final(self).world_view() == after
                &&& match res {
                    Ok(()) => r is Ok,
                    Err(message) => r is Err && r->Err_0@ == message,
                }
            }),
    {
        let target_id = movement.target_id;
        if self.world.movement(target_id).is_some() {
            return Ok(());
        }
        let attached = match self.world.entity(target_id) {
            Some(e) => if e.stuck_to >= 0 {
                Some(e.stuck_to)
            } else {
                None
            },
            None => None,
        };
        match self.world.set_movement(movement) {
            Ok(()) => {},
            Err(error) => {
                let mut message = String::from_str("could not move entity ");
                append_int(&mut message, target_id as i64);
                message.append(" with attachment: ");
                message.append(error.as_str());
                assert(message@ =~= "could not move entity "@ + int_text(target_id as int) + " with attachment: "@
                    + ("movement targets unknown entity "@ + int_text(target_id as int)));
                return Err(message);
            },
        }
        if let Some(attached_id) = attached {
            if self.world.movement(attached_id).is_none() {
                let attached_entity = match self.world.entity(attached_id) {
                    Some(e) => e.duplicate(),
                    None => {
                        let mut message = String::from_str("attached entity ");
                        append_int(&mut message, attached_id as i64);
                        message.append(" disappeared");
                        return Err(message);
                    },
                };
                proof {
                    lemma_entity_index_of(self.world.view().entities, attached_id);
                }
                let step = Movement::translation(
                    &attached_entity,
                    movement.direction,
                    movement.torsion,
                    movement.speed,
                    movement.animation,
                    movement.left,
                    movement.tower_level,
                );
                match self.world.set_movement(step) {
                    Ok(()) => {},
                    Err(error) => {
                        let mut message = String::from_str("could not move attachment ");
                        append_int(&mut message, attached_id as i64);
                        message.append(" with entity ");
                        append_int(&mut message, target_id as i64);
                        message.append(": ");
                        message.append(error.as_str());
                        return Err(message);
                    },
                }
            }
        }
        Ok(())
    }
}

/// Whether an entity is falling: moving down.
pub open spec fn falling(v: WorldView, id: i32) -> bool {
    match movement_of(v, id) {
        Some(m) => m.direction == Direction::Down,
        None => false,
    }
}

/// The supports `acc` of entity `id`, with those among the first `k` of
/// `ids` added in order: entities other than `id` that are not falling, each
/// once.
pub open spec fn add_supports(v: WorldView, id: i32, acc: Seq<i32>, ids: Seq<i32>, k: int) -> Seq<i32>
    decreases k,
{
    if k <= 0 {
        acc
    } else {
        let prev = add_supports(v, id, acc, ids, k - 1);
        let s = ids[k - 1];
        if s != id && !falling(v, s) && !prev.contains(s) {
            prev.push(s)
        } else {
            prev
        }
    }
}

/// The supports of entity `id` found at the first `k` cells, in order; the
/// first error instead.
pub open spec fn supports_over(v: WorldView, c: Campaign, id: i32, cells: Seq<Coord>, k: int) -> Result<Seq<i32>, Seq<char>>
    decreases k,
{
    if k <= 0 {
        Ok(Seq::empty())
    } else {
        match supports_over(v, c, id, cells, k - 1) {
            Err(m) => Err(m),
            Ok(acc) => match entities_at_from(v, c, cells[k - 1], true, v.entities.len() as int) {
                Err(m) => Err(m),
                Ok(ids) => Ok(add_supports(v, id, acc, ids, ids.len() as int)),
            },
        }
    }
}

/// The entities under entity `id`'s lower footprint that can bear it:
/// each entity met there, cell by cell, other than `id` and not falling,
/// once.
pub open spec fn footprint_supports(v: WorldView, c: Campaign, id: i32) -> Result<Seq<i32>, Seq<char>> {
    match entity_of(v, id) {
        None => Err(unknown_entity_text(id)),
        Some(e) => match lower_of(v, c, e) {
            Err(m) => Err(m),
            Ok(cells) => supports_over(v, c, id, cells, cells.len() as int),
        },
    }
}

proof fn lemma_supports_error(v: WorldView, c: Campaign, id: i32, cells: Seq<Coord>, k: int, n: int)
    requires
        0 < k <= n,
        supports_over(v, c, id, cells, k) is Err,
    ensures
        supports_over(v, c, id, cells, n) == supports_over(v, c, id, cells, k),
    decreases n - k,
{
    if n > k {
        lemma_supports_error(v, c, id, cells, k, n - 1);
    }
}

impl<'a> Game3d<'a> {
    /// The entities that can bear entity `id`; see [`footprint_supports`].
    pub fn footprint_entities(&self, id: i32) -> (r: Result<Vec<i32>, String>)
        requires
            self.world_wf(),
            world_small(self.world_view(), self.campaign_of()),
            entity_of(self.world_view(), id) matches Some(e) ==> (lower_of(self.world_view(), self.campaign_of(), e) matches Ok(
                cells,
            ) ==> forall|i: int, j: int|
                0 <= i < cells.len() && 0 <= j < self.world_view().entities.len() ==> at_ok(
                    self.world_view(),
                    (#[trigger] self.world_view().entities[j]).id,
                    #[trigger] cells[i],
                    true,
                )),
        ensures
            match footprint_supports(self.world_view(), self.campaign_of(), id) {
                Ok(found) => r is Ok && r->Ok_0@ == found,
                Err(message) => r is Err && r->Err_0@ == message,
            },
    {
        let ghost v = self.world_view();
        let ghost c = self.campaign_of();
        let cells = match self.world.lower_footprint(id) {
            Ok(cells) => cells,
            Err(message) => {
                return Err(message);
            },
        };
        let ghost e = entity_of(v, id)->0;
        let mut result: Vec<i32> = Vec::new();
        let mut k: usize = 0;
        while k < cells.len()
            invariant
                v == self.world_view(),
                c == self.campaign_of(),
                self.world.wf(),
                world_small(v, c),
                entity_of(v, id) == Some(e),
                lower_of(v, c, e) == Ok::<Seq<Coord>, Seq<char>>(cells@),
                forall|i: int, j: int|
                    0 <= i < cells@.len() && 0 <= j < v.entities.len() ==> at_ok(v, (#[trigger] v.entities[j]).id, #[trigger] cells@[i], true),
                k <= cells@.len(),
                supports_over(v, c, id, cells@, k as int) == Ok::<Seq<i32>, Seq<char>>(result@),
            decreases cells@.len() - k,
        {
            let pos = cells[k];
            assert forall|j: int| 0 <= j < v.entities.len() implies at_ok(v, (#[trigger] v.entities[j]).id, pos, true) by {
                assert(cells@[k as int] == pos);
            }
            let ids = match self.world.entities_at(pos, true) {
                Ok(ids) => ids,
                Err(message) => {
                    proof {
                        lemma_supports_error(v, c, id, cells@, k + 1, cells@.len() as int);
                    }
                    return Err(message);
                },
            };
            let ghost acc = result@;
            let mut q: usize = 0;
            while q < ids.len()
                invariant
                    v == self.world_view(),
                    self.world.wf(),
                    q <= ids@.len(),
                    result@ == add_supports(v, id, acc, ids@, q as int),
                decreases ids@.len() - q,
            {
                let support = ids[q];
                let down = match self.world.movement(support) {
                    Some(m) => {
                        proof {
                            lemma_movement_of_found(v, m, support);
                        }
                        matches!(m.direction, Direction::Down)
                    },
                    None => {
                        proof {
                            lemma_movement_of_none(v, support);
                        }
                        false
                    },
                };
                if support != id && !down && !ids_contain(&result, support) {
                    result.push(support);
                }
                q += 1;
            }
            k += 1;
        }
        Ok(result)
    }
}

/// The box a mover sweeps: its own box, stretched to where its movement
/// takes it.
pub open spec fn swept_box(b: (Coord, Coord), m: Option<Movement>) -> (Coord, Coord) {
    match m {
        Some(mv) => {
            let (t0, t1) = (coord_step(b.0, mv.direction), coord_step(b.1, mv.direction));
            (
                Coord {
                    x: if b.0.x <= t0.x { b.0.x } else { t0.x },
                    y: if b.0.y <= t0.y { b.0.y } else { t0.y },
                    z: if b.0.z <= t0.z { b.0.z } else { t0.z },
                },
                Coord {
                    x: if b.1.x >= t1.x { b.1.x } else { t1.x },
                    y: if b.1.y >= t1.y { b.1.y } else { t1.y },
                    z: if b.1.z >= t1.z { b.1.z } else { t1.z },
                },
            )
        },
        None => b,
    }
}

/// Whether two boxes share a cell; see [`boxes_overlap`].
pub open spec fn boxes_meet(a: (Coord, Coord), b: (Coord, Coord)) -> bool {
    a.0.x <= b.1.x && a.1.x >= b.0.x && a.0.y <= b.1.y && a.1.y >= b.0.y && a.0.z <= b.1.z && a.1.z >= b.0.z
}

/// Whether some mover from the `k`-th on sweeps through the box `lower`;
/// the first error reading a mover's box instead.
pub open spec fn movers_reach(v: WorldView, c: Campaign, lower: (Coord, Coord), movers: Seq<i32>, k: int) -> Result<bool, Seq<char>>
    decreases movers.len() - k,
{
    if k < 0 || k >= movers.len() {
        Ok(false)
    } else {
        match entity_of(v, movers[k]) {
            None => Err(unknown_entity_text(movers[k])),
            Some(e) => match bounds_of(v, c, e) {
                Err(message) => Err(message),
                Ok(b) => if boxes_meet(lower, swept_box(b, movement_of(v, movers[k]))) {
                    Ok(true)
                } else {
                    movers_reach(v, c, lower, movers, k + 1)
                },
            },
        }
    }
}

/// Whether entity `id` may come to rest on one of the movers: whether the
/// box one cell below its own meets the box some mover sweeps.
pub open spec fn may_rest_spec(v: WorldView, c: Campaign, id: i32, movers: Seq<i32>) -> Result<bool, Seq<char>> {
    match entity_of(v, id) {
        None => Err(unknown_entity_text(id)),
        Some(e) => match bounds_of(v, c, e) {
            Err(message) => Err(message),
            Ok(b) => movers_reach(v, c, (coord_step(b.0, Direction::Down), coord_step(b.1, Direction::Down)), movers, 0),
        },
    }
}

/// The boxes of the entity and of the movers can be shifted without leaving
/// the coordinate range.
pub open spec fn rest_boxes_fit(v: WorldView, c: Campaign, id: i32, movers: Seq<i32>) -> bool {
    &&& (entity_of(v, id) matches Some(e) ==> (bounds_of(v, c, e) matches Ok(b) ==> step_fits(b.0, Direction::Down)
        && step_fits(b.1, Direction::Down)))
    &&& forall|k: int|
        0 <= k < movers.len() ==> (entity_of(v, #[trigger] movers[k]) matches Some(e) ==> (bounds_of(v, c, e) matches Ok(b) ==> (
        movement_of(v, movers[k]) matches Some(m) ==> step_fits(b.0, m.direction) && step_fits(b.1, m.direction))))
}

impl<'a> Game3d<'a> {
    /// Whether entity `id` may come to rest on one of the movers; see
    /// [`may_rest_spec`].
    pub fn may_rest_on_any(&self, id: i32, movers: &[i32]) -> (r: Result<bool, String>)
        requires
            self.world_wf(),
            world_small(self.world_view(), self.campaign_of()),
            rest_boxes_fit(self.world_view(), self.campaign_of(), id, movers@),
        ensures
            match may_rest_spec(self.world_view(), self.campaign_of(), id, movers@) {
                Ok(b) => r == Ok::<bool, String>(b),
                Err(message) => r is Err && r->Err_0@ == message,
            },
    {
        let ghost v = self.world_view();
        let ghost c = self.campaign_of();
        let (subject_min, subject_max) = match self.world.footprint_bounds(id) {
            Ok(b) => b,
            Err(message) => {
                return Err(message);
            },
        };
        let lower_min = subject_min.step(Direction::Down);
        let lower_max = subject_max.step(Direction::Down);
        let ghost lower = (lower_min, lower_max);
        let mut k: usize = 0;
        while k < movers.len()
            invariant
                v == self.world_view(),
                c == self.campaign_of(),
                self.world.wf(),
                world_small(v, c),
                rest_boxes_fit(v, c, id, movers@),
                lower == (lower_min, lower_max),
                k <= movers@.len(),
                may_rest_spec(v, c, id, movers@) == movers_reach(v, c, lower, movers@, k as int),
            decreases movers@.len() - k,
        {
            let mover = movers[k];
            let (mut mover_min, mut mover_max) = match self.world.footprint_bounds(mover) {
                Ok(b) => b,
                Err(message) => {
                    return Err(message);
                },
            };
            let ghost b = (mover_min, mover_max);
            match self.world.movement(mover) {
                Some(movement) => {
                    proof {
                        lemma_movement_of_found(v, movement, mover);
                        assert(entity_of(v, movers@[k as int]) is Some);
                    }
                    let target_min = mover_min.step(movement.direction);
                    let target_max = mover_max.step(movement.direction);
                    mover_min = Coord {
                        x: if mover_min.x <= target_min.x { mover_min.x } else { target_min.x },
                        y: if mover_min.y <= target_min.y { mover_min.y } else { target_min.y },
                        z: if mover_min.z <= target_min.z { mover_min.z } else { target_min.z },
                    };
                    mover_max = Coord {
                        x: if mover_max.x >= target_max.x { mover_max.x } else { target_max.x },
                        y: if mover_max.y >= target_max.y { mover_max.y } else { target_max.y },
                        z: if mover_max.z >= target_max.z { mover_max.z } else { target_max.z },
                    };
                },
                None => {
                    proof {
                        lemma_movement_of_none(v, mover);
                    }
                },
            }
            assert((mover_min, mover_max) == swept_box(b, movement_of(v, mover)));
            if boxes_overlap(lower_min, lower_max, mover_min, mover_max) {
                return Ok(true);
            }
            k += 1;
        }
        Ok(false)
    }
}

/// The world with `e` in place of the entity with its id (unchanged when
/// there is none).
pub open spec fn with_entity(v: WorldView, e: Entity) -> WorldView {
    match entity_index_of(v.entities, e.id) {
        Some(i) => WorldView { entities: v.entities.update(i, e), ..v },
        None => v,
    }
}

/// Turning an entity over under a force in `force`: unless the force runs
/// along its axis, its rotation flips, and a detached fork it is stuck to
/// across its axis is reversed.
pub open spec fn rotated_entity(v: WorldView, id: i32, force: Direction) -> Result<WorldView, Seq<char>> {
    match entity_of(v, id) {
        None => Err("rotation target "@ + int_text(id as int) + " disappeared"@),
        Some(e) => if e.direction == Direction::NoDirection || !parallel_spec(force, e.direction) {
            let v1 = with_entity(v, Entity { rotation: (1 - e.rotation) as i32, ..e });
            if v.fork_id == Some(e.stuck_to) && (entity_of(v1, e.stuck_to) matches Some(f) && normal_spec(e.direction, f.direction)) {
                let f = entity_of(v1, e.stuck_to)->0;
                Ok(with_entity(v1, Entity { direction: inverse_spec(f.direction), ..f }))
            } else {
                Ok(v1)
            }
        } else {
            Ok(v)
        },
    }
}

impl<'a> Game3d<'a> {
    /// Turns an entity over under a force; see [`rotated_entity`].
    pub fn try_rotate_entity(&mut self, id: i32, force_direction: Direction) -> (r: Result<(), String>)
        requires
            old(self).world_wf(),
            entity_of(old(self).world_view(), id) matches Some(e) ==> e.rotation > i32::MIN + 1,
        ensures
            final(self).world_wf(),
            final(self).campaign_of() == old(self).campaign_of(),
            final(self).game_view() == old(self).game_view(),
            match rotated_entity(old(self).world_view(), id, force_direction) {
                Ok(after) => r is Ok && final(self).world_view() == after,
                Err(message) => r is Err && r->Err_0@ == message && final(self).world_view() == old(self).world_view(),
            },
    {
        let ghost v = self.world.view();
        let entity = match self.world.entity(id) {
            Some(e) => e.duplicate(),
            None => {
                let mut message = String::from_str("rotation target ");
                append_int(&mut message, id as i64);
                message.append(" disappeared");
                return Err(message);
            },
        };
        if !entity.direction.is_valid() || !force_direction.parallel_to(entity.direction) {
            let mut turned = entity.duplicate();
            turned.rotation = 1 - entity.rotation;
            let _ = self.world.replace_entity(turned);
            let ghost v1 = self.world.view();
            assert(v1 == with_entity(v, turned));
            let fork_id = self.world.fork_id();
            let stuck = match fork_id {
                Some(f) => f == entity.stuck_to,
                None => false,
            };
            if stuck {
                match self.world.entity(entity.stuck_to) {
                    Some(f) => {
                        if entity.direction.normal_to(f.direction) {
                            let mut g = f.duplicate();
                            g.direction = f.direction.inverse();
                            let _ = self.world.replace_entity(g);
                        }
                    },
                    None => {},
                }
            }
        }
        Ok(())
    }
}

/// The world once its detached fork is taken out; see
/// [`PhysicsWorld::remove_fork`].
pub open spec fn without_fork(v: WorldView) -> WorldView {
    let f = v.fork_id->0;
    let es = v.entities;
    let i = entity_index_of(es, f)->0;
    WorldView { entities: es.update(i, es.last()).drop_last(), movements: without_movement(v.movements, f), fork_id: None, ..v }
}

/// Picking the detached fork back up: when neither the player nor the fork
/// moves, the player stands on something or climbs, and the fork lies just
/// ahead of the player pointing its way, the fork leaves the world, the
/// player holds it, and whatever was stuck to the fork is stuck to the
/// player.
pub open spec fn reattached(v: WorldView, c: Campaign) -> Result<WorldView, Seq<char>> {
    match v.fork_id {
        None => Ok(v),
        Some(fid) => match entity_of(v, v.player_id) {
            None => Err("player disappeared while reattaching fork"@),
            Some(p) => match entity_of(v, fid) {
                None => Err("detached fork "@ + int_text(fid as int) + " disappeared"@),
                Some(f) => if has_movement(v.movements, v.player_id) || has_movement(v.movements, fid) {
                    Ok(v)
                } else if p.data@.len() == 0 && floor_spec(v, c, p.pos, false) is Err {
                    Err(floor_spec(v, c, p.pos, false)->Err_0)
                } else if p.data@.len() == 0 && floor_spec(v, c, p.pos, false)->Ok_0 is None {
                    Ok(v)
                } else if coord_step(p.pos, p.direction) != f.pos || p.direction != f.direction {
                    Ok(v)
                } else {
                    let carried = if f.stuck_to >= 0 {
                        match entity_of(v, f.stuck_to) {
                            None => Err("fork attachment "@ + int_text(f.stuck_to as int) + " disappeared"@),
                            Some(a) => Ok(with_entity(v, Entity { stuck_to: v.player_id, ..a })),
                        }
                    } else {
                        Ok(v)
                    };
                    match carried {
                        Err(m) => Err(m),
                        Ok(v1) => {
                            let v2 = without_fork(v1);
                            let p2 = entity_of(v2, v.player_id)->0;
                            Ok(with_entity(v2, Entity { cook_data: 0, stuck_to: if f.stuck_to >= 0 { f.stuck_to } else { -1i32 }, ..p2 }))
                        },
                    }
                },
            },
        },
    }
}

impl<'a> Game3d<'a> {
    /// Picks the detached fork back up; see [`reattached`].
    pub fn try_reattach_fork(&mut self) -> (r: Result<(), String>)
        requires
            old(self).world_wf(),
            world_small(old(self).world_view(), old(self).campaign_of()),
            old(self).world_view().fork_id != Some(old(self).world_view().player_id),
            entity_of(old(self).world_view(), old(self).world_view().player_id) matches Some(p) ==> small(
                coord_step(p.pos, Direction::Down),
            ) && step_fits(p.pos, p.direction),
        ensures
            final(self).world_wf(),
            final(self).campaign_of() == old(self).campaign_of(),
            final(self).game_view() == old(self).game_view(),
            match reattached(old(self).world_view(), old(self).campaign_of()) {
                Ok(after) => r is Ok && final(self).world_view() == after,
                Err(message) => r is Err && r->Err_0@ == message,
            },
    {
        let ghost v = self.world.view();
        let ghost c = self.campaign_of();
        let fork_id = match self.world.fork_id() {
            Some(f) => f,
            None => {
                return Ok(());
            },
        };
        let player_id = self.world.player_id();
        let player = match self.world.entity(player_id) {
            Some(e) => e.duplicate(),
            None => {
                return Err(String::from_str("player disappeared while reattaching fork"));
            },
        };
        let fork = match self.world.entity(fork_id) {
            Some(e) => e.duplicate(),
            None => {
                let mut message = String::from_str("detached fork ");
                append_int(&mut message, fork_id as i64);
                message.append(" disappeared");
                return Err(message);
            },
        };
        if self.world.movement(player_id).is_some() || self.world.movement(fork_id).is_some() {
            return Ok(());
        }
        proof {
            lemma_entity_index_of(v.entities, player_id);
            let k = entity_index_of(v.entities, player_id)->0;
            assert(v.entities[k] == player);
            assert(small(player.pos));
        }
        if player.data.as_str().unicode_len() == 0 {
            let floor = match self.floor_at(player.pos, false) {
                Ok(f) => f,
                Err(message) => {
                    return Err(message);
                },
            };
            if floor.is_none() {
                return Ok(());
            }
        }
        if player.pos.step(player.direction) != fork.pos || player.direction != fork.direction {
            return Ok(());
        }
        if fork.stuck_to >= 0 {
            match self.world.entity(fork.stuck_to) {
                Some(a) => {
                    let mut carried = a.duplicate();
                    carried.stuck_to = player_id;
                    let _ = self.world.replace_entity(carried);
                    proof {
                        lemma_entity_index_of(v.entities, fork.stuck_to);
                    }
                    assert(self.world.view().entities.len() == v.entities.len());
                    assert(forall|k: int|
                        0 <= k < v.entities.len() ==> (#[trigger] self.world.view().entities[k]).id == v.entities[k].id);
                },
                None => {
                    let mut message = String::from_str("fork attachment ");
                    append_int(&mut message, fork.stuck_to as i64);
                    message.append(" disappeared");
                    return Err(message);
                },
            }
        }
        let ghost v1 = self.world.view();
        assert(v1.entities.len() == v.entities.len());
        assert(forall|k: int| 0 <= k < v.entities.len() ==> (#[trigger] v1.entities[k]).id == v.entities[k].id);
        let _ = self.world.remove_fork();
        let ghost v2 = self.world.view();
        assert(v2 == without_fork(v1));
        let mut holder = match self.world.entity(player_id) {
            Some(e) => e.duplicate(),
            None => {
                proof {
                    lemma_entity_index_of(v.entities, player_id);
                    lemma_entity_index_of(v1.entities, player_id);
                    lemma_entity_index_of(v1.entities, fork_id);
                    let es = v1.entities;
                    let i = entity_index_of(es, fork_id)->0;
                    let j = entity_index_of(es, player_id)->0;
                    let es2 = es.update(i, es.last()).drop_last();
                    assert(entity_index_of(es, player_id) is Some) by {
                        assert(has_entity(v.entities, player_id));
                        let k = choose|k: int| 0 <= k < v.entities.len() && (#[trigger] v.entities[k]).id == player_id;
                        assert(v1.entities.len() == v.entities.len());
                        assert(v1.entities[k].id == player_id);
                    }
                    assert(0 <= i < es.len() && 0 <= j < es.len() && i != j);
                    if j == es.len() - 1 {
                        assert(es2[i].id == player_id);
                    } else {
                        assert(es2[j].id == player_id);
                    }
                    lemma_entity_index_of(es2, player_id);
                    assert(false);
                }
                return Err(String::from_str("player disappeared while reattaching fork"));
            },
        };
        holder.cook_data = 0;
        holder.stuck_to = if fork.stuck_to >= 0 { fork.stuck_to } else { -1 };
        let _ = self.world.replace_entity(holder);
        Ok(())
    }
}

/// Whether one of the entities `ids` moves sideways.
pub open spec fn sideways_mover(v: WorldView, ids: Seq<i32>) -> bool {
    exists|k: int| 0 <= k < ids.len() && (movement_of(v, #[trigger] ids[k]) matches Some(m) && crate::sausage::model::dir_value(m.direction) <= 8)
}

/// What dropping the fork is decided on: an error reading the player or
/// its floor; nothing to do; or the player who drops it.
pub enum DetachCheck {
    Failed(Seq<char>),
    Keep,
    Drop(Entity),
}

/// The fork drops out of the player's hands when the player holds it, is
/// not sunk, is not climbing, has nothing under it, is not moving other
/// than down, and nothing moves sideways.
pub open spec fn detach_check(v: WorldView, c: Campaign) -> DetachCheck {
    match entity_of(v, v.player_id) {
        None => DetachCheck::Failed("player disappeared while detaching fork"@),
        Some(p) => match floor_spec(v, c, p.pos, false) {
            Err(m) => DetachCheck::Failed(m),
            Ok(floor) => if v.fork_id is Some || p.pos.z < -2 || p.data@.len() > 0 || floor is Some || (movement_of(
                v,
                v.player_id,
            ) matches Some(m) && m.direction != Direction::Down) || sideways_mover(v, dynamic_ids(v.entities)) {
                DetachCheck::Keep
            } else {
                DetachCheck::Drop(p)
            },
        },
    }
}

/// The fork a player drops: a fork entity one step ahead of the player,
/// pointing the player's way, holding what the player held, with every
/// other field cleared.
pub open spec fn dropped_fork(p: Entity, f: Entity) -> bool {
    &&& f.pos == coord_step(p.pos, p.direction)
    &&& f.entity_type == EntityType::Fork
    &&& f.direction == p.direction
    &&& f.data@.len() == 0
    &&& f.stuck_to == (if p.stuck_to >= 0 { p.stuck_to } else { -1i32 })
    &&& f.rotation == 0 && f.cook_data == 0 && f.turn_direction == Direction::NoDirection
    &&& f.tile_number == 0 && f.tile_set == 0 && f.pivot == 0
}

/// The player once the fork is dropped: not climbing, uncooked, holding
/// nothing.
pub open spec fn emptied_player(p: Entity, q: Entity) -> bool {
    q == Entity { cook_data: 0, stuck_to: -1i32, data: q.data, ..p } && q.data@.len() == 0
}

/// The world once the player drops the fork `f`, the player being `q`
/// after: the fork joins the world as the detached fork, and whatever the
/// player held is stuck to the fork.
pub open spec fn detached_with(v: WorldView, p: Entity, f: Entity, q: Entity) -> Result<WorldView, Seq<char>> {
    let v2 = with_entity(WorldView { entities: v.entities.push(f), fork_id: Some(f.id), ..v }, q);
    if p.stuck_to >= 0 {
        match entity_of(v2, p.stuck_to) {
            None => Err("fork attachment "@ + int_text(p.stuck_to as int) + " disappeared"@),
            Some(a) => Ok(with_entity(v2, Entity { stuck_to: f.id, ..a })),
        }
    } else {
        Ok(v2)
    }
}

proof fn lemma_max_id_bounds(es: Seq<Entity>)
    ensures
        forall|k: int| 0 <= k < es.len() ==> (#[trigger] es[k]).id <= max_id(es),
    decreases es.len(),
{
    if es.len() > 1 {
        lemma_max_id_bounds(es.drop_last());
        assert forall|k: int| 0 <= k < es.len() implies (#[trigger] es[k]).id <= max_id(es) by {
            if k < es.len() - 1 {
                assert(es.drop_last()[k] == es[k]);
            }
        }
    }
}

impl<'a> Game3d<'a> {
    /// Drops the fork out of the player's hands; see [`detach_check`] and
    /// [`detached_with`].
    pub fn try_detach_fork(&mut self) -> (r: Result<(), String>)
        requires
            old(self).world_wf(),
            world_small(old(self).world_view(), old(self).campaign_of()),
            max_id(old(self).world_view().entities) < i32::MAX,
            entity_of(old(self).world_view(), old(self).world_view().player_id) matches Some(p) ==> small(
                coord_step(p.pos, Direction::Down),
            ) && step_fits(p.pos, p.direction),
        ensures
            final(self).campaign_of() == old(self).campaign_of(),
            final(self).game_view() == old(self).game_view(),
            match detach_check(old(self).world_view(), old(self).campaign_of()) {
                DetachCheck::Failed(m) => r is Err && r->Err_0@ == m,
                DetachCheck::Keep => r is Ok && final(self).world_view() == old(self).world_view() && final(self).world_wf(),
                DetachCheck::Drop(p) => exists|f: Entity, q: Entity|
                    dropped_fork(p, f) && f.id == max_id(old(self).world_view().entities) + 1 && emptied_player(p, q)
                        && match #[trigger] detached_with(old(self).world_view(), p, f, q) {
                        Ok(after) => r is Ok && final(self).world_view() == after && final(self).world_wf(),
                        Err(m) => r is Err && r->Err_0@ == m,
                    },
            },
    {
        let ghost v = self.world.view();
        let ghost c = self.campaign_of();
        let player_id = self.world.player_id();
        let player = match self.world.entity(player_id) {
            Some(e) => e.duplicate(),
            None => {
                return Err(String::from_str("player disappeared while detaching fork"));
            },
        };
        proof {
            lemma_entity_index_of(v.entities, player_id);
            let k = entity_index_of(v.entities, player_id)->0;
            assert(v.entities[k] == player);
            assert(small(player.pos));
        }
        let floor = match self.floor_at(player.pos, false) {
            Ok(f) => f,
            Err(message) => {
                return Err(message);
            },
        };
        let ids = self.world.dynamic_entity_ids();
        let mut sideways = false;
        let mut k: usize = 0;
        while k < ids.len()
            invariant
                v == self.world.view(),
                self.world.wf(),
                k <= ids@.len(),
                ids@ == dynamic_ids(v.entities),
                !sideways ==> forall|j: int|
                    0 <= j < k ==> !(movement_of(v, #[trigger] ids@[j]) matches Some(m) && crate::sausage::model::dir_value(m.direction) <= 8),
                sideways ==> sideways_mover(v, ids@),
            decreases ids@.len() - k,
        {
            match self.world.movement(ids[k]) {
                Some(m) => {
                    proof {
                        lemma_movement_of_found(v, m, ids@[k as int]);
                    }
                    if !m.direction.is_vertical() {
                        sideways = true;
                    }
                },
                None => {
                    proof {
                        lemma_movement_of_none(v, ids@[k as int]);
                    }
                },
            }
            k += 1;
        }
        let falling_other = match self.world.movement(player_id) {
            Some(m) => {
                proof {
                    lemma_movement_of_found(v, m, player_id);
                }
                !matches!(m.direction, Direction::Down)
            },
            None => {
                proof {
                    lemma_movement_of_none(v, player_id);
                }
                false
            },
        };
        if !self.world.player_has_fork() || player.pos.z < -2 || player.data.as_str().unicode_len() > 0 || floor.is_some()
            || falling_other || sideways {
            return Ok(());
        }
        let fork = Entity {
            pos: player.pos.step(player.direction),
            entity_type: EntityType::Fork,
            id: -1,
            direction: player.direction,
            data: String::new(),
            stuck_to: if player.stuck_to >= 0 { player.stuck_to } else { -1 },
            rotation: 0,
            cook_data: 0,
            turn_direction: Direction::NoDirection,
            tile_number: 0,
            tile_set: 0,
            pivot: 0,
        };
        proof {
            lemma_max_id_bounds(v.entities);
            if has_entity(v.entities, (max_id(v.entities) + 1) as i32) {
                let j = choose|j: int| 0 <= j < v.entities.len() && (#[trigger] v.entities[j]).id == (max_id(v.entities) + 1) as i32;
                assert(v.entities[j].id <= max_id(v.entities));
            }
        }
        let fork_id = match self.world.insert_fork(fork) {
            Ok(id) => id,
            Err(message) => {
                return Err(message);
            },
        };
        let ghost placed = Entity { id: fork_id, ..fork };
        let mut holder = match self.world.entity(player_id) {
            Some(e) => e.duplicate(),
            None => {
                proof {
                    let k = entity_index_of(v.entities, player_id)->0;
                    assert(self.world.view().entities[k].id == player_id);
                    lemma_entity_index_of(self.world.view().entities, player_id);
                }
                return Err(String::from_str("player disappeared while detaching fork"));
            },
        };
        proof {
            let es1 = self.world.view().entities;
            lemma_entity_index_of(es1, player_id);
            let k = entity_index_of(v.entities, player_id)->0;
            assert(es1[k] == player);
            let k1 = entity_index_of(es1, player_id)->0;
            assert(k1 == k);
        }
        holder.data = String::new();
        holder.cook_data = 0;
        holder.stuck_to = -1;
        let _ = self.world.replace_entity(holder);
        let ghost q = holder;
        assert(emptied_player(player, q));
        assert(dropped_fork(player, placed));
        if player.stuck_to >= 0 {
            match self.world.entity(player.stuck_to) {
                Some(a) => {
                    let mut carried = a.duplicate();
                    carried.stuck_to = fork_id;
                    let _ = self.world.replace_entity(carried);
                },
                None => {
                    let mut message = String::from_str("fork attachment ");
                    append_int(&mut message, player.stuck_to as i64);
                    message.append(" disappeared");
                    assert(detached_with(v, player, placed, q) is Err);
                    return Err(message);
                },
            }
        }
        assert(detached_with(v, player, placed, q) is Ok);
        Ok(())
    }
}

/// The first of the entities `ids`, from the `k`-th on, that is a sausage
/// stuck to nothing and not moving.
pub open spec fn first_free_sausage(v: WorldView, ids: Seq<i32>, k: int) -> Option<i32>
    decreases ids.len() - k,
{
    if k < 0 || k >= ids.len() {
        None
    } else if (entity_of(v, ids[k]) matches Some(e) && e.entity_type == EntityType::Sausage && e.stuck_to < 0) && !has_movement(
        v.movements,
        ids[k],
    ) {
        Some(ids[k])
    } else {
        first_free_sausage(v, ids, k + 1)
    }
}

proof fn lemma_first_free(v: WorldView, ids: Seq<i32>, k: int)
    ensures
        first_free_sausage(v, ids, k) matches Some(sid) ==> (entity_of(v, sid) matches Some(e) && e.entity_type
            == EntityType::Sausage) && !has_movement(v.movements, sid),
    decreases ids.len() - k,
{
    if 0 <= k < ids.len() {
        lemma_first_free(v, ids, k + 1);
    }
}

/// The coordinates `try_fork` looks at stay in range: the player's target
/// cell and the cell ahead of it.
pub open spec fn fork_cells_fit(v: WorldView) -> bool {
    entity_of(v, v.player_id) matches Some(p) ==> (movement_of(v, v.player_id) matches Some(m) ==> {
        &&& step_fits(p.pos, m.direction)
        &&& step_fits(coord_step(p.pos, m.direction), p.direction)
        &&& small(coord_step(p.pos, m.direction))
        &&& small(coord_step(coord_step(p.pos, m.direction), p.direction))
    })
}

/// Skewering: a player walking the way it faces with its fork, holding
/// nothing, spears the first free sausage at the cell ahead of where it
/// walks to, unless that sausage already reaches the cell the player walks
/// to; the two are then stuck to each other.
pub open spec fn forked(v: WorldView, c: Campaign) -> Result<WorldView, Seq<char>> {
    match entity_of(v, v.player_id) {
        None => Err("player disappeared"@),
        Some(p) => match movement_of(v, v.player_id) {
            None => Ok(v),
            Some(m) => if p.stuck_to >= 0 || v.fork_id is Some || m.kind != MovementKind::Translation || m.direction != p.direction {
                Ok(v)
            } else {
                let pt = coord_step(p.pos, m.direction);
                let ft = coord_step(pt, p.direction);
                match entities_at_from(v, c, ft, false, v.entities.len() as int) {
                    Err(e) => Err(e),
                    Ok(ids) => match first_free_sausage(v, ids, 0) {
                        None => Ok(v),
                        Some(sid) => match at_spec(v, c, sid, pt, true) {
                            Err(e) => Err(e),
                            Ok(true) => Ok(v),
                            Ok(false) => {
                                let v1 = with_entity(v, Entity { stuck_to: sid, ..p });
                                let s = entity_of(v1, sid)->0;
                                Ok(with_entity(v1, Entity { stuck_to: v.player_id, ..s }))
                            },
                        },
                    },
                }
            },
        },
    }
}

impl<'a> Game3d<'a> {
    /// Spears a sausage on the fork as the player walks into it; see
    /// [`forked`].
    pub fn try_fork(&mut self) -> (r: Result<(), String>)
        requires
            old(self).world_wf(),
            world_small(old(self).world_view(), old(self).campaign_of()),
            fork_cells_fit(old(self).world_view()),
        ensures
            final(self).campaign_of() == old(self).campaign_of(),
            final(self).game_view() == old(self).game_view(),
            final(self).world_wf(),
            match forked(old(self).world_view(), old(self).campaign_of()) {
                Ok(after) => r is Ok && final(self).world_view() == after,
                Err(m) => r is Err && r->Err_0@ == m && final(self).world_view() == old(self).world_view(),
            },
    {
        let ghost v = self.world.view();
        let ghost c = self.campaign_of();
        let player_id = self.world.player_id();
        let player = match self.world.entity(player_id) {
            Some(e) => e.duplicate(),
            None => {
                return Err(String::from_str("player disappeared"));
            },
        };
        let movement = match self.world.movement(player_id) {
            Some(m) => {
                proof {
                    lemma_movement_of_found(v, m, player_id);
                }
                m
            },
            None => {
                proof {
                    lemma_movement_of_none(v, player_id);
                }
                return Ok(());
            },
        };
        let translating = match movement.kind {
            MovementKind::Translation => true,
            _ => false,
        };
        if player.stuck_to >= 0 || !self.world.player_has_fork() || !translating || movement.direction != player.direction {
            return Ok(());
        }
        let player_target = player.pos.step(movement.direction);
        let fork_target = player_target.step(player.direction);
        let ids = match self.world.entities_at(fork_target, false) {
            Ok(ids) => ids,
            Err(message) => {
                return Err(message);
            },
        };
        let mut found: Option<i32> = None;
        let mut k: usize = 0;
        while k < ids.len()
            invariant
                v == self.world.view(),
                self.world.wf(),
                k <= ids@.len(),
                found is None ==> first_free_sausage(v, ids@, 0) == first_free_sausage(v, ids@, k as int),
                found matches Some(sid) ==> first_free_sausage(v, ids@, 0) == Some(sid),
            decreases ids@.len() - k,
        {
            if found.is_none() {
                let id = ids[k];
                let free = match self.world.entity(id) {
                    Some(e) => {
                        let sausage = match e.entity_type {
                            EntityType::Sausage => true,
                            _ => false,
                        };
                        sausage && e.stuck_to < 0 && self.world.movement(id).is_none()
                    },
                    None => false,
                };
                if free {
                    found = Some(id);
                }
            }
            k += 1;
        }
        let sausage_id = match found {
            Some(sid) => sid,
            None => {
                return Ok(());
            },
        };
        proof {
            lemma_first_free(v, ids@, 0);
            lemma_movement_of_none(v, sausage_id);
            lemma_entity_index_of(v.entities, sausage_id);
        }
        let reached = match self.world.at(sausage_id, player_target, true) {
            Ok(b) => b,
            Err(message) => {
                return Err(message);
            },
        };
        if reached {
            return Ok(());
        }
        let mut holder = player.duplicate();
        holder.stuck_to = sausage_id;
        let _ = self.world.replace_entity(holder);
        let ghost v1 = self.world.view();
        match self.world.entity(sausage_id) {
            Some(s) => {
                let mut speared = s.duplicate();
                speared.stuck_to = player_id;
                let _ = self.world.replace_entity(speared);
            },
            None => {
                proof {
                    assert(has_entity(v.entities, sausage_id));
                    let j = choose|j: int| 0 <= j < v.entities.len() && (#[trigger] v.entities[j]).id == sausage_id;
                    lemma_entity_index_of(v.entities, player_id);
                    assert(v1.entities[j].id == sausage_id);
                }
            },
        }
        Ok(())
    }
}

/// Whether every backup of the world is a well-formed world.
pub open spec fn backups_wf(v: WorldView) -> bool {
    forall|k: int|
        0 <= k < v.backups.len() ==> world_wf(
            WorldView { entities: (#[trigger] v.backups[k]).0, movements: v.backups[k].1, fork_id: v.backups[k].2, ..v },
        )
}

/// The quarter turn back to the axis an entity left diagonally.
pub open spec fn back_rotation(e: Entity) -> Movement {
    let to = crate::sausage::model::continue_rotation_spec(e.turn_direction, e.direction);
    Movement {
        target_id: e.id,
        kind: MovementKind::Rotation,
        direction: Direction::NoDirection,
        torsion: 0,
        remaining: duration_spec(2),
        speed: 2,
        from: e.direction,
        to,
        animation: Animation::TurnBackout,
        left: left_of_spec(to, e.direction),
        tower_level: -1i32,
        pure_direct_force: false,
    }
}

/// The world while the turn back is tried: backed up, turning, with the
/// entity's turn forgotten.
pub open spec fn turning_back_world(v: WorldView, e: Entity) -> WorldView {
    let vb = WorldView { backups: v.backups.push((v.entities, v.movements, v.fork_id)), ..v };
    with_entity(WorldView { movements: vb.movements.push(back_rotation(e)), ..vb }, Entity { turn_direction: Direction::NoDirection, ..e })
}

/// Turning an entity left on a diagonal back onto an axis, when the way
/// its turn continues is an axis: kept unless the turn collides; with the
/// world after.
pub open spec fn rotated_back(v: WorldView, c: Campaign, id: i32) -> (Result<bool, Seq<char>>, WorldView) {
    match entity_of(v, id) {
        None => (Err("rotate-back target "@ + int_text(id as int) + " disappeared"@), v),
        Some(e) => if !crate::sausage::model::is_diagonal_spec(e.direction) || !is_cardinal_spec(
            crate::sausage::model::continue_rotation_spec(e.turn_direction, e.direction),
        ) {
            (Ok(false), v)
        } else if has_movement(v.movements, id) {
            (
                Err("entity "@ + int_text(id as int) + " is already moving"@),
                WorldView { backups: v.backups.push((v.entities, v.movements, v.fork_id)), ..v },
            )
        } else {
            let vt = turning_back_world(v, e);
            match collides_spec(vt, c, id, false) {
                Err(m) => (Err(m), vt),
                Ok(true) => (Ok(false), v),
                Ok(false) => (Ok(true), WorldView { backups: v.backups, ..vt }),
            }
        },
    }
}

/// The turn back can be tested for collisions without leaving the
/// arithmetic range.
pub open spec fn rotate_back_fits(v: WorldView, c: Campaign, id: i32) -> bool {
    entity_of(v, id) matches Some(e) ==> {
        let vt = turning_back_world(v, e);
        motions_ok(vt) && collides_ok(vt, c, id)
    }
}

impl<'a> Game3d<'a> {
    /// Turns an entity back onto an axis; see [`rotated_back`].
    pub fn rotate_back(&mut self, id: i32) -> (r: Result<bool, String>)
        requires
            old(self).world_wf(),
            world_small(old(self).world_view(), old(self).campaign_of()),
            backups_wf(old(self).world_view()),
            rotate_back_fits(old(self).world_view(), old(self).campaign_of(), id),
        ensures
            final(self).campaign_of() == old(self).campaign_of(),
            final(self).game_view() == old(self).game_view(),
            final(self).world_wf(),
            ({
                let (res, after) = rotated_back(old(self).world_view(), old(self).campaign_of(), id);
                &&& final(self).world_view() == after
                &&& match res {
                    Ok(b) => r == Ok::<bool, String>(b),
                    Err(m) => r is Err && r->Err_0@ == m,
                }
            }),
    {
        let ghost v = self.world.view();
        let ghost c = self.campaign_of();
        let entity = match self.world.entity(id) {
            Some(e) => e.duplicate(),
            None => {
                let mut message = String::from_str("rotate-back target ");
                append_int(&mut message, id as i64);
                message.append(" disappeared");
                return Err(message);
            },
        };
        if !entity.direction.is_diagonal() {
            return Ok(false);
        }
        let target = Direction::continue_rotation(entity.turn_direction, entity.direction);
        if !target.is_cardinal() {
            return Ok(false);
        }
        proof {
            lemma_entity_index_of(v.entities, id);
            let k = entity_index_of(v.entities, id)->0;
            assert(v.entities[k] == entity);
            assert(small(entity.pos));
        }
        self.world.backup();
        let turn = Movement::rotation(&entity, entity.direction, target, Animation::TurnBackout, 2);
        assert(turn == back_rotation(entity));
        match self.world.set_movement(turn) {
            Ok(()) => {},
            Err(message) => {
                return Err(message);
            },
        }
        let mut settled = entity.duplicate();
        settled.turn_direction = Direction::NoDirection;
        let _ = self.world.replace_entity(settled);
        assert(self.world.view() == turning_back_world(v, entity));
        let ghost vt = self.world.view();
        assert(vt.backups.drop_last() =~= v.backups);
        assert(vt.backups.last() == (v.entities, v.movements, v.fork_id));
        let hit = match self.world.collides(id, false) {
            Ok(b) => b,
            Err(message) => {
                return Err(message);
            },
        };
        if hit {
            proof {
                let vt = self.world.view();
                assert forall|k: int| 0 <= k < vt.backups.len() implies world_wf(
                    WorldView { entities: (#[trigger] vt.backups[k]).0, movements: vt.backups[k].1, fork_id: vt.backups[k].2, ..vt },
                ) by {
                    if k < v.backups.len() {
                        assert(vt.backups[k] == v.backups[k]);
                        assert(world_wf(WorldView { entities: v.backups[k].0, movements: v.backups[k].1, fork_id: v.backups[k].2, ..v }));
                    } else {
                        assert(vt.backups[k] == (v.entities, v.movements, v.fork_id));
                        assert(world_wf(v));
                    }
                }
            }
            let _ = self.world.restore();
            assert(self.world.view() =~= v);
            return Ok(false);
        }
        let _ = self.world.discard_backup();
        Ok(true)
    }
}

/// Whether `b` is sausage `a` with its other end made its anchor; see
/// [`Entity::pivot_in_place`].
pub open spec fn pivoted(a: Entity, b: Entity) -> bool {
    &&& b.pos == coord_step(a.pos, a.direction)
    &&& b.direction == inverse_spec(a.direction)
    &&& b.pivot == 1 - a.pivot
    &&& b.data@ == crate::sausage::model::swapped_endpoints(a.data@)
    &&& b.cook_data == crate::sausage::model::reversed_faces(a.cook_data as int)
    &&& b.entity_type == a.entity_type && b.id == a.id && b.stuck_to == a.stuck_to && b.rotation == a.rotation
    &&& b.turn_direction == a.turn_direction && b.tile_number == a.tile_number && b.tile_set == a.tile_set
}

/// The first of the entities `ids`, from the `k`-th on, that is a sausage
/// or a fork.
pub open spec fn hat_candidate(v: WorldView, ids: Seq<i32>, k: int) -> Option<i32>
    decreases ids.len() - k,
{
    if k < 0 || k >= ids.len() {
        None
    } else if entity_of(v, ids[k]) matches Some(e) && (e.entity_type == EntityType::Sausage || e.entity_type == EntityType::Fork) {
        Some(ids[k])
    } else {
        hat_candidate(v, ids, k + 1)
    }
}

/// The sausages and forks of the world, and the cells under them, stay in
/// range when a sausage is pivoted and what it rests on is read.
pub open spec fn hats_fit(v: WorldView) -> bool {
    forall|k: int|
        0 <= k < v.entities.len() ==> ((#[trigger] v.entities[k]).entity_type == EntityType::Sausage || v.entities[k].entity_type
            == EntityType::Fork) ==> {
            let h = v.entities[k];
            &&& step_fits(h.pos, h.direction) && small(coord_step(h.pos, h.direction)) && h.pivot > i32::MIN + 1
            &&& step_fits(h.pos, Direction::Down) && small(coord_step(h.pos, Direction::Down))
            &&& step_fits(coord_step(h.pos, h.direction), Direction::Down) && small(
                coord_step(coord_step(h.pos, h.direction), Direction::Down),
            )
        }
}

/// What a turning entity carries on its head: the first sausage or fork in
/// the cell above it, a sausage anchored elsewhere being pivoted to anchor
/// there; it is carried when it rests on one thing only or lies
/// diagonally. `after` is the world after, `r` what is found.
pub open spec fn hat_lifted(v: WorldView, c: Campaign, id: i32, after: WorldView, r: Result<Option<i32>, Seq<char>>) -> bool {
    match entity_of(v, id) {
        None => after == v && r == Err::<Option<i32>, Seq<char>>("hat bearer "@ + int_text(id as int) + " disappeared"@),
        Some(e) => match entities_at_from(v, c, coord_step(e.pos, Direction::Up), false, v.entities.len() as int) {
            Err(m) => after == v && r == Err::<Option<i32>, Seq<char>>(m),
            Ok(ids) => match hat_candidate(v, ids, 0) {
                None => after == v && r == Ok::<Option<i32>, Seq<char>>(None),
                Some(h) => {
                    let hat = entity_of(v, h)->0;
                    &&& if hat.entity_type == EntityType::Sausage && hat.pos != coord_step(e.pos, Direction::Up) {
                        exists|p: Entity| pivoted(hat, p) && after == with_entity(v, p)
                    } else {
                        after == v
                    }
                    &&& match under_spec(after, c, h) {
                        Err(m) => r == Err::<Option<i32>, Seq<char>>(m),
                        Ok(u) => r == Ok::<Option<i32>, Seq<char>>(
                            if u.len() == 1 || crate::sausage::model::is_diagonal_spec(entity_of(after, h)->0.direction) {
                                Some(h)
                            } else {
                                None
                            },
                        ),
                    }
                },
            },
        },
    }
}

proof fn lemma_hat_candidate(v: WorldView, ids: Seq<i32>, k: int)
    ensures
        hat_candidate(v, ids, k) matches Some(h) ==> entity_of(v, h) matches Some(e) && (e.entity_type == EntityType::Sausage
            || e.entity_type == EntityType::Fork),
    decreases ids.len() - k,
{
    if 0 <= k < ids.len() {
        lemma_hat_candidate(v, ids, k + 1);
    }
}

proof fn lemma_step_back(p: Coord, d: Direction)
    requires
        step_fits(p, d),
    ensures
        coord_step(coord_step(p, d), inverse_spec(d)) == p,
{
}

impl<'a> Game3d<'a> {
    /// What entity `id` carries on its head; see [`hat_lifted`].
    pub fn get_hat(&mut self, id: i32) -> (r: Result<Option<i32>, String>)
        requires
            old(self).world_wf(),
            world_small(old(self).world_view(), old(self).campaign_of()),
            hats_fit(old(self).world_view()),
            entity_of(old(self).world_view(), id) matches Some(e) ==> step_fits(e.pos, Direction::Up) && small(
                coord_step(e.pos, Direction::Up),
            ),
        ensures
            final(self).campaign_of() == old(self).campaign_of(),
            final(self).game_view() == old(self).game_view(),
            final(self).world_wf(),
            exists|res: Result<Option<i32>, Seq<char>>|
                hat_lifted(old(self).world_view(), old(self).campaign_of(), id, final(self).world_view(), res) && match res {
                    Ok(found) => r == Ok::<Option<i32>, String>(found),
                    Err(m) => r is Err && r->Err_0@ == m,
                },
    {
        let ghost v = self.world.view();
        let ghost c = self.campaign_of();
        let entity = match self.world.entity(id) {
            Some(e) => e.duplicate(),
            None => {
                let mut message = String::from_str("hat bearer ");
                append_int(&mut message, id as i64);
                message.append(" disappeared");
                assert(hat_lifted(v, c, id, v, Err(message@)));
                return Err(message);
            },
        };
        let up = entity.pos.step(Direction::Up);
        let ids = match self.world.entities_at(up, false) {
            Ok(ids) => ids,
            Err(message) => {
                assert(hat_lifted(v, c, id, v, Err(message@)));
                return Err(message);
            },
        };
        let mut found: Option<i32> = None;
        let mut k: usize = 0;
        while k < ids.len()
            invariant
                v == self.world.view(),
                self.world.wf(),
                k <= ids@.len(),
                found is None ==> hat_candidate(v, ids@, 0) == hat_candidate(v, ids@, k as int),
                found matches Some(h) ==> hat_candidate(v, ids@, 0) == Some(h),
            decreases ids@.len() - k,
        {
            if found.is_none() {
                let candidate = ids[k];
                let wears = match self.world.entity(candidate) {
                    Some(e) => match e.entity_type {
                        EntityType::Sausage | EntityType::Fork => true,
                        _ => false,
                    },
                    None => false,
                };
                if wears {
                    found = Some(candidate);
                }
            }
            k += 1;
        }
        let hat_id = match found {
            Some(h) => h,
            None => {
                assert(hat_lifted(v, c, id, v, Ok(None)));
                return Ok(None);
            },
        };
        proof {
            lemma_hat_candidate(v, ids@, 0);
            lemma_entity_index_of(v.entities, hat_id);
        }
        let hat = match self.world.entity(hat_id) {
            Some(h) => h.duplicate(),
            None => {
                return Err(String::from_str("hat disappeared"));
            },
        };
        let ghost hk = entity_index_of(v.entities, hat_id)->0;
        assert(v.entities[hk] == hat);
        let sausage = match hat.entity_type {
            EntityType::Sausage => true,
            _ => false,
        };
        let pivot = sausage && hat.pos != up;
        if pivot {
            let mut turned = hat.duplicate();
            turned.pivot_in_place();
            let _ = self.world.replace_entity(turned);
            proof {
                assert(pivoted(hat, turned));
                lemma_step_back(hat.pos, hat.direction);
            }
        }
        let ghost v1 = self.world.view();
        assert(pivot ==> exists|p: Entity| pivoted(hat, p) && v1 == with_entity(v, p));
        assert(!pivot ==> v1 == v);
        proof {
            lemma_entity_index_of(v1.entities, hat_id);
        }
        let hat1 = match self.world.entity(hat_id) {
            Some(h) => h.duplicate(),
            None => {
                proof {
                    assert(v1.entities[hk].id == hat_id);
                }
                return Err(String::from_str("hat disappeared"));
            },
        };
        let under = match self.under(hat_id) {
            Ok(u) => u,
            Err(message) => {
                assert(hat_lifted(v, c, id, v1, Err(message@)));
                return Err(message);
            },
        };
        let res = if under.len() == 1 || hat1.direction.is_diagonal() {
            Some(hat_id)
        } else {
            None
        };
        assert(hat_lifted(v, c, id, v1, Ok(res)));
        Ok(res)
    }
}

/// `after` differs from `before` at most in the twists of its movements.
pub open spec fn twists_only(before: WorldView, after: WorldView) -> bool {
    &&& after.entities == before.entities
    &&& after.player_id == before.player_id
    &&& after.fork_id == before.fork_id
    &&& after.tile_set == before.tile_set
    &&& after.backups == before.backups
    &&& after.movements.len() == before.movements.len()
    &&& forall|i: int|
        0 <= i < before.movements.len() ==> (#[trigger] after.movements[i]) == (Movement {
            torsion: after.movements[i].torsion,
            ..before.movements[i]
        })
}

proof fn lemma_twists_chain(a: WorldView, b: WorldView, c: WorldView)
    requires
        twists_only(a, b),
        twists_only(b, c),
    ensures
        twists_only(a, c),
{
    assert forall|i: int| 0 <= i < a.movements.len() implies (#[trigger] c.movements[i]) == (Movement {
        torsion: c.movements[i].torsion,
        ..a.movements[i]
    }) by {
        assert(b.movements[i] == (Movement { torsion: b.movements[i].torsion, ..a.movements[i] }));
    }
}

proof fn lemma_twists_keep_wf(a: WorldView, b: WorldView)
    requires
        world_wf(a),
        twists_only(a, b),
    ensures
        world_wf(b),
{
    assert forall|i: int, j: int| 0 <= i < j < b.movements.len() implies (#[trigger] b.movements[i]).target_id
        != (#[trigger] b.movements[j]).target_id by {
        assert(b.movements[i].target_id == a.movements[i].target_id);
        assert(b.movements[j].target_id == a.movements[j].target_id);
    }
    assert forall|i: int| 0 <= i < b.movements.len() implies has_entity(b.entities, (#[trigger] b.movements[i]).target_id) by {
        assert(b.movements[i].target_id == a.movements[i].target_id);
    }
}

/// The text of a failure to keep the engine's arithmetic in range.
fn out_of_range() -> (r: String) {
    String::from_str("movement arithmetic out of range")
}

fn lost_movement(id: i32) -> (r: String) {
    let mut message = String::from_str("movement for ");
    append_int(&mut message, id as i64);
    message.append(" disappeared");
    message
}

/// The force of a movement as it passes to what rests on it.
fn force_of(m: Movement) -> (r: PassiveForce)
    ensures
        r == (PassiveForce { direction: m.direction, speed: m.speed, torsion: m.torsion }),
{
    PassiveForce { direction: m.direction, speed: m.speed, torsion: m.torsion }
}

impl<'a> Game3d<'a> {
    /// Whether the cells under entity `id` can be searched for what bears
    /// it without leaving the arithmetic range.
    fn supports_fit(&self, id: i32) -> (r: bool)
        requires
            self.world_wf(),
            world_small(self.world_view(), self.campaign_of()),
        ensures
            r ==> (entity_of(self.world_view(), id) matches Some(e) ==> (lower_of(
                self.world_view(),
                self.campaign_of(),
                e,
            ) matches Ok(cells) ==> forall|i: int, j: int|
                0 <= i < cells.len() && 0 <= j < self.world_view().entities.len() ==> at_ok(
                    self.world_view(),
                    (#[trigger] self.world_view().entities[j]).id,
                    #[trigger] cells[i],
                    true,
                ))),
    {
        let ghost v = self.world_view();
        let cells = match self.world.lower_footprint(id) {
            Ok(cells) => cells,
            Err(_) => {
                return true;
            },
        };
        let es = self.world.entity_list();
        let mut i: usize = 0;
        while i < cells.len()
            invariant
                self.world_wf(),
                v == self.world_view(),
                es@ == v.entities,
                i <= cells@.len(),
                forall|a: int, b: int|
                    0 <= a < i && 0 <= b < v.entities.len() ==> at_ok(v, (#[trigger] v.entities[b]).id, #[trigger] cells@[a], true),
            decreases cells@.len() - i,
        {
            let mut j: usize = 0;
            while j < es.len()
                invariant
                    self.world_wf(),
                    v == self.world_view(),
                    es@ == v.entities,
                    i < cells@.len(),
                    j <= es@.len(),
                    forall|a: int, b: int|
                        0 <= a < i && 0 <= b < v.entities.len() ==> at_ok(v, (#[trigger] v.entities[b]).id, #[trigger] cells@[a], true),
                    forall|b: int| 0 <= b < j ==> at_ok(v, (#[trigger] v.entities[b]).id, cells@[i as int], true),
                decreases es@.len() - j,
            {
                if !self.world.at_fits(es[j].id, cells[i], true) {
                    return false;
                }
                j += 1;
            }
            i += 1;
        }
        true
    }

    /// The force the movement of entity `id` passes on, its twist worked
    /// out first when it is still open; no force for an entity that is
    /// still or turns in place. Only twists of movements change.
    fn extract_passive_force(&mut self, id: i32, depth: usize) -> (r: Result<PassiveForce, String>)
        requires
            old(self).world_wf(),
            world_small(old(self).world_view(), old(self).campaign_of()),
        ensures
            final(self).world_wf(),
            final(self).campaign_of() == old(self).campaign_of(),
            final(self).game_view() == old(self).game_view(),
            twists_only(old(self).world_view(), final(self).world_view()),
        decreases depth, 1usize,
    {
        let movement = match self.world.movement(id) {
            None => {
                proof {
                    lemma_twists_chain(self.world_view(), self.world_view(), self.world_view());
                }
                return Ok(PassiveForce { direction: Direction::NoDirection, speed: 0, torsion: 0 });
            },
            Some(m) => m,
        };
        match movement.kind {
            MovementKind::Rotation | MovementKind::NoMovement => {
                return Ok(PassiveForce { direction: Direction::NoDirection, speed: 0, torsion: 0 });
            },
            _ => {},
        }
        if movement.torsion == -666 {
            self.calculate_torsion(id, depth)?;
        }
        match self.world.movement(id) {
            Some(m) => Ok(force_of(m)),
            None => Err(lost_movement(id)),
        }
    }

    /// The twist of a sausage moving at `speed` over twisting supports:
    /// the supports whose claims meet the sausage's claims one cell lower
    /// set a common carrying speed (speed less twist; none when they
    /// disagree), and the sausage's speed against it decides the twist.
    #[verifier::loop_isolation(false)]
    fn carried_twist(&self, id: i32, speed: i32, supports: &Vec<i32>) -> (r: Result<i32, String>)
        requires
            self.world_wf(),
            world_small(self.world_view(), self.campaign_of()),
        ensures
            r matches Ok(t) ==> -1 <= t <= 1,
    {
        if !self.world.motions_fit() {
            return Err(out_of_range());
        }
        let mut lowered = self.world.occupancy(id)?;
        let mut q: usize = 0;
        while q < lowered.len()
            invariant
                q <= lowered@.len(),
            decreases lowered@.len() - q,
        {
            let mut o = lowered[q];
            if o.pos.z == i32::MIN {
                return Err(out_of_range());
            }
            o.pos = o.pos.step(Direction::Down);
            lowered.set(q, o);
            q += 1;
        }
        let mut overlapping: Vec<i32> = Vec::new();
        let mut k: usize = 0;
        while k < supports.len()
            invariant
                k <= supports@.len(),
                self.world_wf(),
                world_small(self.world_view(), self.campaign_of()),
                crate::sausage::world::motions_ok(self.world_view()),
            decreases supports@.len() - k,
        {
            if let Ok(claims) = self.world.occupancy(supports[k]) {
                let mut meets = false;
                let mut a: usize = 0;
                while a < claims.len() && !meets
                    invariant
                        a <= claims@.len(),
                    decreases claims@.len() - a,
                {
                    let mut b: usize = 0;
                    while b < lowered.len() && !meets
                        invariant
                            b <= lowered@.len(),
                        decreases lowered@.len() - b,
                    {
                        if !comparable(claims[a], lowered[b]) {
                            return Err(out_of_range());
                        }
                        if claims[a].overlaps(lowered[b]) {
                            meets = true;
                        }
                        b += 1;
                    }
                    a += 1;
                }
                if meets {
                    overlapping.push(supports[k]);
                }
            }
            k += 1;
        }
        if overlapping.len() == 0 {
            return Ok(0);
        }
        {
            let first = match self.world.movement(overlapping[0]) {
                Some(m) => m,
                None => {
                    return Err(lost_movement(overlapping[0]));
                },
            };
            let mut support_speed: i64 = first.speed as i64 - first.torsion as i64;
            let mut k: usize = 1;
            while k < overlapping.len()
                invariant
                    k <= overlapping@.len(),
                    -0x1_0000_0000 <= support_speed <= 0x1_0000_0000,
                decreases overlapping@.len() - k,
            {
                let differs = match self.world.movement(overlapping[k]) {
                    None => true,
                    Some(m) => m.speed as i64 - m.torsion as i64 != support_speed,
                };
                if differs {
                    support_speed = 0;
                }
                k += 1;
            }
            let speed = speed as i64;
            if speed > support_speed + 1 {
                Ok(1)
            } else if speed == support_speed + 1 {
                Ok(-1)
            } else if speed == support_speed - 1 {
                Ok(1)
            } else {
                Ok(0)
            }
        }
    }

    /// Works out the twist of the movement of entity `id`: none for an
    /// island, for anything but a sausage, for a move along the sausage or
    /// up or down, or with nothing moving under it; otherwise the sausage's
    /// speed against the speed of what carries it decides whether it turns
    /// one way, the other, or not at all. Only twists of movements change,
    /// and the calculation gives up past `depth` nested calculations, where
    /// the twists under a sausage would wait on themselves.
    #[verifier::rlimit(60)]
    #[verifier::spinoff_prover]
    pub fn calculate_torsion(&mut self, id: i32, depth: usize) -> (r: Result<(), String>)
        requires
            old(self).world_wf(),
            world_small(old(self).world_view(), old(self).campaign_of()),
        ensures
            final(self).world_wf(),
            final(self).campaign_of() == old(self).campaign_of(),
            final(self).game_view() == old(self).game_view(),
            twists_only(old(self).world_view(), final(self).world_view()),
            r is Ok ==> (movement_of(final(self).world_view(), id) matches Some(m) && -1 <= m.torsion <= 1),
        decreases depth, 0usize,
    {
        let ghost v0 = self.world_view();
        proof {
            lemma_twists_chain(v0, v0, v0);
        }
        if depth == 0 {
            return Err(String::from_str("twists wait on each other"));
        }
        let movement = match self.world.movement(id) {
            Some(m) => m,
            None => {
                return Err(lost_movement(id));
            },
        };
        let entity = match self.world.entity(id) {
            Some(e) => e.duplicate(),
            None => {
                let mut message = String::from_str("torsion target ");
                append_int(&mut message, id as i64);
                message.append(" disappeared");
                return Err(message);
            },
        };
        let torsion: i32 = if entity.entity_type == EntityType::Island || entity.direction.parallel_to(movement.direction)
            || entity.entity_type != EntityType::Sausage || movement.direction.is_vertical() {
            0
        } else {
            if !self.supports_fit(id) {
                return Err(out_of_range());
            }
            let supports = self.footprint_entities(id)?;
            if supports.len() == 0 {
                0
            } else {
                let mut force = match self.extract_passive_force(supports[0], depth - 1) {
                    Ok(f) => f,
                    Err(message) => {
                        return Err(message);
                    },
                };
                let mut k: usize = 1;
                while k < supports.len()
                    invariant
                        1 <= k <= supports@.len(),
                        depth >= 1,
                        v0 == old(self).world_view(),
                        self.world_wf(),
                        world_small(self.world_view(), self.campaign_of()),
                        self.campaign_of() == old(self).campaign_of(),
                        self.game_view() == old(self).game_view(),
                        twists_only(v0, self.world_view()),
                    decreases supports@.len() - k,
                {
                    let ghost before = self.world_view();
                    let next = self.extract_passive_force(supports[k], depth - 1);
                    proof {
                        lemma_twists_chain(v0, before, self.world_view());
                    }
                    let next = match next {
                        Ok(f) => f,
                        Err(message) => {
                            return Err(message);
                        },
                    };
                    force = merge_forces(force, next);
                    k += 1;
                }
                if force.direction.is_vertical() || (force.direction == Direction::NoDirection && force.speed > 0) {
                    0
                } else if force.torsion != 0 {
                    self.carried_twist(id, movement.speed, &supports)?
                } else if movement.speed == force.speed {
                    0
                } else if movement.speed < force.speed {
                    -1
                } else {
                    1
                }
            }
        };
        let ghost v1 = self.world_view();
        let current = match self.world.movement(id) {
            Some(m) => m,
            None => {
                return Err(lost_movement(id));
            },
        };
        assert(current.target_id == id);
        proof {
            crate::sausage::world::lemma_movement_of_found(v1, current, id);
        }
        let ghost i = crate::sausage::world::movement_index_of(v1.movements, id)->0;
        assert(crate::sausage::world::movement_index_of(v1.movements, id) is Some);
        proof {
            crate::sausage::world::lemma_movement_index_of(v1.movements, id);
        }
        assert(0 <= i < v1.movements.len());
        let next = Movement { torsion, ..current };
        assert(next.target_id == id);
        let _found = self.world.replace_movement(next);
        proof {
            assert(self.world_view() == WorldView { movements: v1.movements.update(i, next), ..v1 });
            assert(twists_only(v1, self.world_view()));
            lemma_twists_chain(v0, v1, self.world_view());
            lemma_twists_keep_wf(v1, self.world_view());
            assert(self.world_view().movements[i] == next);
            crate::sausage::world::lemma_movement_of_found(self.world_view(), next, id);
        }
        Ok(())
    }
}

/// What the engine keeps of a world while it works: well formed, within the
/// arithmetic range, and with backups that are well formed and within the
/// range too.
pub open spec fn engine_ready(v: WorldView, c: Campaign) -> bool {
    &&& world_wf(v)
    &&& world_small(v, c)
    &&& backups_wf(v)
    &&& forall|k: int, i: int|
        0 <= k < v.backups.len() && 0 <= i < v.backups[k].0.len() ==> small((#[trigger] v.backups[k].0[i]).pos)
}

/// The part of a world the engine never changes while it works.
pub open spec fn same_frame(before: WorldView, after: WorldView) -> bool {
    after.player_id == before.player_id && after.tile_set == before.tile_set
}

proof fn lemma_with_entity_small(v: WorldView, c: Campaign, e: Entity)
    requires
        world_small(v, c),
        entity_of(v, e.id) matches Some(o) ==> o.pos == e.pos,
    ensures
        world_small(with_entity(v, e), c),
        with_entity(v, e).backups == v.backups,
        same_frame(v, with_entity(v, e)),
        with_entity(v, e).movements == v.movements,
{
    lemma_entity_index_of(v.entities, e.id);
    match entity_index_of(v.entities, e.id) {
        Some(i) => {
            let w = with_entity(v, e);
            assert forall|k: int| 0 <= k < w.entities.len() implies small((#[trigger] w.entities[k]).pos) by {
                if k != i {
                    assert(w.entities[k] == v.entities[k]);
                }
            }
        },
        None => {},
    }
}

/// Whether one step from `a` towards `d` stays within 32 bits.
fn step_fits_exec(a: Coord, d: Direction) -> (r: bool)
    ensures
        r == step_fits(a, d),
{
    let delta = d.delta();
    let x = a.x as i64 + delta.x as i64;
    let y = a.y as i64 + delta.y as i64;
    let z = a.z as i64 + delta.z as i64;
    i32::MIN as i64 <= x && x <= i32::MAX as i64 && i32::MIN as i64 <= y && y <= i32::MAX as i64 && i32::MIN as i64 <= z
        && z <= i32::MAX as i64
}

/// A translation of an entity at `speed`, when the speed can be timed.
fn translation_at(e: &Entity, direction: Direction, torsion: i32, speed: i32) -> (r: Result<Movement, String>)
    ensures
        r is Ok ==> speed_ok(speed as int) && r->Ok_0.target_id == e.id && r->Ok_0.speed == speed,
{
    if speed < 1 || speed > 32 {
        return Err(out_of_range());
    }
    Ok(Movement::translation(e, direction, torsion, speed, Animation::Idle, true, 0))
}

impl<'a> Game3d<'a> {
    /// Whether asking which entities are at `pos` stays in range.
    fn cell_fits(&self, pos: Coord, instant: bool) -> (r: bool)
        requires
            self.world_wf(),
        ensures
            r ==> forall|i: int|
                0 <= i < self.world_view().entities.len() ==> at_ok(
                    self.world_view(),
                    (#[trigger] self.world_view().entities[i]).id,
                    pos,
                    instant,
                ),
    {
        let es = self.world.entity_list();
        let mut i: usize = 0;
        while i < es.len()
            invariant
                self.world_wf(),
                es@ == self.world_view().entities,
                i <= es@.len(),
                forall|k: int| 0 <= k < i ==> at_ok(self.world_view(), (#[trigger] self.world_view().entities[k]).id, pos, instant),
            decreases es@.len() - i,
        {
            if !self.world.at_fits(es[i].id, pos, instant) {
                return false;
            }
            i += 1;
        }
        true
    }

    /// Whether comparing entity `id`'s box with the movers' boxes stays in
    /// range; see [`rest_boxes_fit`].
    fn rest_fits(&self, id: i32, movers: &Vec<i32>) -> (r: bool)
        requires
            self.world_wf(),
            world_small(self.world_view(), self.campaign_of()),
        ensures
            r ==> rest_boxes_fit(self.world_view(), self.campaign_of(), id, movers@),
    {
        if let Ok((low, high)) = self.world.footprint_bounds(id) {
            if !step_fits_exec(low, Direction::Down) || !step_fits_exec(high, Direction::Down) {
                return false;
            }
        }
        let mut k: usize = 0;
        while k < movers.len()
            invariant
                self.world_wf(),
                world_small(self.world_view(), self.campaign_of()),
                k <= movers@.len(),
                forall|q: int|
                    0 <= q < k ==> (entity_of(self.world_view(), #[trigger] movers@[q]) matches Some(e) ==> (bounds_of(
                        self.world_view(),
                        self.campaign_of(),
                        e,
                    ) matches Ok(b) ==> (movement_of(self.world_view(), movers@[q]) matches Some(m) ==> step_fits(
                        b.0,
                        m.direction,
                    ) && step_fits(b.1, m.direction)))),
            decreases movers@.len() - k,
        {
            if let Ok((low, high)) = self.world.footprint_bounds(movers[k]) {
                match self.world.movement(movers[k]) {
                    Some(m) => {
                        proof {
                            lemma_movement_of_found(self.world_view(), m, movers@[k as int]);
                        }
                        if !step_fits_exec(low, m.direction) || !step_fits_exec(high, m.direction) {
                            return false;
                        }
                    },
                    None => {
                        proof {
                            lemma_movement_of_none(self.world_view(), movers@[k as int]);
                        }
                    },
                }
            }
            k += 1;
        }
        true
    }

    /// Whether the movement of `id` can be tested for collisions within
    /// range.
    fn collision_fits(&self, id: i32) -> (r: bool)
        requires
            world_small(self.world_view(), self.campaign_of()),
        ensures
            r ==> motions_ok(self.world_view()) && collides_ok(self.world_view(), self.campaign_of(), id),
    {
        self.world.motions_fit() && self.world.collides_fit(id)
    }
}

proof fn lemma_ready_kept(v: WorldView, w: WorldView, c: Campaign)
    requires
        engine_ready(v, c),
        world_wf(w),
        world_small(w, c),
        w.backups == v.backups,
    ensures
        engine_ready(w, c),
{
    assert forall|k: int| 0 <= k < w.backups.len() implies world_wf(
        WorldView { entities: (#[trigger] w.backups[k]).0, movements: w.backups[k].1, fork_id: w.backups[k].2, ..w },
    ) by {
        assert(world_wf(WorldView { entities: v.backups[k].0, movements: v.backups[k].1, fork_id: v.backups[k].2, ..v }));
    }
}

proof fn lemma_backup_ready(v: WorldView, w: WorldView, c: Campaign)
    requires
        engine_ready(v, c),
        backup_step(v, w),
    ensures
        engine_ready(w, c),
        same_frame(v, w),
{
    assert forall|k: int| 0 <= k < w.backups.len() implies world_wf(
        WorldView { entities: (#[trigger] w.backups[k]).0, movements: w.backups[k].1, fork_id: w.backups[k].2, ..w },
    ) by {
        if k < v.backups.len() {
            assert(w.backups[k] == v.backups[k]);
            assert(world_wf(WorldView { entities: v.backups[k].0, movements: v.backups[k].1, fork_id: v.backups[k].2, ..v }));
        }
    }
    assert forall|k: int, i: int| 0 <= k < w.backups.len() && 0 <= i < w.backups[k].0.len() implies small(
        (#[trigger] w.backups[k].0[i]).pos,
    ) by {
        if k < v.backups.len() {
            assert(w.backups[k] == v.backups[k]);
        }
    }
}

proof fn lemma_restore_ready(v: WorldView, w: WorldView, c: Campaign)
    requires
        engine_ready(v, c),
        restore_step(v, w),
    ensures
        engine_ready(w, c),
        same_frame(v, w),
{
    let k = v.backups.len() - 1;
    assert(world_wf(WorldView { entities: v.backups[k].0, movements: v.backups[k].1, fork_id: v.backups[k].2, ..v }));
    assert forall|q: int| 0 <= q < w.backups.len() implies world_wf(
        WorldView { entities: (#[trigger] w.backups[q]).0, movements: w.backups[q].1, fork_id: w.backups[q].2, ..w },
    ) by {
        assert(w.backups[q] == v.backups[q]);
        assert(world_wf(WorldView { entities: v.backups[q].0, movements: v.backups[q].1, fork_id: v.backups[q].2, ..v }));
    }
    assert forall|i: int| 0 <= i < w.entities.len() implies small((#[trigger] w.entities[i]).pos) by {
        assert(small(v.backups[k].0[i].pos));
    }
    assert forall|q: int, i: int| 0 <= q < w.backups.len() && 0 <= i < w.backups[q].0.len() implies small(
        (#[trigger] w.backups[q].0[i]).pos,
    ) by {
        assert(w.backups[q] == v.backups[q]);
    }
}

proof fn lemma_discard_ready(v: WorldView, w: WorldView, c: Campaign)
    requires
        engine_ready(v, c),
        v.backups.len() > 0,
        w == (WorldView { backups: v.backups.drop_last(), ..v }),
    ensures
        engine_ready(w, c),
        same_frame(v, w),
{
    assert forall|q: int| 0 <= q < w.backups.len() implies world_wf(
        WorldView { entities: (#[trigger] w.backups[q]).0, movements: w.backups[q].1, fork_id: w.backups[q].2, ..w },
    ) by {
        assert(w.backups[q] == v.backups[q]);
        assert(world_wf(WorldView { entities: v.backups[q].0, movements: v.backups[q].1, fork_id: v.backups[q].2, ..v }));
    }
    assert forall|q: int, i: int| 0 <= q < w.backups.len() && 0 <= i < w.backups[q].0.len() implies small(
        (#[trigger] w.backups[q].0[i]).pos,
    ) by {
        assert(w.backups[q] == v.backups[q]);
    }
}

proof fn lemma_rotated_ready(v: WorldView, c: Campaign, id: i32, force: Direction)
    requires
        engine_ready(v, c),
        rotated_entity(v, id, force) matches Ok(w) && world_wf(w),
    ensures
        rotated_entity(v, id, force) matches Ok(w) && engine_ready(w, c) && same_frame(v, w) && w.backups == v.backups,
{
    let w = rotated_entity(v, id, force)->Ok_0;
    let e = entity_of(v, id)->0;
    if e.direction == Direction::NoDirection || !parallel_spec(force, e.direction) {
        let e1 = Entity { rotation: (1 - e.rotation) as i32, ..e };
        lemma_entity_index_of(v.entities, id);
        assert(e1.id == id);
        lemma_with_entity_small(v, c, e1);
        let v1 = with_entity(v, e1);
        if v.fork_id == Some(e.stuck_to) && (entity_of(v1, e.stuck_to) matches Some(f) && normal_spec(e.direction, f.direction)) {
            let f = entity_of(v1, e.stuck_to)->0;
            lemma_entity_index_of(v1.entities, e.stuck_to);
            lemma_with_entity_small(v1, c, Entity { direction: inverse_spec(f.direction), ..f });
        }
    }
    lemma_ready_kept(v, w, c);
}

/// How deep the twists under a sausage may wait on one another: two calls
/// per entity, past which a twist would wait on itself.
fn twist_depth(n: usize) -> (r: usize) {
    if n < 0x1000_0000 {
        2 * n + 2
    } else {
        usize::MAX
    }
}

fn too_deep() -> (r: String) {
    String::from_str("pushes nest too deeply")
}

fn vanished(what: &str, id: i32) -> (r: String) {
    let mut message = String::from_str(what);
    append_int(&mut message, id as i64);
    message.append(" disappeared");
    message
}

impl<'a> Game3d<'a> {
    /// Pushes entity `id` one step towards `direction` at `speed`, with
    /// what it pushes in turn and what it carries: refused for static
    /// entities, barriers, entities already moving and islands that are the
    /// puzzle's own or anywhere in the overworld; refused, and undone, when
    /// the push collides; tried again without a twist when the twist it was
    /// set out with changed on the way. A refused push changes nothing, and
    /// every backup taken on the way is given back.
    #[verifier::rlimit(100)]
    #[verifier::spinoff_prover]
    pub fn try_push(&mut self, id: i32, direction: Direction, speed: i32, force_zero_torsion: bool, depth: usize) -> (r:
        Result<bool, String>)
        requires
            engine_ready(old(self).world_view(), old(self).campaign_of()),
        ensures
            engine_ready(final(self).world_view(), final(self).campaign_of()),
            final(self).campaign_of() == old(self).campaign_of(),
            final(self).game_view() == old(self).game_view(),
            same_frame(old(self).world_view(), final(self).world_view()),
            r is Ok ==> final(self).world_view().backups == old(self).world_view().backups,
            r == Ok::<bool, String>(false) ==> final(self).world_view() == old(self).world_view(),
        decreases depth, 0usize,
    {
        let ghost v0 = self.world_view();
        let ghost c = self.campaign_of();
        if depth == 0 {
            return Err(too_deep());
        }
        let entity = match self.world.entity(id) {
            Some(e) => e.duplicate(),
            None => {
                return Err(vanished("push target ", id));
            },
        };
        if entity.entity_type.is_static() || entity.entity_type == EntityType::Barrier || self.world.movement(id).is_some()
            || (entity.entity_type == EntityType::Island && (crate::text::str_eq(
            entity.data.as_str(),
            self.push_target_level.as_str(),
        ) || self.overworld)) {
            return Ok(false);
        }
        self.world.backup();
        proof {
            lemma_backup_ready(v0, self.world_view(), c);
        }
        let ghost vb = self.world_view();
        let torsion: i32 = if !force_zero_torsion && entity.entity_type == EntityType::Sausage && !entity.direction.parallel_to(
            direction,
        ) && !direction.is_vertical() {
            -666
        } else {
            0
        };
        let ghost before = self.world_view();
        let is_island = self.push_setup(&entity, direction, torsion, speed, depth - 1);
        proof {
            if is_island is Ok {
                assert(self.world_view().backups == vb.backups);
            }
        }
        let (resolved_torsion, is_island) = is_island?;
        if !self.collision_fits(id) {
            return Err(out_of_range());
        }
        let collision = self.world.collides(id, false)?;
        if collision {
            let ghost before = self.world_view();
            self.world.restore()?;
            proof {
                lemma_restore_ready(before, self.world_view(), c);
                assert(vb.backups.drop_last() =~= v0.backups);
                assert(self.world_view() == v0);
            }
            return Ok(false);
        }
        if !direction.is_vertical() {
            let twisting = match self.world.movement(id) {
                Some(m) => m.torsion == -666,
                None => false,
            };
            if is_island || twisting {
                self.passive_force_sweep_with_torque(true, depth - 1)?;
            }
        }
        let final_torsion = match self.world.movement(id) {
            Some(m) => m.torsion,
            None => {
                return Err(vanished("final movement for ", id));
            },
        };
        if resolved_torsion != final_torsion {
            let ghost before = self.world_view();
            self.world.restore()?;
            proof {
                lemma_restore_ready(before, self.world_view(), c);
                assert(vb.backups.drop_last() =~= v0.backups);
                assert(self.world_view() == v0);
            }
            return self.try_push(id, direction, speed, true, depth - 1);
        }
        let ghost before = self.world_view();
        self.world.discard_backup()?;
        proof {
            lemma_discard_ready(before, self.world_view(), c);
            assert(vb.backups.drop_last() =~= v0.backups);
        }
        Ok(true)
    }

    /// The first half of a push: the pushed entity is set moving to see
    /// how the twist it set out with resolves while what it pushes is
    /// pushed, then set moving for good (spearing a sausage ahead when it
    /// is a fork going its way). The resolved twist, and whether the
    /// entity is an island.
    fn push_setup(&mut self, entity: &Entity, direction: Direction, torsion: i32, speed: i32, depth: usize) -> (r: Result<(i32, bool), String>)
        requires
            engine_ready(old(self).world_view(), old(self).campaign_of()),
        ensures
            engine_ready(final(self).world_view(), final(self).campaign_of()),
            final(self).campaign_of() == old(self).campaign_of(),
            final(self).game_view() == old(self).game_view(),
            same_frame(old(self).world_view(), final(self).world_view()),
            r is Ok ==> final(self).world_view().backups == old(self).world_view().backups,
        decreases depth, 1usize,
    {
        let ghost c = self.campaign_of();
        let id = entity.id;
        let first = translation_at(&entity, direction, torsion, speed)?;
        let ghost before = self.world_view();
        self.set_movement_with_attachment(first)?;
        proof {
            lemma_ready_kept(before, self.world_view(), c);
        }
        if !direction.is_vertical() {
            self.passive_force_sweep_with_torque(false, depth)?;
        }
        self.apply_force_from(id, direction, speed, depth)?;
        let resolved_torsion = match self.world.movement(id) {
            Some(m) => m.torsion,
            None => {
                return Err(vanished("temporary movement for ", id));
            },
        };
        let ghost before = self.world_view();
        self.clear_movement_with_attachment(id);
        proof {
            lemma_ready_kept(before, self.world_view(), c);
        }
        let current = match self.world.entity(id) {
            Some(e) => e.duplicate(),
            None => {
                return Err(vanished("push target ", id));
            },
        };
        let second = translation_at(&current, direction, torsion, speed)?;
        let ghost before = self.world_view();
        self.set_movement_with_attachment(second)?;
        proof {
            lemma_ready_kept(before, self.world_view(), c);
        }
        if current.entity_type == EntityType::Fork && current.stuck_to < 0 && current.direction == direction {
            self.skewer_ahead(&current, direction)?;
        }
        Ok((resolved_torsion, current.entity_type == EntityType::Island))
    }

    /// A fork pushed the way it points spears the first still sausage at
    /// the cell ahead; the two are then stuck to each other.
    fn skewer_ahead(&mut self, current: &Entity, direction: Direction) -> (r: Result<(), String>)
        requires
            engine_ready(old(self).world_view(), old(self).campaign_of()),
            entity_of(old(self).world_view(), current.id) == Some(*current),
        ensures
            engine_ready(final(self).world_view(), final(self).campaign_of()),
            final(self).campaign_of() == old(self).campaign_of(),
            final(self).game_view() == old(self).game_view(),
            same_frame(old(self).world_view(), final(self).world_view()),
            final(self).world_view().backups == old(self).world_view().backups,
    {
        let ghost c = self.campaign_of();
        proof {
            lemma_entity_small(self.world_view(), c, current.id);
        }
        if !step_fits_exec(current.pos, direction) {
            return Err(out_of_range());
        }
        let target_pos = current.pos.step(direction);
        if !crate::sausage::world::small_fits(target_pos) || !self.cell_fits(target_pos, true) {
            return Err(out_of_range());
        }
        let ids = self.world.entities_at(target_pos, true)?;
        let mut skewered: Option<i32> = None;
        let mut k: usize = 0;
        while k < ids.len()
            invariant
                k <= ids@.len(),
                skewered matches Some(s) ==> entity_of(self.world_view(), s) is Some,
            decreases ids@.len() - k,
        {
            if skewered.is_none() {
                if let Some(e) = self.world.entity(ids[k]) {
                    if e.entity_type == EntityType::Sausage && self.world.movement(ids[k]).is_none() {
                        skewered = Some(ids[k]);
                    }
                }
            }
            k += 1;
        }
        if let Some(sausage_id) = skewered {
            let ghost before = self.world_view();
            if let Some(f) = self.world.entity(current.id) {
                let mut fork = f.duplicate();
                fork.stuck_to = sausage_id;
                proof {
                    lemma_entity_small(before, c, current.id);
                }
                let _found = self.world.replace_entity(fork);
            }
            proof {
                lemma_ready_kept(before, self.world_view(), c);
            }
            let ghost before = self.world_view();
            if let Some(e) = self.world.entity(sausage_id) {
                let mut sausage = e.duplicate();
                sausage.stuck_to = current.id;
                proof {
                    lemma_entity_small(before, c, sausage_id);
                }
                let _found = self.world.replace_entity(sausage);
            }
            proof {
                lemma_ready_kept(before, self.world_view(), c);
            }
        }
        Ok(())
    }

    /// Pushes what lies along entity `id`'s border towards `direction`,
    /// each entity once, skipping what already moves, a fork held by a
    /// sausage, and the player unless the push is vertical; whether there
    /// was something to push and all of it moved.
    pub fn apply_force_from(&mut self, id: i32, direction: Direction, speed: i32, depth: usize) -> (r: Result<bool, String>)
        requires
            engine_ready(old(self).world_view(), old(self).campaign_of()),
        ensures
            engine_ready(final(self).world_view(), final(self).campaign_of()),
            final(self).campaign_of() == old(self).campaign_of(),
            final(self).game_view() == old(self).game_view(),
            same_frame(old(self).world_view(), final(self).world_view()),
            r is Ok ==> final(self).world_view().backups == old(self).world_view().backups,
        decreases depth, 0usize,
    {
        let ghost v0 = self.world_view();
        if depth == 0 {
            return Err(too_deep());
        }
        let border = self.world.border(id, direction)?;
        let mut targets: Vec<i32> = Vec::new();
        let mut p: usize = 0;
        while p < border.len()
            invariant
                p <= border@.len(),
                self.world_view() == v0,
                engine_ready(v0, self.campaign_of()),
            decreases border@.len() - p,
        {
            if !self.cell_fits(border[p], true) {
                return Err(out_of_range());
            }
            let here = self.world.entities_at(border[p], true)?;
            let mut q: usize = 0;
            while q < here.len()
                invariant
                    q <= here@.len(),
                decreases here@.len() - q,
            {
                if here[q] != id && !ids_contain(&targets, here[q]) {
                    targets.push(here[q]);
                }
                q += 1;
            }
            p += 1;
        }
        let mut found = false;
        let mut all_moved = true;
        let mut t: usize = 0;
        while t < targets.len()
            invariant
                t <= targets@.len(),
                depth >= 1,
                engine_ready(self.world_view(), self.campaign_of()),
                self.campaign_of() == old(self).campaign_of(),
                self.game_view() == old(self).game_view(),
                same_frame(v0, self.world_view()),
                self.world_view().backups == v0.backups,
                v0 == old(self).world_view(),
            decreases targets@.len() - t,
        {
            let target = targets[t];
            let (is_fork_held, is_player) = match self.world.entity(target) {
                Some(e) => (e.entity_type == EntityType::Fork && e.stuck_to >= 0, e.entity_type == EntityType::Player),
                None => {
                    return Err(vanished("force target ", target));
                },
            };
            if !(self.world.movement(target).is_some() || is_fork_held || (is_player && !direction.is_vertical())) {
                found = true;
                if !self.try_push(target, direction, speed, false, depth - 1)? {
                    all_moved = false;
                }
            }
            t += 1;
        }
        Ok(found && all_moved)
    }

    /// Pushes the first entity at `pos` that is not `from`, not moving and
    /// not a held fork; whether it moved.
    pub fn apply_force_at(&mut self, pos: Coord, direction: Direction, speed: i32, from: Option<i32>, depth: usize) -> (r:
        Result<bool, String>)
        requires
            engine_ready(old(self).world_view(), old(self).campaign_of()),
        ensures
            engine_ready(final(self).world_view(), final(self).campaign_of()),
            final(self).campaign_of() == old(self).campaign_of(),
            final(self).game_view() == old(self).game_view(),
            same_frame(old(self).world_view(), final(self).world_view()),
            r is Ok ==> final(self).world_view().backups == old(self).world_view().backups,
        decreases depth, 0usize,
    {
        if depth == 0 {
            return Err(too_deep());
        }
        if !self.cell_fits(pos, true) {
            return Err(out_of_range());
        }
        let ids = self.world.entities_at(pos, true)?;
        let mut k: usize = 0;
        while k < ids.len()
            invariant
                k <= ids@.len(),
                self.world_view() == old(self).world_view(),
                self.campaign_of() == old(self).campaign_of(),
                self.game_view() == old(self).game_view(),
                engine_ready(self.world_view(), self.campaign_of()),
                depth >= 1,
            decreases ids@.len() - k,
        {
            let target = ids[k];
            let skip = from == Some(target) || self.world.movement(target).is_some();
            if !skip {
                let held = match self.world.entity(target) {
                    Some(e) => e.entity_type == EntityType::Fork && e.stuck_to >= 0,
                    None => {
                        return Err(vanished("force target ", target));
                    },
                };
                if !held {
                    return self.try_push(target, direction, speed, false, depth - 1);
                }
            }
            k += 1;
        }
        Ok(false)
    }
}

/// Whether a movement carries its entity sideways.
fn horizontal_translation(m: Movement) -> (r: bool) {
    m.kind == MovementKind::Translation && !m.direction.is_vertical()
}

impl<'a> Game3d<'a> {
    /// The ids of the dynamic entities whose movement carries them
    /// sideways.
    fn horizontal_movers(&self) -> (r: Vec<i32>) {
        let ids = self.world.dynamic_entity_ids();
        let mut out: Vec<i32> = Vec::new();
        let mut k: usize = 0;
        while k < ids.len()
            invariant
                k <= ids@.len(),
            decreases ids@.len() - k,
        {
            if let Some(m) = self.world.movement(ids[k]) {
                if horizontal_translation(m) {
                    out.push(ids[k]);
                }
            }
            k += 1;
        }
        out
    }

    /// Works out every open twist, and with `apply_torque` turns over each
    /// sausage that twists.
    pub fn calculate_torsions(&mut self, apply_torque: bool) -> (r: Result<(), String>)
        requires
            engine_ready(old(self).world_view(), old(self).campaign_of()),
        ensures
            engine_ready(final(self).world_view(), final(self).campaign_of()),
            final(self).campaign_of() == old(self).campaign_of(),
            final(self).game_view() == old(self).game_view(),
            same_frame(old(self).world_view(), final(self).world_view()),
            final(self).world_view().backups == old(self).world_view().backups,
    {
        let ghost v0 = self.world_view();
        let ghost c = self.campaign_of();
        let all = self.world.dynamic_entity_ids();
        let mut ids: Vec<i32> = Vec::new();
        let mut k: usize = 0;
        while k < all.len()
            invariant
                k <= all@.len(),
            decreases all@.len() - k,
        {
            if let Some(m) = self.world.movement(all[k]) {
                if m.torsion == -666 {
                    ids.push(all[k]);
                }
            }
            k += 1;
        }
        let depth = twist_depth(self.world.entity_list().len());
        let mut k: usize = 0;
        while k < ids.len()
            invariant
                k <= ids@.len(),
                engine_ready(self.world_view(), self.campaign_of()),
                self.campaign_of() == c,
                c == old(self).campaign_of(),
                self.game_view() == old(self).game_view(),
                same_frame(v0, self.world_view()),
                self.world_view().backups == v0.backups,
                v0 == old(self).world_view(),
            decreases ids@.len() - k,
        {
            let id = ids[k];
            let ghost before = self.world_view();
            let done = self.calculate_torsion(id, depth);
            proof {
                lemma_twists_keep_wf(before, self.world_view());
                lemma_ready_kept(before, self.world_view(), c);
            }
            done?;
            let m = match self.world.movement(id) {
                Some(m) => m,
                None => {
                    return Err(lost_movement(id));
                },
            };
            if apply_torque && m.torsion != 0 {
                if let Some(e) = self.world.entity(id) {
                    if e.rotation <= i32::MIN + 1 {
                        return Err(out_of_range());
                    }
                }
                let ghost before = self.world_view();
                let turned = self.try_rotate_entity(id, m.direction);
                proof {
                    if turned is Ok {
                        lemma_rotated_ready(before, c, id, m.direction);
                    }
                }
                turned?;
            }
            k += 1;
        }
        Ok(())
    }
}

impl<'a> Game3d<'a> {
    /// Carries along what rests on sideways movers, round after round until
    /// a round moves nothing more: each dynamic entity other than the
    /// player that is a sausage, fork or island, not held by something that
    /// is not extended, that may rest on a mover, and (without
    /// `apply_torque`) is no sausage lying across the sweep, is given the
    /// force of what bears it. Open twists are worked out first and after
    /// every entity that moved. Every backup taken on the way is given back.
    pub fn passive_force_sweep_with_torque(&mut self, apply_torque: bool, depth: usize) -> (r: Result<(), String>)
        requires
            engine_ready(old(self).world_view(), old(self).campaign_of()),
        ensures
            engine_ready(final(self).world_view(), final(self).campaign_of()),
            final(self).campaign_of() == old(self).campaign_of(),
            final(self).game_view() == old(self).game_view(),
            same_frame(old(self).world_view(), final(self).world_view()),
            r is Ok ==> final(self).world_view().backups == old(self).world_view().backups,
        decreases depth, 0usize,
    {
        let ghost v0 = self.world_view();
        let ghost c = self.campaign_of();
        if depth == 0 {
            return Err(too_deep());
        }
        if !self.world.moving() {
            return Ok(());
        }
        let initial = self.horizontal_movers();
        if initial.len() == 0 {
            return Ok(());
        }
        let sweep_direction = match self.world.movement(initial[0]) {
            Some(m) => m.effective_direction(),
            None => Direction::NoDirection,
        };
        self.calculate_torsions(apply_torque)?;
        let n = self.world.entity_list().len();
        let mut rounds: usize = if n < usize::MAX {
            n + 1
        } else {
            n
        };
        let mut changed = true;
        while changed
            invariant
                depth >= 1,
                engine_ready(self.world_view(), self.campaign_of()),
                self.campaign_of() == c,
                c == old(self).campaign_of(),
                self.game_view() == old(self).game_view(),
                same_frame(v0, self.world_view()),
                self.world_view().backups == v0.backups,
                v0 == old(self).world_view(),
            decreases rounds,
        {
            if rounds == 0 {
                return Err(String::from_str("passive forces did not settle"));
            }
            rounds -= 1;
            changed = false;
            let movers = self.horizontal_movers();
            let ids = self.world.dynamic_entity_ids();
            let player_id = self.world.player_id();
            let mut candidates: Vec<i32> = Vec::new();
            let mut k: usize = 0;
            while k < ids.len()
                invariant
                    k <= ids@.len(),
                    engine_ready(self.world_view(), self.campaign_of()),
                    self.campaign_of() == c,
                    c == old(self).campaign_of(),
                    self.game_view() == old(self).game_view(),
                    same_frame(v0, self.world_view()),
                    v0 == old(self).world_view(),
                decreases ids@.len() - k,
            {
                let id = ids[k];
                if id != player_id {
                    let keep = match self.world.entity(id) {
                        Some(e) => {
                            let kind_ok = e.entity_type == EntityType::Sausage || e.entity_type == EntityType::Fork || e.entity_type
                                == EntityType::Island;
                            let free = e.stuck_to < 0 || match self.is_extended(e.stuck_to) {
                                Ok(extended) => !extended,
                                Err(_) => false,
                            };
                            let aligned = apply_torque || e.entity_type != EntityType::Sausage || e.direction.parallel_to(sweep_direction);
                            kind_ok && free && aligned
                        },
                        None => false,
                    };
                    if keep {
                        if !self.rest_fits(id, &movers) {
                            return Err(out_of_range());
                        }
                        let rests = match self.may_rest_on_any(id, movers.as_slice()) {
                            Ok(b) => b,
                            Err(_) => true,
                        };
                        if rests {
                            candidates.push(id);
                        }
                    }
                }
                k += 1;
            }
            let mut k: usize = 0;
            while k < candidates.len()
                invariant
                    k <= candidates@.len(),
                    depth >= 1,
                    engine_ready(self.world_view(), self.campaign_of()),
                    self.campaign_of() == c,
                    c == old(self).campaign_of(),
                    v0 == old(self).world_view(),
                    self.game_view() == old(self).game_view(),
                    same_frame(v0, self.world_view()),
                    self.world_view().backups == v0.backups,
                decreases candidates@.len() - k,
            {
                if self.world.movement(candidates[k]).is_none() {
                    if self.apply_passive_force(candidates[k], depth - 1)? {
                        self.calculate_torsions(apply_torque)?;
                        changed = true;
                    }
                }
                k += 1;
            }
        }
        Ok(())
    }

    /// Passes the force of the moving entities that bear entity `id` on to
    /// it, when the sideways movers among its supports agree on a force:
    /// with a twist, it is first tried a step faster and kept so only while
    /// all its supports move alike. When only some supports move, the world
    /// is backed up and given back unless the push went through and the
    /// supports then move alike; the push is given back too when it leaves
    /// a moving island on supports that do not move alike. Whether `id`
    /// moved; every backup taken on the way is given back.
    #[verifier::rlimit(100)]
    #[verifier::spinoff_prover]
    pub fn apply_passive_force(&mut self, id: i32, depth: usize) -> (r: Result<bool, String>)
        requires
            engine_ready(old(self).world_view(), old(self).campaign_of()),
        ensures
            engine_ready(final(self).world_view(), final(self).campaign_of()),
            final(self).campaign_of() == old(self).campaign_of(),
            final(self).game_view() == old(self).game_view(),
            same_frame(old(self).world_view(), final(self).world_view()),
            r is Ok ==> final(self).world_view().backups == old(self).world_view().backups,
        decreases depth, 0usize,
    {
        let ghost v0 = self.world_view();
        let ghost c = self.campaign_of();
        if depth == 0 {
            return Err(too_deep());
        }
        if !self.supports_fit(id) {
            return Err(out_of_range());
        }
        let supports = self.footprint_entities(id)?;
        if supports.len() == 0 {
            return Ok(false);
        }
        let mut moving: Vec<i32> = Vec::new();
        let mut sideways = false;
        let mut k: usize = 0;
        while k < supports.len()
            invariant
                k <= supports@.len(),
            decreases supports@.len() - k,
        {
            if let Some(m) = self.world.movement(supports[k]) {
                moving.push(supports[k]);
                if horizontal_translation(m) {
                    sideways = true;
                }
            }
            k += 1;
        }
        if moving.len() == 0 || !sideways {
            return Ok(false);
        }
        let mixed = moving.len() != supports.len();
        if !mixed && !self.consistent_footprint(supports.as_slice()) {
            return Ok(false);
        }
        if mixed {
            self.world.backup();
            proof {
                lemma_backup_ready(v0, self.world_view(), c);
            }
        }
        let ghost vb = self.world_view();
        let twist = twist_depth(self.world.entity_list().len());
        let ghost before = self.world_view();
        let first = self.extract_passive_force(moving[0], twist);
        proof {
            lemma_twists_keep_wf(before, self.world_view());
            lemma_ready_kept(before, self.world_view(), c);
        }
        let mut force = first?;
        let mut k: usize = 1;
        while k < moving.len()
            invariant
                1 <= k <= moving@.len(),
                engine_ready(self.world_view(), self.campaign_of()),
                self.campaign_of() == c,
                c == old(self).campaign_of(),
                v0 == old(self).world_view(),
                self.game_view() == old(self).game_view(),
                same_frame(v0, self.world_view()),
                self.world_view().backups == vb.backups,
            decreases moving@.len() - k,
        {
            let ghost before = self.world_view();
            let next = self.extract_passive_force(moving[k], twist);
            proof {
                lemma_twists_keep_wf(before, self.world_view());
                lemma_ready_kept(before, self.world_view(), c);
            }
            force = merge_forces(force, next?);
            k += 1;
        }
        if force.direction == Direction::NoDirection {
            if mixed {
                let ghost before = self.world_view();
                self.world.discard_backup()?;
                proof {
                    lemma_discard_ready(before, self.world_view(), c);
                    assert(vb.backups.drop_last() =~= v0.backups);
                }
            }
            return Ok(false);
        }
        let entity_direction = match self.world.entity(id) {
            Some(e) => e.direction,
            None => {
                return Err(vanished("passive target ", id));
            },
        };
        let extended = self.is_extended(id)?;
        let mut moved = false;
        if (extended && force.direction.normal_to(entity_direction)) || force.torsion == 0 {
            moved = self.try_push(id, force.direction, force.speed, false, depth - 1)?;
        } else if force.torsion != -1 {
            if force.speed == i32::MAX {
                return Err(out_of_range());
            }
            let fast = self.try_push(id, force.direction, force.speed + 1, true, depth - 1)?;
            if fast && self.consistent_footprint(supports.as_slice()) {
                moved = true;
            } else {
                if fast && mixed {
                    let ghost before = self.world_view();
                    self.world.restore()?;
                    proof {
                        lemma_restore_ready(before, self.world_view(), c);
                    }
                    let ghost before = self.world_view();
                    self.world.backup();
                    proof {
                        lemma_backup_ready(before, self.world_view(), c);
                        assert(vb.backups.drop_last() =~= v0.backups);
                        assert(self.world_view().backups.drop_last() =~= v0.backups);
                    }
                }
                moved = self.try_push(id, force.direction, force.speed, true, depth - 1)?;
            }
        }
        assert(mixed ==> self.world_view().backups.drop_last() =~= v0.backups && self.world_view().backups.len() > 0);
        assert(!mixed ==> self.world_view().backups == v0.backups);
        if moved {
            let ids = self.world.dynamic_entity_ids();
            let mut k: usize = 0;
            while k < ids.len()
                invariant
                    k <= ids@.len(),
                    engine_ready(self.world_view(), self.campaign_of()),
                    self.campaign_of() == c,
                    c == old(self).campaign_of(),
                    v0 == old(self).world_view(),
                    self.game_view() == old(self).game_view(),
                    same_frame(v0, self.world_view()),
                    mixed ==> self.world_view().backups.drop_last() =~= v0.backups && self.world_view().backups.len() > 0,
                    !mixed ==> self.world_view().backups == v0.backups,
                decreases ids@.len() - k,
            {
                let island_moving = match self.world.entity(ids[k]) {
                    Some(e) => e.entity_type == EntityType::Island && match self.world.movement(ids[k]) {
                        Some(m) => m.kind != MovementKind::NoMovement,
                        None => false,
                    },
                    None => false,
                };
                if island_moving {
                    if !self.supports_fit(ids[k]) {
                        return Err(out_of_range());
                    }
                    let footing = self.footprint_entities(ids[k])?;
                    if !self.consistent_footprint(footing.as_slice()) {
                        if mixed {
                            let ghost before = self.world_view();
                            self.world.restore()?;
                            proof {
                                lemma_restore_ready(before, self.world_view(), c);
                            }
                        }
                        return Ok(false);
                    }
                }
                k += 1;
            }
        }
        if mixed {
            let ghost before = self.world_view();
            if moved && self.consistent_footprint(supports.as_slice()) {
                self.world.discard_backup()?;
                proof {
                    lemma_discard_ready(before, self.world_view(), c);
                }
            } else {
                self.world.restore()?;
                proof {
                    lemma_restore_ready(before, self.world_view(), c);
                }
                return Ok(false);
            }
        }
        Ok(moved)
    }
}

/// A counted sausage with any of its four faces raw (0) or burnt (3) keeps
/// the puzzle from being won, whichever side that face is: the faces are the
/// four 2-bit digits of its cook data, lowest first.
pub proof fn law_every_face_must_be_cooked(es: Seq<Entity>, i: int, k: nat)
    requires
        0 <= i < es.len(),
        counted_sausage(es[i]),
        es[i].cook_data >= 0,
        k < 4,
        ({
            let digit = (es[i].cook_data as int / if k == 0 {
                1int
            } else if k == 1 {
                4int
            } else if k == 2 {
                16int
            } else {
                64int
            }) % 4;
            digit == 0 || digit == 3
        }),
    ensures
        !won_spec(es),
{
    let cook = es[i].cook_data;
    assert(cook as int / 1 == cook);
    assert(face(cook as int, k) == 0 || face(cook as int, k) == 3);
    assert(!perfectly_cooked(cook));
}

/// A puzzle with at least one counted sausage is won when every counted
/// sausage is above the water (height -3 or more) and each of its four
/// faces, the 2-bit digits of its cook data, is cooked once (1 or 2).
pub proof fn law_cooked_sausages_win(es: Seq<Entity>, j: int)
    requires
        0 <= j < es.len(),
        counted_sausage(es[j]),
        forall|i: int|
            0 <= i < es.len() && counted_sausage(#[trigger] es[i]) ==> {
                let d = es[i].cook_data as int;
                &&& es[i].pos.z >= -3
                &&& d >= 0
                &&& (d % 4 == 1 || d % 4 == 2)
                &&& ((d / 4) % 4 == 1 || (d / 4) % 4 == 2)
                &&& ((d / 16) % 4 == 1 || (d / 16) % 4 == 2)
                &&& ((d / 64) % 4 == 1 || (d / 64) % 4 == 2)
            },
    ensures
        won_spec(es),
{
    assert forall|i: int| 0 <= i < es.len() && counted_sausage(#[trigger] es[i]) implies es[i].pos.z >= -3
        && perfectly_cooked(es[i].cook_data) by {
        let cook = es[i].cook_data;
        assert forall|k: nat| k < 4 implies face(cook as int, k) != 0 && face(cook as int, k) != 3 by {}
    }
}

} // verus!
