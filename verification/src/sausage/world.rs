//! The shared three-dimensional world of the general engine: every entity
//! of the state it was built from, the movements in progress, and a stack of
//! backups. Island masks expand into their real voxels, and collisions are
//! judged with the timed occupancy model of [`crate::sausage::physics`].

use vstd::prelude::*;

use crate::sausage::campaign::{lookup, Campaign, IslandMask, ProjectionCompatibility};
use crate::sausage::model::{Entity, EntityType, GameState};
use crate::sausage::model::{
    face, ccw45_spec, coord_diff, coord_step, coord_sum, cw45_spec, delta_spec, diff_fits, footprint_spec,
    inverse_spec, is_diagonal_spec, is_extended_spec, is_static_spec, left_of_spec, parallel_spec,
    step_fits, sum_fits, Coord, Direction,
};
use crate::sausage::physics::{
    Animation, ticks, claim, claims_ok, claims_spec, compatible_ok, compatible_spec, duration_spec, frac_lt, occupancy_for,
    position_ok, position_spec, resolved, speed_ok, still_claim, within, zero_frac, Fraction, Movement,
    MovementKind, Occupancy, sub_ok, sub_spec, same_value,
};
use crate::text::{append_int, int_text};

verus! {

/// Entities, movements and the detached fork as a backup keeps them.
struct WorldSnapshot {
    entities: Vec<Entity>,
    movements: Vec<Movement>,
    fork_id: Option<i32>,
}

/// The abstract state of a world.
pub struct WorldView {
    pub entities: Seq<Entity>,
    pub movements: Seq<Movement>,
    pub player_id: i32,
    pub fork_id: Option<i32>,
    pub tile_set: i32,
    pub backups: Seq<(Seq<Entity>, Seq<Movement>, Option<i32>)>,
}

/// Authoritative mutable state shared by the general rules.
pub struct PhysicsWorld<'a> {
    pub campaign: &'a Campaign,
    pub entities: Vec<Entity>,
    movements: Vec<Movement>,
    player_id: i32,
    fork_id: Option<i32>,
    tile_set: i32,
    backups: Vec<WorldSnapshot>,
}

/// No two entities share an id.
pub open spec fn unique_ids(es: Seq<Entity>) -> bool {
    forall|i: int, j: int| 0 <= i < j < es.len() ==> (#[trigger] es[i]).id != (#[trigger] es[j]).id
}

/// Some entity has this id.
pub open spec fn has_entity(es: Seq<Entity>, id: i32) -> bool {
    exists|i: int| 0 <= i < es.len() && (#[trigger] es[i]).id == id
}

/// No two movements share a target.
pub open spec fn unique_targets(ms: Seq<Movement>) -> bool {
    forall|i: int, j: int| 0 <= i < j < ms.len() ==> (#[trigger] ms[i]).target_id != (#[trigger] ms[j]).target_id
}

/// Some movement targets this id.
pub open spec fn has_movement(ms: Seq<Movement>, id: i32) -> bool {
    exists|i: int| 0 <= i < ms.len() && (#[trigger] ms[i]).target_id == id
}

/// The invariant of a world: ids are unique, at most one movement per
/// entity, movements and the detached fork refer to present entities.
pub open spec fn world_wf(v: WorldView) -> bool {
    &&& unique_ids(v.entities)
    &&& unique_targets(v.movements)
    &&& forall|i: int| 0 <= i < v.movements.len() ==> has_entity(v.entities, (#[trigger] v.movements[i]).target_id)
    &&& v.fork_id matches Some(f) ==> has_entity(v.entities, f)
}

/// The index of the first entity that repeats an earlier entity's id.
pub open spec fn first_duplicate(es: Seq<Entity>) -> Option<int>
    decreases es.len(),
{
    if es.len() == 0 {
        None
    } else {
        match first_duplicate(es.drop_last()) {
            Some(k) => Some(k),
            None => if has_entity(es.drop_last(), es.last().id) {
                Some(es.len() - 1)
            } else {
                None
            },
        }
    }
}

proof fn lemma_no_duplicate_unique(es: Seq<Entity>)
    requires
        first_duplicate(es) is None,
    ensures
        unique_ids(es),
    decreases es.len(),
{
    if es.len() > 0 {
        lemma_no_duplicate_unique(es.drop_last());
        assert forall|i: int, j: int| 0 <= i < j < es.len() implies (#[trigger] es[i]).id != (#[trigger] es[j]).id by {
            if j == es.len() - 1 {
                assert(es.drop_last()[i] == es[i]);
            } else {
                assert(es.drop_last()[i] == es[i]);
                assert(es.drop_last()[j] == es[j]);
            }
        }
    }
}

/// The largest id, or zero when there are no entities.
pub open spec fn max_id(es: Seq<Entity>) -> int
    decreases es.len(),
{
    if es.len() == 0 {
        0
    } else if es.len() == 1 {
        es[0].id as int
    } else {
        let rest = max_id(es.drop_last());
        if es.last().id > rest {
            es.last().id as int
        } else {
            rest
        }
    }
}

/// A copy of the entities, field for field.
fn copy_entities(v: &Vec<Entity>) -> (r: Vec<Entity>)
    ensures
        r@ == v@,
{
    let mut out: Vec<Entity> = Vec::new();
    let mut i: usize = 0;
    while i < v.len()
        invariant
            i <= v@.len(),
            out@ == v@.take(i as int),
        decreases v@.len() - i,
    {
        out.push(v[i].duplicate());
        assert(out@ =~= v@.take(i + 1));
        i += 1;
    }
    assert(v@.take(i as int) =~= v@);
    out
}

/// A copy of the movements.
fn copy_movements(v: &Vec<Movement>) -> (r: Vec<Movement>)
    ensures
        r@ == v@,
{
    let mut out: Vec<Movement> = Vec::new();
    let mut i: usize = 0;
    while i < v.len()
        invariant
            i <= v@.len(),
            out@ == v@.take(i as int),
        decreases v@.len() - i,
    {
        out.push(v[i]);
        assert(out@ =~= v@.take(i + 1));
        i += 1;
    }
    assert(v@.take(i as int) =~= v@);
    out
}

/// The index of the entity with this id.
pub(crate) fn entity_index(es: &Vec<Entity>, id: i32) -> (r: Option<usize>)
    ensures
        match r {
            Some(i) => i < es@.len() && es@[i as int].id == id && forall|j: int| 0 <= j < i ==> es@[j].id != id,
            None => !has_entity(es@, id),
        },
        match r {
            Some(i) => entity_index_of(es@, id) == Some(i as int),
            None => entity_index_of(es@, id) is None,
        },
{
    proof {
        lemma_entity_index_of(es@, id);
    }
    let mut i: usize = 0;
    while i < es.len()
        invariant
            i <= es@.len(),
            forall|j: int| 0 <= j < i ==> es@[j].id != id,
        decreases es@.len() - i,
    {
        if es[i].id == id {
            proof {
                lemma_entity_index_of(es@, id);
                if let Some(i2) = entity_index_of(es@, id) {
                    if i2 < i {
                        assert(es@[i2].id != id);
                    } else if i2 > i {
                        assert(es@[i as int].id != id);
                    }
                } else {
                    assert(has_entity(es@, id));
                }
            }
            return Some(i);
        }
        i += 1;
    }
    None
}

/// The index of the movement of this entity.
fn movement_index(ms: &Vec<Movement>, id: i32) -> (r: Option<usize>)
    ensures
        match r {
            Some(i) => i < ms@.len() && ms@[i as int].target_id == id && forall|j: int| 0 <= j < i ==> ms@[j].target_id != id,
            None => !has_movement(ms@, id),
        },
        match r {
            Some(i) => movement_index_of(ms@, id) == Some(i as int),
            None => movement_index_of(ms@, id) is None,
        },
{
    proof {
        lemma_movement_index_of(ms@, id);
    }
    let mut i: usize = 0;
    while i < ms.len()
        invariant
            i <= ms@.len(),
            forall|j: int| 0 <= j < i ==> ms@[j].target_id != id,
        decreases ms@.len() - i,
    {
        if ms[i].target_id == id {
            proof {
                lemma_movement_index_of(ms@, id);
                if let Some(i2) = movement_index_of(ms@, id) {
                    if i2 < i {
                        assert(ms@[i2].target_id != id);
                    } else if i2 > i {
                        assert(ms@[i as int].target_id != id);
                    }
                } else {
                    assert(has_movement(ms@, id));
                }
            }
            return Some(i);
        }
        i += 1;
    }
    None
}

/// A state makes a world when it has a player and no repeated id.
pub open spec fn from_state_ok(state: GameState) -> bool {
    first_index_of(state.entities@, EntityType::Player) is Some && first_duplicate(state.entities@) is None
}

/// The world of a state: its entities, no movements or backups, the first
/// player and the first detached fork.
pub open spec fn initial_view(state: GameState) -> WorldView {
    WorldView {
        entities: state.entities@,
        movements: Seq::empty(),
        player_id: state.entities@[first_index_of(state.entities@, EntityType::Player)->0].id,
        fork_id: match first_index_of(state.entities@, EntityType::Fork) {
            Some(f) => Some(state.entities@[f].id),
            None => None,
        },
        tile_set: state.tile_set,
        backups: Seq::empty(),
    }
}

/// Why a state makes no world.
pub open spec fn from_state_error(state: GameState) -> Seq<char> {
    match first_index_of(state.entities@, EntityType::Player) {
        None => "state has no player"@,
        Some(_) => "state contains duplicate entity id "@ + int_text(
            state.entities@[first_duplicate(state.entities@)->0].id as int,
        ),
    }
}

/// Taking a backup pushes the current entities, movements and fork.
pub open spec fn backup_step(before: WorldView, after: WorldView) -> bool {
    after == WorldView {
        backups: before.backups.push((before.entities, before.movements, before.fork_id)),
        ..before
    }
}

/// Restoring pops the last backup and makes it current.
pub open spec fn restore_step(before: WorldView, after: WorldView) -> bool {
    before.backups.len() > 0 && after == WorldView {
        entities: before.backups.last().0,
        movements: before.backups.last().1,
        fork_id: before.backups.last().2,
        backups: before.backups.drop_last(),
        ..before
    }
}

/// `after` is `before` with entity `i` cooked to `cook` and `data`.
pub open spec fn cooked_in(before: WorldView, after: WorldView, i: int, cook: int, data: Seq<char>) -> bool {
    &&& 0 <= i < before.entities.len()
    &&& after.entities.len() == before.entities.len()
    &&& forall|j: int| 0 <= j < before.entities.len() && j != i ==> after.entities[j] == before.entities[j]
    &&& {
        let (a, b) = (after.entities[i], before.entities[i]);
        &&& a.cook_data == cook
        &&& a.data@ == data
        &&& a.pos == b.pos && a.entity_type == b.entity_type && a.id == b.id && a.direction == b.direction
        &&& a.stuck_to == b.stuck_to && a.rotation == b.rotation && a.turn_direction == b.turn_direction
        &&& a.tile_number == b.tile_number && a.tile_set == b.tile_set && a.pivot == b.pivot
    }
    &&& after.movements == before.movements
    &&& after.player_id == before.player_id
    &&& after.fork_id == before.fork_id
    &&& after.tile_set == before.tile_set
    &&& after.backups == before.backups
}

impl<'a> PhysicsWorld<'a> {
    pub closed spec fn view(&self) -> WorldView {
        WorldView {
            entities: self.entities@,
            movements: self.movements@,
            player_id: self.player_id,
            fork_id: self.fork_id,
            tile_set: self.tile_set,
            backups: self.backups@.map_values(|b: WorldSnapshot| (b.entities@, b.movements@, b.fork_id)),
        }
    }

    /// The campaign the world draws its island masks from.
    pub closed spec fn campaign_of(&self) -> Campaign {
        *self.campaign
    }

    pub open spec fn wf(&self) -> bool {
        world_wf(self.view())
    }

    /// The world of a parsed state: its entities, no movements, and the
    /// player and detached fork it holds.
    pub fn from_state(campaign: &'a Campaign, state: &GameState) -> (r: Result<PhysicsWorld<'a>, String>)
        ensures
            match r {
                Ok(w) => from_state_ok(*state) && w.wf() && w.view() == initial_view(*state) && w.campaign_of() == *campaign,
                Err(message) => !from_state_ok(*state) && message@ == from_state_error(*state),
            },
    {
        let player_index = match first_index_of_type(&state.entities, EntityType::Player) {
            Some(p) => p,
            None => {
                return Err(String::from_str("state has no player"));
            },
        };
        let player_id = state.entities[player_index].id;
        let fork_index = first_index_of_type(&state.entities, EntityType::Fork);
        let fork_id = match fork_index {
            Some(f) => Some(state.entities[f].id),
            None => None,
        };
        match duplicate_index(&state.entities) {
            Some(k) => {
                let mut message = String::from_str("state contains duplicate entity id ");
                append_int(&mut message, state.entities[k].id as i64);
                return Err(message);
            },
            None => {},
        }
        proof {
            lemma_no_duplicate_unique(state.entities@);
        }
        let entities = copy_entities(&state.entities);
        let w = PhysicsWorld {
            campaign,
            entities,
            movements: Vec::new(),
            player_id,
            fork_id,
            tile_set: state.tile_set,
            backups: Vec::new(),
        };
        proof {
            assert(w.view().movements =~= Seq::<Movement>::empty());
            assert(unique_ids(w.view().entities));
            assert(unique_targets(w.view().movements));
            assert(forall|i: int| 0 <= i < w.view().movements.len() ==> has_entity(w.view().entities, (#[trigger] w.view().movements[i]).target_id));
            if let Some(f) = fork_index {
                assert(state.entities@[f as int].id == fork_id->0);
                assert(w.view().entities[f as int].id == fork_id->0);
                assert(has_entity(w.view().entities, fork_id->0));
            }
            assert(w.view().fork_id matches Some(f) ==> has_entity(w.view().entities, f));
            assert(world_wf(w.view()));
            assert(w.backups@.len() == 0);
            assert(w.view().backups.len() == 0);
            assert(w.view().backups =~= initial_view(*state).backups);
            assert(w.view().entities == initial_view(*state).entities);
            assert(w.view().player_id == initial_view(*state).player_id);
            assert(w.view().fork_id == initial_view(*state).fork_id);
        }
        Ok(w)
    }

    /// The world's entities, in their order.
    pub fn entity_list(&self) -> (r: &Vec<Entity>)
        ensures
            r@ == self.view().entities,
    {
        &self.entities
    }

    pub fn player_id(&self) -> (r: i32)
        ensures
            r == self.view().player_id,
    {
        self.player_id
    }

    pub fn fork_id(&self) -> (r: Option<i32>)
        ensures
            r == self.view().fork_id,
    {
        self.fork_id
    }

    /// The player holds the fork exactly when no fork is detached.
    pub fn player_has_fork(&self) -> (r: bool)
        ensures
            r == (self.view().fork_id is None),
    {
        self.fork_id.is_none()
    }

    /// The entity with this id.
    pub fn entity(&self, id: i32) -> (r: Option<&Entity>)
        ensures
            match r {
                Some(e) => entity_of(self.view(), id) == Some(*e) && e.id == id,
                None => entity_of(self.view(), id) is None && !has_entity(self.view().entities, id),
            },
    {
        match entity_index(&self.entities, id) {
            Some(i) => {
                assert(self.view().entities[i as int] == self.entities@[i as int]);
                Some(&self.entities[i])
            },
            None => None,
        }
    }

    /// The movement of this entity, if it is moving.
    pub fn movement(&self, id: i32) -> (r: Option<Movement>)
        ensures
            match r {
                Some(m) => exists|i: int| 0 <= i < self.view().movements.len() && self.view().movements[i] == m && m.target_id == id,
                None => !has_movement(self.view().movements, id),
            },
    {
        match movement_index(&self.movements, id) {
            Some(i) => {
                assert(self.view().movements[i as int] == self.movements@[i as int]);
                Some(self.movements[i])
            },
            None => None,
        }
    }

    /// Whether every movement's position can be computed; see
    /// [`motions_ok`].
    pub fn motions_fit(&self) -> (r: bool)
        ensures
            r == motions_ok(self.view()),
    {
        let mut i: usize = 0;
        while i < self.movements.len()
            invariant
                i <= self.movements@.len(),
                self.view().movements == self.movements@,
                forall|k: int|
                    0 <= k < i ==> position_ok(#[trigger] self.movements@[k]) && (self.movements@[k].kind
                        == MovementKind::Pivot ==> self.movements@[k].speed < i32::MAX),
            decreases self.movements@.len() - i,
        {
            if !crate::sausage::physics::motion_fits(self.movements[i]) {
                return false;
            }
            i += 1;
        }
        true
    }

    /// Whether asking if entity `id` is at `pos` stays in range; see
    /// [`at_ok`].
    pub fn at_fits(&self, id: i32, pos: Coord, instant: bool) -> (r: bool)
        requires
            self.wf(),
        ensures
            r == at_ok(self.view(), id, pos, instant),
    {
        if !small_fits(pos) {
            return false;
        }
        match self.movement(id) {
            None => {
                proof {
                    lemma_movement_of_none(self.view(), id);
                }
                true
            },
            Some(m) => {
                proof {
                    lemma_movement_of_found(self.view(), m, id);
                }
                if !instant {
                    return true;
                }
                if m.speed < 1 || m.speed > 32 {
                    return false;
                }
                let t = crate::sausage::physics::tick_count(m.speed);
                let scaled = crate::sausage::physics::wide_product(m.remaining.numerator, t as i64);
                i64::MIN as i128 <= scaled && scaled <= i64::MAX as i128
            },
        }
    }

    /// Some entity is moving.
    pub fn moving(&self) -> (r: bool)
        ensures
            r == (self.view().movements.len() > 0),
    {
        self.movements.len() > 0
    }

    /// Starts a movement of an entity that is present and not moving yet.
    pub fn set_movement(&mut self, movement: Movement) -> (r: Result<(), String>)
        requires
            old(self).wf(),
        ensures
            final(self).wf(),
            !has_entity(old(self).view().entities, movement.target_id) ==> final(self).view() == old(self).view() && r is Err
                && r->Err_0@ == "movement targets unknown entity "@ + int_text(movement.target_id as int),
            has_entity(old(self).view().entities, movement.target_id) && has_movement(old(self).view().movements, movement.target_id)
                ==> final(self).view() == old(self).view() && r is Err
                && r->Err_0@ == "entity "@ + int_text(movement.target_id as int) + " is already moving"@,
            has_entity(old(self).view().entities, movement.target_id) && !has_movement(old(self).view().movements, movement.target_id)
                ==> r is Ok && final(self).view() == (WorldView { movements: old(self).view().movements.push(movement), ..old(self).view() }),
            final(self).campaign_of() == old(self).campaign_of(),
    {
        if entity_index(&self.entities, movement.target_id).is_none() {
            let mut message = String::from_str("movement targets unknown entity ");
            append_int(&mut message, movement.target_id as i64);
            return Err(message);
        }
        if movement_index(&self.movements, movement.target_id).is_some() {
            let mut message = String::from_str("entity ");
            append_int(&mut message, movement.target_id as i64);
            message.append(" is already moving");
            return Err(message);
        }
        self.movements.push(movement);
        proof {
            let ms = self.movements@;
            assert forall|i: int, j: int| 0 <= i < j < ms.len() implies (#[trigger] ms[i]).target_id != (#[trigger] ms[j]).target_id by {
                if j == ms.len() - 1 {
                    assert(old(self).movements@[i] == ms[i]);
                }
            }
            assert forall|i: int| 0 <= i < ms.len() implies has_entity(self.entities@, (#[trigger] ms[i]).target_id) by {
                if i < ms.len() - 1 {
                    assert(old(self).movements@[i] == ms[i]);
                }
            }
        }
        Ok(())
    }

    /// Stops the movement of an entity, handing it back.
    pub fn clear_movement(&mut self, id: i32) -> (r: Option<Movement>)
        requires
            old(self).wf(),
        ensures
            final(self).wf(),
            final(self).campaign_of() == old(self).campaign_of(),
            match r {
                Some(m) => exists|i: int|
                    0 <= i < old(self).view().movements.len() && old(self).view().movements[i] == m && m.target_id == id
                        && final(self).view() == (WorldView { movements: old(self).view().movements.remove(i), ..old(self).view() }),
                None => !has_movement(old(self).view().movements, id) && final(self).view() == old(self).view(),
            },
    {
        match movement_index(&self.movements, id) {
            Some(i) => {
                let m = self.movements.remove(i);
                proof {
                    let ms = self.movements@;
                    let olds = old(self).movements@;
                    assert(ms =~= olds.remove(i as int));
                    assert forall|a: int, b: int| 0 <= a < b < ms.len() implies (#[trigger] ms[a]).target_id != (#[trigger] ms[b]).target_id by {
                        let oa = if a < i { a } else { a + 1 };
                        let ob = if b < i { b } else { b + 1 };
                        assert(ms[a] == olds[oa]);
                        assert(ms[b] == olds[ob]);
                    }
                    assert forall|a: int| 0 <= a < ms.len() implies has_entity(self.entities@, (#[trigger] ms[a]).target_id) by {
                        let oa = if a < i { a } else { a + 1 };
                        assert(ms[a] == olds[oa]);
                    }
                }
                Some(m)
            },
            None => None,
        }
    }

    /// Sets how an entity is cooked: its cook data and its data; nothing
    /// else changes. An unknown id changes nothing.
    pub fn set_cooking(&mut self, id: i32, cook_data: i32, data: String)
        ensures
            final(self).campaign_of() == old(self).campaign_of(),
            match entity_index_of(old(self).view().entities, id) {
                Some(i) => cooked_in(old(self).view(), final(self).view(), i, cook_data as int, data@),
                None => final(self).view() == old(self).view(),
            },
            old(self).wf() ==> final(self).wf(),
            world_small(old(self).view(), old(self).campaign_of()) ==> world_small(final(self).view(), final(self).campaign_of()),
    {
        match entity_index(&self.entities, id) {
            Some(i) => {
                let mut e = self.entities[i].duplicate();
                e.cook_data = cook_data;
                e.data = data;
                let ghost before = self.entities@;
                self.entities.set(i, e);
                proof {
                    let es = self.entities@;
                    assert forall|a: int| 0 <= a < es.len() implies (#[trigger] es[a]).id == before[a].id && es[a].pos
                        == before[a].pos by {}
                    assert forall|k: int| 0 <= k < es.len() implies has_entity(es, (#[trigger] before[k]).id) by {
                        assert(es[k].id == before[k].id);
                    }
                    assert forall|f: i32| has_entity(before, f) implies has_entity(es, f) by {
                        let k = choose|k: int| 0 <= k < before.len() && before[k].id == f;
                        assert(es[k].id == f);
                    }
                }
            },
            None => {},
        }
    }

    /// Puts `e` in place of the entity with its id, as an edit through
    /// `entity_mut` does; whether there was one. An unknown id changes
    /// nothing.
    pub fn replace_entity(&mut self, e: Entity) -> (found: bool)
        ensures
            final(self).campaign_of() == old(self).campaign_of(),
            match entity_index_of(old(self).view().entities, e.id) {
                Some(i) => found && final(self).view() == (WorldView {
                    entities: old(self).view().entities.update(i, e),
                    ..old(self).view()
                }),
                None => !found && final(self).view() == old(self).view(),
            },
            old(self).wf() ==> final(self).wf(),
            world_small(old(self).view(), old(self).campaign_of()) && small(e.pos) ==> world_small(
                final(self).view(),
                final(self).campaign_of(),
            ),
    {
        match entity_index(&self.entities, e.id) {
            Some(i) => {
                let ghost before = self.entities@;
                proof {
                    lemma_entity_index_of(before, e.id);
                }
                self.entities.set(i, e);
                proof {
                    let es = self.entities@;
                    assert forall|a: int| 0 <= a < es.len() implies (#[trigger] es[a]).id == before[a].id by {}
                    assert forall|f: i32| has_entity(before, f) implies has_entity(es, f) by {
                        let k = choose|k: int| 0 <= k < before.len() && before[k].id == f;
                        assert(es[k].id == f);
                    }
                    assert(self.view().entities =~= before.update(i as int, e));
                }
                true
            },
            None => false,
        }
    }

    /// Puts `m` in place of the movement of its target, as an edit through
    /// `movement_mut` does; whether there was one. A target that is not
    /// moving changes nothing.
    pub fn replace_movement(&mut self, m: Movement) -> (found: bool)
        ensures
            final(self).campaign_of() == old(self).campaign_of(),
            match movement_index_of(old(self).view().movements, m.target_id) {
                Some(i) => found && final(self).view() == (WorldView {
                    movements: old(self).view().movements.update(i, m),
                    ..old(self).view()
                }),
                None => !found && final(self).view() == old(self).view(),
            },
            old(self).wf() ==> final(self).wf(),
    {
        match movement_index(&self.movements, m.target_id) {
            Some(i) => {
                let ghost before = self.movements@;
                self.movements.set(i, m);
                proof {
                    let ms = self.movements@;
                    assert forall|a: int| 0 <= a < ms.len() implies (#[trigger] ms[a]).target_id == before[a].target_id by {}
                    assert(self.view().movements =~= before.update(i as int, m));
                }
                true
            },
            None => false,
        }
    }

    /// Pushes a copy of the entities, movements and fork.
    pub fn backup(&mut self)
        requires
            old(self).wf(),
        ensures
            final(self).wf(),
            final(self).campaign_of() == old(self).campaign_of(),
            backup_step(old(self).view(), final(self).view()),
    {
        let snapshot = WorldSnapshot {
            entities: copy_entities(&self.entities),
            movements: copy_movements(&self.movements),
            fork_id: self.fork_id,
        };
        self.backups.push(snapshot);
        assert(self.view().backups =~= old(self).view().backups.push((old(self).entities@, old(self).movements@, old(self).fork_id)));
    }

    /// Returns to the last backup, dropping it.
    pub fn restore(&mut self) -> (r: Result<(), String>)
        requires
            old(self).wf(),
            forall|k: int| 0 <= k < old(self).view().backups.len() ==> world_wf(WorldView {
                entities: (#[trigger] old(self).view().backups[k]).0,
                movements: old(self).view().backups[k].1,
                fork_id: old(self).view().backups[k].2,
                ..old(self).view()
            }),
        ensures
            final(self).campaign_of() == old(self).campaign_of(),
            final(self).wf(),
            old(self).view().backups.len() == 0 ==> r is Err && r->Err_0@ == "world backup stack is empty"@ && final(self).view() == old(self).view(),
            old(self).view().backups.len() > 0 ==> r is Ok && restore_step(old(self).view(), final(self).view()),
    {
        match self.backups.pop() {
            Some(snapshot) => {
                proof {
                    let k = old(self).backups@.len() - 1;
                    assert(old(self).view().backups[k] == (snapshot.entities@, snapshot.movements@, snapshot.fork_id));
                }
                self.entities = snapshot.entities;
                self.movements = snapshot.movements;
                self.fork_id = snapshot.fork_id;
                assert(self.view().backups =~= old(self).view().backups.drop_last());
                Ok(())
            },
            None => Err(String::from_str("world backup stack is empty")),
        }
    }

    /// Drops the last backup.
    pub fn discard_backup(&mut self) -> (r: Result<(), String>)
        requires
            old(self).wf(),
        ensures
            final(self).campaign_of() == old(self).campaign_of(),
            final(self).wf(),
            old(self).view().backups.len() == 0 ==> r is Err && r->Err_0@ == "world backup stack is empty"@ && final(self).view() == old(self).view(),
            old(self).view().backups.len() > 0 ==> r is Ok && final(self).view() == (WorldView {
                backups: old(self).view().backups.drop_last(),
                ..old(self).view()
            }),
    {
        match self.backups.pop() {
            Some(_) => {
                assert(self.view().backups =~= old(self).view().backups.drop_last());
                Ok(())
            },
            None => Err(String::from_str("world backup stack is empty")),
        }
    }
}

/// The index of the first entity of type `t`.
pub open spec fn first_index_of(es: Seq<Entity>, t: EntityType) -> Option<int>
    decreases es.len(),
{
    if es.len() == 0 {
        None
    } else {
        match first_index_of(es.drop_last(), t) {
            Some(i) => Some(i),
            None => if es.last().entity_type == t {
                Some(es.len() - 1)
            } else {
                None
            },
        }
    }
}

proof fn lemma_first_index_prefix(es: Seq<Entity>, t: EntityType, k: int)
    requires
        0 <= k <= es.len(),
        forall|j: int| 0 <= j < k ==> es[j].entity_type != t,
    ensures
        first_index_of(es.take(k), t) is None,
    decreases k,
{
    if k > 0 {
        assert(es.take(k).drop_last() =~= es.take(k - 1));
        lemma_first_index_prefix(es, t, k - 1);
    }
}

proof fn lemma_first_index_extends(es: Seq<Entity>, t: EntityType, k: int)
    requires
        0 <= k <= es.len(),
        first_index_of(es.take(k), t) is Some,
    ensures
        first_index_of(es, t) == first_index_of(es.take(k), t),
    decreases es.len() - k,
{
    if k < es.len() {
        assert(es.take(k + 1).drop_last() =~= es.take(k));
        lemma_first_index_extends(es, t, k + 1);
    } else {
        assert(es.take(k) =~= es);
    }
}

pub(crate) fn first_index_of_type(es: &Vec<Entity>, t: EntityType) -> (r: Option<usize>)
    ensures
        match r {
            Some(i) => first_index_of(es@, t) == Some(i as int) && i < es@.len(),
            None => first_index_of(es@, t) is None,
        },
{
    let mut i: usize = 0;
    while i < es.len()
        invariant
            i <= es@.len(),
            forall|j: int| 0 <= j < i ==> es@[j].entity_type != t,
        decreases es@.len() - i,
    {
        if es[i].entity_type == t {
            proof {
                lemma_first_index_prefix(es@, t, i as int);
                assert(es@.take(i + 1).drop_last() =~= es@.take(i as int));
                lemma_first_index_extends(es@, t, i + 1);
            }
            return Some(i);
        }
        i += 1;
    }
    proof {
        lemma_first_index_prefix(es@, t, i as int);
        assert(es@.take(i as int) =~= es@);
    }
    None
}

/// The index of the first entity that repeats an earlier id.
fn duplicate_index(es: &Vec<Entity>) -> (r: Option<usize>)
    ensures
        match r {
            Some(k) => first_duplicate(es@) == Some(k as int) && k < es@.len(),
            None => first_duplicate(es@) is None,
        },
{
    let ghost s = es@;
    let mut i: usize = 0;
    while i < es.len()
        invariant
            s == es@,
            i <= s.len(),
            first_duplicate(s.take(i as int)) is None,
        decreases s.len() - i,
    {
        assert(s.take(i + 1).drop_last() =~= s.take(i as int));
        assert(s.take(i + 1).last() == s[i as int]);
        let id = es[i].id;
        let mut j: usize = 0;
        while j < i
            invariant
                s == es@,
                j <= i < s.len(),
                id == s[i as int].id,
                forall|k: int| 0 <= k < j ==> s[k].id != id,
                first_duplicate(s.take(i as int)) is None,
            decreases i - j,
        {
            if es[j].id == id {
                proof {
                    assert(s.take(i as int)[j as int].id == id);
                    assert(s.take(i + 1).drop_last() =~= s.take(i as int));
                    assert(s.take(i + 1).last() == s[i as int]);
                    assert(has_entity(s.take(i + 1).drop_last(), id));
                    assert(first_duplicate(s.take(i + 1)) == Some(i as int));
                    lemma_duplicate_persists(s, i + 1);
                }
                return Some(i);
            }
            j += 1;
        }
        assert(!has_entity(s.take(i as int), id)) by {
            if has_entity(s.take(i as int), id) {
                let k = choose|k: int| 0 <= k < i && (#[trigger] s.take(i as int)[k]).id == id;
                assert(s[k].id == id);
            }
        }
        i += 1;
    }
    assert(s.take(i as int) =~= s);
    None
}

proof fn lemma_duplicate_persists(es: Seq<Entity>, k: int)
    requires
        0 <= k <= es.len(),
        first_duplicate(es.take(k)) is Some,
    ensures
        first_duplicate(es) == first_duplicate(es.take(k)),
    decreases es.len() - k,
{
    if k < es.len() {
        assert(es.take(k + 1).drop_last() =~= es.take(k));
        lemma_duplicate_persists(es, k + 1);
    } else {
        assert(es.take(k) =~= es);
    }
}

/// Restoring after a backup returns the entities, movements and detached
/// fork to what they were when the backup was taken, whatever happened in
/// between, as long as the backup stack itself was left alone.
pub proof fn law_restore_returns_to_backup(start: WorldView, backed: WorldView, later: WorldView, restored: WorldView)
    requires
        backup_step(start, backed),
        later.backups == backed.backups,
        restore_step(later, restored),
    ensures
        restored.entities == start.entities,
        restored.movements == start.movements,
        restored.fork_id == start.fork_id,
        restored.backups == start.backups,
{
    assert(backed.backups.drop_last() =~= start.backups);
}


/// Whatever edits happen between a backup and a restore, as long as each
/// leaves the backup stack as it found it (every edit of the world does,
/// and so does a nested backup undone by its own restore or discard), the
/// restore brings back the entities, movements, detached fork and backup
/// stack of the moment of the backup.
pub proof fn law_restore_undoes_edits(start: WorldView, trace: Seq<WorldView>, restored: WorldView)
    requires
        trace.len() > 0,
        backup_step(start, trace[0]),
        forall|i: int| 0 <= i < trace.len() - 1 ==> (#[trigger] trace[i + 1]).backups == trace[i].backups,
        restore_step(trace.last(), restored),
    ensures
        restored.entities == start.entities,
        restored.movements == start.movements,
        restored.fork_id == start.fork_id,
        restored.backups == start.backups,
{
    lemma_stack_kept(trace, trace.len() - 1);
    law_restore_returns_to_backup(start, trace[0], trace.last(), restored);
}

proof fn lemma_stack_kept(trace: Seq<WorldView>, k: int)
    requires
        0 <= k < trace.len(),
        forall|i: int| 0 <= i < trace.len() - 1 ==> (#[trigger] trace[i + 1]).backups == trace[i].backups,
    ensures
        trace[k].backups == trace[0].backups,
    decreases k,
{
    if k > 0 {
        lemma_stack_kept(trace, k - 1);
        assert(trace[(k - 1) + 1].backups == trace[k - 1].backups);
    }
}

/// The index of the first entity with this id.
pub open spec fn entity_index_of(es: Seq<Entity>, id: i32) -> Option<int>
    decreases es.len(),
{
    if es.len() == 0 {
        None
    } else {
        match entity_index_of(es.drop_last(), id) {
            Some(i) => Some(i),
            None => if es.last().id == id {
                Some(es.len() - 1)
            } else {
                None
            },
        }
    }
}

/// The index of the first movement of this entity.
pub open spec fn movement_index_of(ms: Seq<Movement>, id: i32) -> Option<int>
    decreases ms.len(),
{
    if ms.len() == 0 {
        None
    } else {
        match movement_index_of(ms.drop_last(), id) {
            Some(i) => Some(i),
            None => if ms.last().target_id == id {
                Some(ms.len() - 1)
            } else {
                None
            },
        }
    }
}

/// In a well-formed world, the movement found for an entity is the one
/// [`movement_of`] names.
pub(crate) proof fn lemma_movement_of_found(v: WorldView, m: Movement, id: i32)
    requires
        world_wf(v),
        exists|i: int| 0 <= i < v.movements.len() && v.movements[i] == m && m.target_id == id,
    ensures
        movement_of(v, id) == Some(m),
{
    let i = choose|i: int| 0 <= i < v.movements.len() && v.movements[i] == m && m.target_id == id;
    lemma_movement_index_of(v.movements, id);
    match movement_index_of(v.movements, id) {
        Some(j) => {
            if j != i {
                if j < i {
                    assert(v.movements[j].target_id != v.movements[i].target_id);
                } else {
                    assert(v.movements[i].target_id != v.movements[j].target_id);
                }
            }
        },
        None => {
            assert(v.movements[i].target_id == id);
        },
    }
}

/// In a well-formed world, the movement of an entity is its only one: taking
/// it out leaves [`without_movement`].
pub(crate) proof fn lemma_without_found(v: WorldView, i: int, id: i32)
    requires
        world_wf(v),
        0 <= i < v.movements.len(),
        v.movements[i].target_id == id,
    ensures
        without_movement(v.movements, id) == v.movements.remove(i),
{
    lemma_movement_of_found(v, v.movements[i], id);
    lemma_movement_index_of(v.movements, id);
    let j = movement_index_of(v.movements, id)->0;
    if j != i {
        if j < i {
            assert(v.movements[j].target_id != v.movements[i].target_id);
        } else {
            assert(v.movements[i].target_id != v.movements[j].target_id);
        }
    }
}

/// Without a movement for an entity, [`without_movement`] changes nothing.
pub(crate) proof fn lemma_without_none(ms: Seq<Movement>, id: i32)
    requires
        !has_movement(ms, id),
    ensures
        without_movement(ms, id) == ms,
{
    lemma_movement_index_of(ms, id);
}

/// Without a movement for an entity, [`movement_of`] names none.
pub(crate) proof fn lemma_movement_of_none(v: WorldView, id: i32)
    requires
        !has_movement(v.movements, id),
    ensures
        movement_of(v, id) is None,
{
    lemma_movement_index_of(v.movements, id);
}

pub(crate) proof fn lemma_entity_index_of(es: Seq<Entity>, id: i32)
    ensures
        match entity_index_of(es, id) {
            Some(i) => 0 <= i < es.len() && es[i].id == id && forall|j: int| 0 <= j < i ==> es[j].id != id,
            None => !has_entity(es, id),
        },
    decreases es.len(),
{
    if es.len() > 0 {
        lemma_entity_index_of(es.drop_last(), id);
        if entity_index_of(es.drop_last(), id) is None {
            assert forall|j: int| 0 <= j < es.len() - 1 implies es[j].id != id by {
                assert(es.drop_last()[j] == es[j]);
            }
        } else {
            let i = entity_index_of(es.drop_last(), id)->0;
            assert(es.drop_last()[i] == es[i]);
            assert forall|j: int| 0 <= j < i implies es[j].id != id by {
                assert(es.drop_last()[j] == es[j]);
            }
        }
    }
}

pub(crate) proof fn lemma_movement_index_of(ms: Seq<Movement>, id: i32)
    ensures
        match movement_index_of(ms, id) {
            Some(i) => 0 <= i < ms.len() && ms[i].target_id == id && forall|j: int| 0 <= j < i ==> ms[j].target_id != id,
            None => !has_movement(ms, id),
        },
    decreases ms.len(),
{
    if ms.len() > 0 {
        lemma_movement_index_of(ms.drop_last(), id);
        if movement_index_of(ms.drop_last(), id) is None {
            assert forall|j: int| 0 <= j < ms.len() - 1 implies ms[j].target_id != id by {
                assert(ms.drop_last()[j] == ms[j]);
            }
        } else {
            let i = movement_index_of(ms.drop_last(), id)->0;
            assert(ms.drop_last()[i] == ms[i]);
            assert forall|j: int| 0 <= j < i implies ms[j].target_id != id by {
                assert(ms.drop_last()[j] == ms[j]);
            }
        }
    }
}

/// The ids of the entities that are not static, in entity order.
pub open spec fn dynamic_ids(es: Seq<Entity>) -> Seq<i32>
    decreases es.len(),
{
    if es.len() == 0 {
        Seq::empty()
    } else if !is_static_spec(es.last().entity_type) {
        dynamic_ids(es.drop_last()).push(es.last().id)
    } else {
        dynamic_ids(es.drop_last())
    }
}

/// The shortest remaining time, the first of equal ones; zero when nothing
/// moves.
pub open spec fn min_remaining(ms: Seq<Movement>) -> Fraction
    decreases ms.len(),
{
    if ms.len() == 0 {
        zero_frac()
    } else if ms.len() == 1 {
        ms[0].remaining
    } else {
        let rest = min_remaining(ms.drop_last());
        if frac_lt(ms.last().remaining, rest) {
            ms.last().remaining
        } else {
            rest
        }
    }
}

/// The movements once `elapsed` has passed.
pub open spec fn ticked_movements(ms: Seq<Movement>, elapsed: Fraction) -> Seq<Movement> {
    ms.map_values(|m: Movement| Movement { remaining: sub_spec(m.remaining, elapsed), ..m })
}

/// The ids whose movements have no time left, in movement order.
pub open spec fn done_ids(ms: Seq<Movement>) -> Seq<i32>
    decreases ms.len(),
{
    if ms.len() == 0 {
        Seq::empty()
    } else if ms.last().remaining.numerator == 0 {
        done_ids(ms.drop_last()).push(ms.last().target_id)
    } else {
        done_ids(ms.drop_last())
    }
}

/// `x` inserted before the first element it does not exceed.
pub open spec fn insert_sorted(s: Seq<i32>, x: i32) -> Seq<i32>
    decreases s.len(),
{
    if s.len() == 0 {
        seq![x]
    } else if x <= s[0] {
        seq![x] + s
    } else {
        seq![s[0]] + insert_sorted(s.drop_first(), x)
    }
}

/// The ids in ascending order.
pub open spec fn sort_ids(s: Seq<i32>) -> Seq<i32>
    decreases s.len(),
{
    if s.len() == 0 {
        Seq::empty()
    } else {
        insert_sorted(sort_ids(s.drop_last()), s.last())
    }
}

/// The player stands turned diagonally or is turning.
pub open spec fn player_turning(es: Seq<Entity>, ms: Seq<Movement>, player: i32) -> bool {
    (match entity_index_of(es, player) {
        Some(i) => is_diagonal_spec(es[i].direction),
        None => false,
    }) || (match movement_index_of(ms, player) {
        Some(j) => ms[j].kind == MovementKind::Rotation,
        None => false,
    })
}

/// The fork carried by a sausage that turned from `before` through `m`.
pub open spec fn carried_fork(fork: Entity, before: Entity, m: Movement) -> Entity {
    let direction = if left_of_spec(before.direction, m.to) {
        ccw45_spec(fork.direction)
    } else {
        cw45_spec(fork.direction)
    };
    let moved = if fork.pos != before.pos {
        coord_step(before.pos, m.to)
    } else {
        fork.pos
    };
    let pos = if m.kind == MovementKind::Pivot {
        coord_step(moved, m.direction)
    } else {
        moved
    };
    Entity { direction, pos, ..fork }
}

/// Entities, movements and finished ids while a tick resolves.
pub struct TickState {
    pub entities: Seq<Entity>,
    pub movements: Seq<Movement>,
    pub finished: Seq<i32>,
}

/// Whether a carried fork follows the sausage `before` through `m`.
pub open spec fn carries_fork(es: Seq<Entity>, before: Entity, m: Movement) -> bool {
    &&& before.entity_type == EntityType::Sausage
    &&& (m.kind == MovementKind::Rotation || m.kind == MovementKind::Pivot)
    &&& entity_index_of(es, before.stuck_to) matches Some(f) && es[f].entity_type == EntityType::Fork
}

/// Resolving the movement of `id` when its time is up: a wait restarts
/// while the player turns; otherwise the movement ends, takes effect on
/// its entity, and a sausage's fork turns along with it.
pub open spec fn resolve_due(st: TickState, id: i32, player: i32) -> TickState {
    match movement_index_of(st.movements, id) {
        None => st,
        Some(j) => {
            let m = st.movements[j];
            if m.kind == MovementKind::NoMovement && player_turning(st.entities, st.movements, player) {
                TickState {
                    movements: st.movements.update(j, Movement { remaining: duration_spec(m.speed as int), ..m }),
                    ..st
                }
            } else {
                match entity_index_of(st.entities, id) {
                    None => st,
                    Some(t) => {
                        let before = st.entities[t];
                        let es = st.entities.update(t, resolved(before, m));
                        let carried = if carries_fork(es, before, m) {
                            let f = entity_index_of(es, before.stuck_to)->0;
                            es.update(f, carried_fork(es[f], before, m))
                        } else {
                            es
                        };
                        TickState { entities: carried, movements: st.movements.remove(j), finished: st.finished.push(id) }
                    },
                }
            }
        },
    }
}

/// What resolving `id` computes is free of overflow.
pub open spec fn resolve_due_ok(st: TickState, id: i32, player: i32) -> bool {
    match movement_index_of(st.movements, id) {
        None => true,
        Some(j) => {
            let m = st.movements[j];
            if m.kind == MovementKind::NoMovement && player_turning(st.entities, st.movements, player) {
                speed_ok(m.speed as int)
            } else {
                match entity_index_of(st.entities, id) {
                    None => true,
                    Some(t) => {
                        let before = st.entities[t];
                        let es = st.entities.update(t, resolved(before, m));
                        &&& (m.kind == MovementKind::Translation || m.kind == MovementKind::Pivot) ==> step_fits(before.pos, m.direction)
                        &&& carries_fork(es, before, m) ==> {
                            let fork = es[entity_index_of(es, before.stuck_to)->0];
                            &&& fork.pos != before.pos ==> step_fits(before.pos, m.to)
                            &&& m.kind == MovementKind::Pivot ==> step_fits(
                                if fork.pos != before.pos { coord_step(before.pos, m.to) } else { fork.pos },
                                m.direction,
                            )
                        }
                    },
                }
            }
        },
    }
}

/// Resolving the ids in order.
pub open spec fn resolve_all(st: TickState, due: Seq<i32>, player: i32) -> TickState
    decreases due.len(),
{
    if due.len() == 0 {
        st
    } else {
        resolve_due(resolve_all(st, due.drop_last(), player), due.last(), player)
    }
}

pub open spec fn resolve_all_ok(st: TickState, due: Seq<i32>, player: i32) -> bool
    decreases due.len(),
{
    if due.len() == 0 {
        true
    } else {
        resolve_all_ok(st, due.drop_last(), player) && resolve_due_ok(resolve_all(st, due.drop_last(), player), due.last(), player)
    }
}

/// A tick: time passes up to the next movement boundary, then the
/// movements that end there resolve in ascending id order.
pub open spec fn tick_state(v: WorldView) -> TickState {
    let elapsed = min_remaining(v.movements);
    let ms = ticked_movements(v.movements, elapsed);
    resolve_all(TickState { entities: v.entities, movements: ms, finished: Seq::empty() }, sort_ids(done_ids(ms)), v.player_id)
}

/// What a tick computes is free of overflow and restarts only waits of a
/// valid speed.
pub open spec fn tick_ok(v: WorldView) -> bool {
    let elapsed = min_remaining(v.movements);
    let ms = ticked_movements(v.movements, elapsed);
    &&& forall|i: int| 0 <= i < v.movements.len() ==> sub_ok((#[trigger] v.movements[i]).remaining, elapsed)
    &&& resolve_all_ok(TickState { entities: v.entities, movements: ms, finished: Seq::empty() }, sort_ids(done_ids(ms)), v.player_id)
}


proof fn lemma_insert_sorted_at(s: Seq<i32>, x: i32, p: int)
    requires
        0 <= p <= s.len(),
        forall|j: int| 0 <= j < p ==> x > s[j],
        p < s.len() ==> x <= s[p],
    ensures
        insert_sorted(s, x) == s.take(p).push(x) + s.skip(p),
    decreases p,
{
    if p == 0 {
        assert(s.take(0).push(x) + s.skip(0) =~= seq![x] + s);
    } else {
        let rest = s.drop_first();
        assert forall|j: int| 0 <= j < p - 1 implies x > rest[j] by {
            assert(rest[j] == s[j + 1]);
        }
        if p - 1 < rest.len() {
            assert(rest[p - 1] == s[p]);
        }
        lemma_insert_sorted_at(rest, x, p - 1);
        assert(seq![s[0]] + (rest.take(p - 1).push(x) + rest.skip(p - 1)) =~= s.take(p).push(x) + s.skip(p));
    }
}

/// Inserts `x` before the first element it does not exceed.
fn insert_id(v: &mut Vec<i32>, x: i32)
    ensures
        final(v)@ == insert_sorted(old(v)@, x),
{
    let mut p: usize = 0;
    while p < v.len() && x > v[p]
        invariant
            p <= v@.len(),
            v@ == old(v)@,
            forall|j: int| 0 <= j < p ==> x > v@[j],
        decreases v@.len() - p,
    {
        p += 1;
    }
    proof {
        lemma_insert_sorted_at(v@, x, p as int);
    }
    v.insert(p, x);
    assert(v@ =~= old(v)@.take(p as int).push(x) + old(v)@.skip(p as int));
}

/// The ids in ascending order; see [`sort_ids`].
fn sorted_ids(v: &Vec<i32>) -> (r: Vec<i32>)
    ensures
        r@ == sort_ids(v@),
{
    let mut out: Vec<i32> = Vec::new();
    let mut i: usize = 0;
    while i < v.len()
        invariant
            i <= v@.len(),
            out@ == sort_ids(v@.take(i as int)),
        decreases v@.len() - i,
    {
        assert(v@.take(i + 1).drop_last() =~= v@.take(i as int));
        insert_id(&mut out, v[i]);
        i += 1;
    }
    assert(v@.take(i as int) =~= v@);
    out
}

proof fn lemma_ids_stable_has(a: Seq<Entity>, b: Seq<Entity>, id: i32)
    requires
        a.len() == b.len(),
        forall|t: int| 0 <= t < a.len() ==> (#[trigger] a[t]).id == b[t].id,
    ensures
        has_entity(a, id) == has_entity(b, id),
{
    if has_entity(a, id) {
        let t = choose|t: int| 0 <= t < a.len() && (#[trigger] a[t]).id == id;
        assert(b[t].id == id);
    }
    if has_entity(b, id) {
        let t = choose|t: int| 0 <= t < b.len() && (#[trigger] b[t]).id == id;
        assert(a[t].id == id);
    }
}

proof fn lemma_ids_stable_index(a: Seq<Entity>, b: Seq<Entity>, id: i32)
    requires
        a.len() == b.len(),
        forall|t: int| 0 <= t < a.len() ==> (#[trigger] a[t]).id == b[t].id,
    ensures
        entity_index_of(a, id) == entity_index_of(b, id),
    decreases a.len(),
{
    if a.len() > 0 {
        assert forall|t: int| 0 <= t < a.drop_last().len() implies (#[trigger] a.drop_last()[t]).id == b.drop_last()[t].id by {
            assert(a.drop_last()[t] == a[t]);
            assert(b.drop_last()[t] == b[t]);
        }
        lemma_ids_stable_index(a.drop_last(), b.drop_last(), id);
    }
}

impl<'a> PhysicsWorld<'a> {
    /// The time to the next movement boundary: the shortest remaining time,
    /// zero when nothing moves.
    pub fn next_tick_length(&self) -> (r: Fraction)
        ensures
            r == min_remaining(self.view().movements),
    {
        let ghost ms = self.movements@;
        if self.movements.len() == 0 {
            return Fraction::zero();
        }
        let mut best = self.movements[0].remaining;
        assert(ms.take(1).len() == 1);
        let mut i: usize = 1;
        while i < self.movements.len()
            invariant
                ms == self.movements@,
                1 <= i <= ms.len(),
                best == min_remaining(ms.take(i as int)),
            decreases ms.len() - i,
        {
            assert(ms.take(i + 1).drop_last() =~= ms.take(i as int));
            if self.movements[i].remaining.less_than(best) {
                best = self.movements[i].remaining;
            }
            i += 1;
        }
        assert(ms.take(i as int) =~= ms);
        best
    }

    /// The ids of entities that are not static.
    pub fn dynamic_entity_ids(&self) -> (r: Vec<i32>)
        ensures
            r@ == dynamic_ids(self.view().entities),
    {
        let ghost es = self.entities@;
        let mut out: Vec<i32> = Vec::new();
        let mut i: usize = 0;
        while i < self.entities.len()
            invariant
                es == self.entities@,
                i <= es.len(),
                out@ == dynamic_ids(es.take(i as int)),
            decreases es.len() - i,
        {
            assert(es.take(i + 1).drop_last() =~= es.take(i as int));
            if !self.entities[i].entity_type.is_static() {
                out.push(self.entities[i].id);
            }
            i += 1;
        }
        assert(es.take(i as int) =~= es);
        out
    }

    /// Whether the player stands turned diagonally or is turning.
    fn player_turning_now(&self) -> (r: bool)
        ensures
            r == player_turning(self.entities@, self.movements@, self.player_id),
    {
        let diagonal = match entity_index(&self.entities, self.player_id) {
            Some(i) => self.entities[i].direction.is_diagonal(),
            None => false,
        };
        let rotating = match movement_index(&self.movements, self.player_id) {
            Some(j) => self.movements[j].kind == MovementKind::Rotation,
            None => false,
        };
        diagonal || rotating
    }

    /// The ids of movements with no time left, in movement order.
    fn done_movement_ids(&self) -> (r: Vec<i32>)
        ensures
            r@ == done_ids(self.movements@),
    {
        let ghost ms = self.movements@;
        let mut out: Vec<i32> = Vec::new();
        let mut i: usize = 0;
        while i < self.movements.len()
            invariant
                ms == self.movements@,
                i <= ms.len(),
                out@ == done_ids(ms.take(i as int)),
            decreases ms.len() - i,
        {
            assert(ms.take(i + 1).drop_last() =~= ms.take(i as int));
            if self.movements[i].done() {
                out.push(self.movements[i].target_id);
            }
            i += 1;
        }
        assert(ms.take(i as int) =~= ms);
        out
    }

    /// Advances exactly to the next movement boundary and resolves every
    /// movement that ends there; see [`tick_state`]. Returns the ids whose
    /// movements finished.
    pub fn tick(&mut self) -> (r: Result<Vec<i32>, String>)
        requires
            old(self).wf(),
            tick_ok(old(self).view()),
        ensures
            final(self).campaign_of() == old(self).campaign_of(),
            final(self).wf(),
            same_value(min_remaining(old(self).view().movements), zero_frac()) ==> r is Ok && r->Ok_0@.len() == 0
                && final(self).view() == old(self).view(),
            !same_value(min_remaining(old(self).view().movements), zero_frac()) ==> r is Ok
                && r->Ok_0@ == tick_state(old(self).view()).finished
                && final(self).view() == (WorldView {
                    entities: tick_state(old(self).view()).entities,
                    movements: tick_state(old(self).view()).movements,
                    ..old(self).view()
                }),
    {
        let elapsed = self.next_tick_length();
        if elapsed.same(Fraction::zero()) {
            return Ok(Vec::new());
        }
        let ghost old_view = self.view();
        let mut j: usize = 0;
        while j < self.movements.len()
            invariant
                self.view() == (WorldView { movements: self.movements@, ..old_view }),
                self.campaign_of() == old(self).campaign_of(),
                elapsed == min_remaining(old_view.movements),
                forall|i: int| 0 <= i < old_view.movements.len() ==> sub_ok((#[trigger] old_view.movements[i]).remaining, elapsed),
                self.movements@.len() == old_view.movements.len(),
                j <= self.movements@.len(),
                forall|i: int| 0 <= i < j ==> self.movements@[i] == (#[trigger] ticked_movements(old_view.movements, elapsed)[i]),
                forall|i: int| j <= i < self.movements@.len() ==> self.movements@[i] == (#[trigger] old_view.movements[i]),
            decreases self.movements@.len() - j,
        {
            assert(self.movements@[j as int] == old_view.movements[j as int]);
            assert(sub_ok(old_view.movements[j as int].remaining, elapsed));
            self.movements[j].tick(elapsed);
            j += 1;
        }
        assert(self.movements@ =~= ticked_movements(old_view.movements, elapsed));
        let done = self.done_movement_ids();
        let due = sorted_ids(&done);
        let ghost start = TickState { entities: old_view.entities, movements: self.movements@, finished: Seq::empty() };
        let mut finished: Vec<i32> = Vec::new();
        let mut k: usize = 0;
        while k < due.len()
            invariant
                self.campaign_of() == old(self).campaign_of(),
                self.player_id == old_view.player_id,
                self.fork_id == old_view.fork_id,
                self.tile_set == old_view.tile_set,
                self.view().backups == old_view.backups,
                k <= due@.len(),
                resolve_all_ok(start, due@, old_view.player_id),
                resolve_all(start, due@.take(k as int), old_view.player_id) == (TickState {
                    entities: self.entities@,
                    movements: self.movements@,
                    finished: finished@,
                }),
                self.entities@.len() == old_view.entities.len(),
                forall|t: int| 0 <= t < self.entities@.len() ==> (#[trigger] self.entities@[t]).id == old_view.entities[t].id,
                unique_ids(old_view.entities),
                unique_targets(self.movements@),
                forall|i: int| 0 <= i < self.movements@.len() ==> has_entity(self.entities@, (#[trigger] self.movements@[i]).target_id),
                old_view.fork_id matches Some(f) ==> has_entity(old_view.entities, f),
            decreases due@.len() - k,
        {
            let id = due[k];
            let ghost st = resolve_all(start, due@.take(k as int), old_view.player_id);
            assert(due@.take(k + 1).drop_last() =~= due@.take(k as int));
            assert(due@.take(k + 1).last() == id);
            proof {
                lemma_resolve_all_ok_prefix(start, due@, old_view.player_id, k + 1);
            }
            let j = match movement_index(&self.movements, id) {
                Some(j) => j,
                None => {
                    k += 1;
                    continue;
                },
            };
            let m = self.movements[j];
            let turning = self.player_turning_now();
            if m.kind == MovementKind::NoMovement && turning {
                self.movements[j].set_speed(m.speed);
                proof {
                    let ms = self.movements@;
                    assert(ms =~= st.movements.update(j as int, Movement { remaining: duration_spec(m.speed as int), ..m }));
                    assert forall|a: int, b: int| 0 <= a < b < ms.len() implies (#[trigger] ms[a]).target_id != (#[trigger] ms[b]).target_id by {
                        assert(st.movements[a].target_id == ms[a].target_id);
                        assert(st.movements[b].target_id == ms[b].target_id);
                    }
                    assert forall|i: int| 0 <= i < ms.len() implies has_entity(self.entities@, (#[trigger] ms[i]).target_id) by {
                        assert(st.movements[i].target_id == ms[i].target_id);
                    }
                }
                k += 1;
                continue;
            }
            proof {
                assert(has_entity(self.entities@, self.movements@[j as int].target_id));
            }
            let t = match entity_index(&self.entities, id) {
                Some(t) => t,
                None => {
                    return Err(String::from_str("movement target disappeared"));
                },
            };
            let before = self.entities[t].duplicate();
            let _ = self.movements.remove(j);
            let mut target = self.entities[t].duplicate();
            m.resolve(&mut target);
            self.entities[t] = target;
            let ghost es1 = self.entities@;
            proof {
                assert(es1 == st.entities.update(t as int, resolved(before, m)));
                assert forall|u: int| 0 <= u < es1.len() implies (#[trigger] es1[u]).id == st.entities[u].id by {}
                lemma_ids_stable_index(es1, st.entities, before.stuck_to);
            }
            if before.entity_type == EntityType::Sausage && (m.kind == MovementKind::Rotation || m.kind
                == MovementKind::Pivot) {
                match entity_index(&self.entities, before.stuck_to) {
                    Some(f) => {
                        if self.entities[f].entity_type == EntityType::Fork {
                            let mut fork = self.entities[f].duplicate();
                            fork.direction = if before.direction.left_of(m.to) {
                                fork.direction.counterclockwise_45()
                            } else {
                                fork.direction.clockwise_45()
                            };
                            if fork.pos != before.pos {
                                fork.pos = before.pos.step(m.to);
                            }
                            if m.kind == MovementKind::Pivot {
                                fork.pos = fork.pos.step(m.direction);
                            }
                            self.entities[f] = fork;
                        }
                    },
                    None => {},
                }
            }
            finished.push(id);
            proof {
                let es = self.entities@;
                let ms = self.movements@;
                let olds = st.movements;
                assert(ms =~= olds.remove(j as int));
                assert forall|u: int| 0 <= u < es.len() implies (#[trigger] es[u]).id == old_view.entities[u].id by {
                    assert(st.entities[u].id == old_view.entities[u].id);
                }
                assert forall|a: int, b: int| 0 <= a < b < ms.len() implies (#[trigger] ms[a]).target_id != (#[trigger] ms[b]).target_id by {
                    let oa = if a < j { a } else { a + 1 };
                    let ob = if b < j { b } else { b + 1 };
                    assert(ms[a] == olds[oa]);
                    assert(ms[b] == olds[ob]);
                }
                assert forall|i: int| 0 <= i < ms.len() implies has_entity(es, (#[trigger] ms[i]).target_id) by {
                    let oi = if i < j { i } else { i + 1 };
                    assert(ms[i] == olds[oi]);
                    assert(has_entity(st.entities, olds[oi].target_id));
                    lemma_ids_stable_has(es, st.entities, olds[oi].target_id);
                }
                assert(resolve_all(start, due@.take(k + 1), old_view.player_id) == resolve_due(st, id, old_view.player_id));
            }
            k += 1;
        }
        proof {
            assert(due@.take(k as int) =~= due@);
            lemma_ids_stable_has(self.entities@, old_view.entities, 0);
            assert forall|f: i32| old_view.fork_id == Some(f) implies has_entity(self.entities@, f) by {
                lemma_ids_stable_has(self.entities@, old_view.entities, f);
            }
            assert forall|a: int, b: int| 0 <= a < b < self.entities@.len() implies (#[trigger] self.entities@[a]).id != (#[trigger] self.entities@[b]).id by {
                assert(old_view.entities[a].id != old_view.entities[b].id);
            }
        }
        Ok(finished)
    }
}

proof fn lemma_resolve_all_ok_prefix(st: TickState, due: Seq<i32>, player: i32, k: int)
    requires
        0 <= k <= due.len(),
        resolve_all_ok(st, due, player),
    ensures
        resolve_all_ok(st, due.take(k), player),
        k > 0 ==> resolve_due_ok(resolve_all(st, due.take(k - 1), player), due[k - 1], player),
    decreases due.len() - k,
{
    if k < due.len() {
        assert(due.drop_last().take(k) =~= due.take(k));
        if k > 0 {
            assert(due.drop_last().take(k - 1) =~= due.take(k - 1));
        }
        lemma_resolve_all_ok_prefix(st, due.drop_last(), player, k);
    } else {
        assert(due.take(k) =~= due);
        if k > 0 {
            assert(due.take(k).drop_last() =~= due.take(k - 1));
        }
    }
}


/// The id a detached fork takes: its own, or one past the largest id when
/// it has none yet.
pub open spec fn fork_id_for(es: Seq<Entity>, fork: Entity) -> int {
    if fork.id < 0 {
        max_id(es) + 1
    } else {
        fork.id as int
    }
}

/// The movements without the one of `id`.
pub open spec fn without_movement(ms: Seq<Movement>, id: i32) -> Seq<Movement> {
    match movement_index_of(ms, id) {
        Some(j) => ms.remove(j),
        None => ms,
    }
}

/// Taking out a fork just detached gives back that fork, under the id it
/// was given, and leaves the entities and movements as they were before it
/// was detached.
pub proof fn law_remove_fork_undoes_insert_fork(w: WorldView, fork: Entity)
    requires
        world_wf(w),
        w.fork_id is None,
        !has_entity(w.entities, fork_id_for(w.entities, fork) as i32),
    ensures
        ({
            let id = fork_id_for(w.entities, fork) as i32;
            let es = w.entities.push(Entity { id, ..fork });
            &&& entity_index_of(es, id) == Some(w.entities.len() as int)
            &&& es[w.entities.len() as int] == Entity { id, ..fork }
            &&& es.update(w.entities.len() as int, es.last()).drop_last() == w.entities
            &&& without_movement(w.movements, id) == w.movements
        }),
{
    let id = fork_id_for(w.entities, fork) as i32;
    let es = w.entities.push(Entity { id, ..fork });
    lemma_entity_index_of(w.entities, id);
    assert(es.drop_last() =~= w.entities);
    assert(es.update(w.entities.len() as int, es.last()).drop_last() =~= w.entities);
    lemma_movement_index_of(w.movements, id);
    if has_movement(w.movements, id) {
        let i = choose|i: int| 0 <= i < w.movements.len() && (#[trigger] w.movements[i]).target_id == id;
        assert(has_entity(w.entities, w.movements[i].target_id));
    }
}

fn max_entity_id(es: &Vec<Entity>) -> (r: i32)
    ensures
        r == max_id(es@),
{
    if es.len() == 0 {
        return 0;
    }
    let mut best = es[0].id;
    let mut i: usize = 1;
    assert(es@.take(1).drop_last().len() == 0);
    while i < es.len()
        invariant
            1 <= i <= es@.len(),
            best == max_id(es@.take(i as int)),
        decreases es@.len() - i,
    {
        assert(es@.take(i + 1).drop_last() =~= es@.take(i as int));
        if es[i].id > best {
            best = es[i].id;
        }
        i += 1;
    }
    assert(es@.take(i as int) =~= es@);
    best
}

impl<'a> PhysicsWorld<'a> {
    /// Adds a detached fork; see [`fork_id_for`] for its id.
    pub fn insert_fork(&mut self, fork: Entity) -> (r: Result<i32, String>)
        requires
            old(self).wf(),
            fork.id < 0 ==> max_id(old(self).view().entities) < i32::MAX,
        ensures
            final(self).campaign_of() == old(self).campaign_of(),
            final(self).wf(),
            old(self).view().fork_id is Some ==> r is Err && r->Err_0@ == "world already contains a detached fork"@
                && final(self).view() == old(self).view(),
            old(self).view().fork_id is None && has_entity(old(self).view().entities, fork_id_for(old(self).view().entities, fork) as i32)
                ==> r is Err && r->Err_0@ == "duplicate fork entity id "@ + int_text(fork_id_for(old(self).view().entities, fork))
                && final(self).view() == old(self).view(),
            old(self).view().fork_id is None && !has_entity(old(self).view().entities, fork_id_for(old(self).view().entities, fork) as i32)
                ==> r == Ok::<i32, String>(fork_id_for(old(self).view().entities, fork) as i32)
                && final(self).view() == (WorldView {
                    entities: old(self).view().entities.push(Entity { id: fork_id_for(old(self).view().entities, fork) as i32, ..fork }),
                    fork_id: Some(fork_id_for(old(self).view().entities, fork) as i32),
                    ..old(self).view()
                }),
    {
        if self.fork_id.is_some() {
            return Err(String::from_str("world already contains a detached fork"));
        }
        let mut fork = fork;
        if fork.id < 0 {
            fork.id = max_entity_id(&self.entities) + 1;
        }
        let id = fork.id;
        if entity_index(&self.entities, id).is_some() {
            let mut message = String::from_str("duplicate fork entity id ");
            append_int(&mut message, id as i64);
            return Err(message);
        }
        self.entities.push(fork);
        self.fork_id = Some(id);
        proof {
            let es = self.entities@;
            let olds = old(self).entities@;
            assert forall|a: int, b: int| 0 <= a < b < es.len() implies (#[trigger] es[a]).id != (#[trigger] es[b]).id by {
                if b == es.len() - 1 {
                    assert(olds[a] == es[a]);
                } else {
                    assert(olds[a] == es[a]);
                    assert(olds[b] == es[b]);
                }
            }
            assert forall|x: i32| has_entity(olds, x) implies has_entity(es, x) by {
                let t = choose|t: int| 0 <= t < olds.len() && (#[trigger] olds[t]).id == x;
                assert(es[t] == olds[t]);
            }
            assert(es[es.len() - 1].id == id);
            assert(has_entity(es, id));
            assert forall|i: int| 0 <= i < self.movements@.len() implies has_entity(es, (#[trigger] self.movements@[i]).target_id) by {
                assert(has_entity(olds, self.movements@[i].target_id));
            }
        }
        Ok(id)
    }

    /// Takes the detached fork out of the world, with its movement.
    pub fn remove_fork(&mut self) -> (r: Result<Entity, String>)
        requires
            old(self).wf(),
        ensures
            final(self).campaign_of() == old(self).campaign_of(),
            final(self).wf(),
            old(self).view().fork_id is None ==> r is Err && r->Err_0@ == "world has no detached fork"@
                && final(self).view() == old(self).view(),
            old(self).view().fork_id matches Some(f) ==> {
                let es = old(self).view().entities;
                let i = entity_index_of(es, f)->0;
                &&& entity_index_of(es, f) is Some
                &&& r == Ok::<Entity, String>(es[i])
                &&& final(self).view() == (WorldView {
                    entities: es.update(i, es.last()).drop_last(),
                    movements: without_movement(old(self).view().movements, f),
                    fork_id: None,
                    ..old(self).view()
                })
            },
    {
        let id = match self.fork_id {
            Some(id) => id,
            None => {
                return Err(String::from_str("world has no detached fork"));
            },
        };
        self.fork_id = None;
        match movement_index(&self.movements, id) {
            Some(j) => {
                let _ = self.movements.remove(j);
            },
            None => {},
        }
        let ghost olds = old(self).entities@;
        proof {
            lemma_entity_index_of(olds, id);
        }
        let index = match entity_index(&self.entities, id) {
            Some(i) => i,
            None => {
                let mut message = String::from_str("fork ");
                append_int(&mut message, id as i64);
                message.append(" has no entity index");
                return Err(message);
            },
        };
        let fork = self.entities.swap_remove(index);
        proof {
            let es = self.entities@;
            let ms = self.movements@;
            let oldm = old(self).movements@;
            let n = olds.len();
            assert(es == olds.update(index as int, olds.last()).drop_last());
            assert forall|u: int| 0 <= u < es.len() implies (#[trigger] es[u]).id != id by {
                if u == index {
                    if index < n - 1 {
                        assert(olds[n - 1].id != olds[index as int].id);
                    }
                } else {
                    assert(es[u] == olds[u]);
                    assert(olds[u].id != olds[index as int].id);
                }
            }
            assert forall|a: int, b: int| 0 <= a < b < es.len() implies (#[trigger] es[a]).id != (#[trigger] es[b]).id by {
                let oa = if a == index { n - 1 } else { a };
                let ob = if b == index { n - 1 } else { b };
                assert(es[a] == olds[oa]);
                assert(es[b] == olds[ob]);
            }
            assert forall|x: i32| x != id && has_entity(olds, x) implies has_entity(es, x) by {
                let t = choose|t: int| 0 <= t < olds.len() && (#[trigger] olds[t]).id == x;
                if t == n - 1 {
                    assert(es[index as int].id == x);
                } else {
                    assert(t != index);
                    assert(es[t] == olds[t]);
                }
            }
            lemma_movement_index_of(oldm, id);
            assert(ms == without_movement(oldm, id));
            assert forall|i: int| 0 <= i < ms.len() implies has_entity(es, (#[trigger] ms[i]).target_id) by {
                match movement_index_of(oldm, id) {
                    Some(j) => {
                        let oi = if i < j { i } else { i + 1 };
                        assert(ms[i] == oldm[oi]);
                        assert(oldm[oi].target_id != id);
                        assert(has_entity(olds, oldm[oi].target_id));
                    },
                    None => {
                        assert(ms[i] == oldm[i]);
                        assert(has_entity(olds, oldm[i].target_id));
                    },
                }
            }
            assert forall|a: int, b: int| 0 <= a < b < ms.len() implies (#[trigger] ms[a]).target_id != (#[trigger] ms[b]).target_id by {
                match movement_index_of(oldm, id) {
                    Some(j) => {
                        let oa = if a < j { a } else { a + 1 };
                        let ob = if b < j { b } else { b + 1 };
                        assert(ms[a] == oldm[oa]);
                        assert(ms[b] == oldm[ob]);
                    },
                    None => {},
                }
            }
        }
        Ok(fork)
    }
}


/// How far from the origin coordinates, mask offsets and mask sizes may
/// reach, so that no sum of a position, an offset and a mask index, give
/// or take a few steps, leaves the 32-bit range.
pub open spec fn limit() -> int {
    0x1900_0000
}

/// Within a step or two of the [`small`] range.
pub open spec fn near(c: Coord) -> bool {
    &&& -limit() - 2 <= c.x <= limit() + 2
    &&& -limit() - 2 <= c.y <= limit() + 2
    &&& -limit() - 2 <= c.z <= limit() + 2
}

pub open spec fn small(c: Coord) -> bool {
    &&& -limit() <= c.x <= limit()
    &&& -limit() <= c.y <= limit()
    &&& -limit() <= c.z <= limit()
}

/// See [`small`].
pub fn small_fits(c: Coord) -> (r: bool)
    ensures
        r == small(c),
{
    -0x1900_0000 <= c.x && c.x <= 0x1900_0000 && -0x1900_0000 <= c.y && c.y <= 0x1900_0000 && -0x1900_0000
        <= c.z && c.z <= 0x1900_0000
}

/// The campaign's island masks by name.
pub open spec fn mask_entries(c: Campaign) -> Seq<(Seq<char>, IslandMask)> {
    c.island_masks@.map_values(|p: (String, IslandMask)| (p.0@, p.1))
}

/// The campaign's projection tables by outer and inner name.
pub open spec fn projection_entries(c: Campaign) -> Seq<(Seq<char>, Seq<(Seq<char>, ProjectionCompatibility)>)> {
    c.projection_compatibilities@.map_values(
        |p: (String, Vec<(String, ProjectionCompatibility)>)| (p.0@, p.1@.map_values(|q: (String, ProjectionCompatibility)| (q.0@, q.1))),
    )
}

pub open spec fn mask_small(m: IslandMask) -> bool {
    &&& m.dimensions[0] <= limit()
    &&& m.dimensions[1] <= limit()
    &&& m.dimensions[2] <= limit()
    &&& m.fits()
    &&& small(m.offset)
}

/// Positions, masks and projection tables are of a size the engine's
/// 32-bit arithmetic handles.
pub open spec fn world_small(v: WorldView, c: Campaign) -> bool {
    &&& forall|i: int| 0 <= i < v.entities.len() ==> small((#[trigger] v.entities[i]).pos)
    &&& forall|i: int| 0 <= i < mask_entries(c).len() ==> mask_small((#[trigger] mask_entries(c)[i]).1)
    &&& forall|i: int, j: int|
        0 <= i < projection_entries(c).len() && 0 <= j < projection_entries(c)[i].1.len() ==> {
            let t = (#[trigger] projection_entries(c)[i].1[j]).1;
            t.dimensions[0] * t.dimensions[1] <= usize::MAX
        }
}

/// The entity with this id.
pub open spec fn entity_of(v: WorldView, id: i32) -> Option<Entity> {
    match entity_index_of(v.entities, id) {
        Some(i) => Some(v.entities[i]),
        None => None,
    }
}

/// The movement of this entity.
pub open spec fn movement_of(v: WorldView, id: i32) -> Option<Movement> {
    match movement_index_of(v.movements, id) {
        Some(i) => Some(v.movements[i]),
        None => None,
    }
}

pub open spec fn unknown_entity_text(id: i32) -> Seq<char> {
    "unknown entity id "@ + int_text(id as int)
}

pub open spec fn no_mask_text(e: Entity) -> Seq<char> {
    "island "@ + int_text(e.id as int) + " has no mask \""@ + e.data@ + "\""@
}

/// Whether an island voxel is solid: positive values always, `-1` until
/// the island is completed.
pub open spec fn solid(value: i32, completed: bool) -> bool {
    value > 0 || (!completed && value == -1)
}

pub open spec fn solid_at(m: IslandMask, completed: bool, x: int, y: int, z: int) -> bool {
    solid(
        match m.get_spec(Coord { x: x as i32, y: y as i32, z: z as i32 }) {
            Some(v) => v,
            None => 0,
        },
        completed,
    )
}

/// The solid voxels of one column, `z` from 0 up.
pub open spec fn column_cells(m: IslandMask, completed: bool, x: int, y: int, z: int) -> Seq<Coord>
    decreases z,
{
    if z <= 0 {
        Seq::empty()
    } else {
        let rest = column_cells(m, completed, x, y, z - 1);
        if solid_at(m, completed, x, y, z - 1) {
            rest.push(Coord { x: x as i32, y: y as i32, z: (z - 1) as i32 })
        } else {
            rest
        }
    }
}

/// The solid voxels of one slice, `y` from 0 up.
pub open spec fn slice_cells(m: IslandMask, completed: bool, x: int, y: int) -> Seq<Coord>
    decreases y,
{
    if y <= 0 {
        Seq::empty()
    } else {
        slice_cells(m, completed, x, y - 1) + column_cells(m, completed, x, y - 1, m.dimensions[2] as int)
    }
}

/// The solid voxels of a mask, `x`, then `y`, then `z` ascending.
pub open spec fn mask_cells(m: IslandMask, completed: bool, x: int) -> Seq<Coord>
    decreases x,
{
    if x <= 0 {
        Seq::empty()
    } else {
        mask_cells(m, completed, x - 1) + slice_cells(m, completed, x - 1, m.dimensions[1] as int)
    }
}

/// Whether the player counts as two cells long: holding the fork.
pub open spec fn extended_in(v: WorldView, e: Entity) -> bool {
    is_extended_spec(e.entity_type) || (e.entity_type == EntityType::Player && v.fork_id is None)
}

/// Ground tiles that only decorate and never block.
pub open spec fn decoration(v: WorldView, e: Entity) -> bool {
    if e.entity_type != EntityType::Ground {
        false
    } else if v.tile_set == 4 && ((7 <= e.tile_set <= 9 && 4 <= e.tile_number <= 7) || (e.tile_set == 9
        && e.tile_number < 4)) {
        false
    } else if v.tile_set == 0 && (e.tile_set == 5 || e.tile_set == 13) && e.tile_number >= 6 {
        true
    } else {
        7 <= e.tile_set <= 9
    }
}

/// The cells an entity stands on: its footprint, or an island's solid
/// voxels placed at its position and mask offset.
pub open spec fn footprint_of(v: WorldView, c: Campaign, e: Entity) -> Result<Seq<Coord>, Seq<char>> {
    if e.entity_type != EntityType::Island {
        Ok(footprint_spec(e, v.fork_id is None))
    } else {
        match lookup(mask_entries(c), e.data@) {
            None => Err(no_mask_text(e)),
            Some(m) => Ok(
                mask_cells(m, e.cook_data != 0, m.dimensions[0] as int).map_values(
                    |l: Coord| coord_sum(coord_sum(e.pos, m.offset), l),
                ),
            ),
        }
    }
}

pub open spec fn cmin(a: Coord, b: Coord) -> Coord {
    Coord {
        x: if a.x <= b.x { a.x } else { b.x },
        y: if a.y <= b.y { a.y } else { b.y },
        z: if a.z <= b.z { a.z } else { b.z },
    }
}

pub open spec fn cmax(a: Coord, b: Coord) -> Coord {
    Coord {
        x: if a.x >= b.x { a.x } else { b.x },
        y: if a.y >= b.y { a.y } else { b.y },
        z: if a.z >= b.z { a.z } else { b.z },
    }
}

/// A size less one, not below zero.
pub open spec fn less_one(d: usize) -> int {
    if d >= 1 {
        d - 1
    } else {
        0
    }
}

/// The box an entity's cells lie in: an island's from its mask size, a
/// two-cell entity's spanning both ends.
pub open spec fn bounds_of(v: WorldView, c: Campaign, e: Entity) -> Result<(Coord, Coord), Seq<char>> {
    if e.entity_type == EntityType::Island {
        match lookup(mask_entries(c), e.data@) {
            None => Err(no_mask_text(e)),
            Some(m) => {
                let low = coord_sum(e.pos, m.offset);
                Ok((low, Coord {
                    x: (low.x + less_one(m.dimensions[0])) as i32,
                    y: (low.y + less_one(m.dimensions[1])) as i32,
                    z: (low.z + less_one(m.dimensions[2])) as i32,
                }))
            },
        }
    } else if extended_in(v, e) {
        let end = coord_step(e.pos, e.direction);
        Ok((cmin(e.pos, end), cmax(e.pos, end)))
    } else {
        Ok((e.pos, e.pos))
    }
}

/// The box the claims lie in.
pub open spec fn claims_bounds(occ: Seq<Occupancy>) -> Option<(Coord, Coord)>
    decreases occ.len(),
{
    if occ.len() == 0 {
        None
    } else if occ.len() == 1 {
        Some((occ[0].pos, occ[0].pos))
    } else {
        match claims_bounds(occ.drop_last()) {
            Some((low, high)) => Some((cmin(low, occ.last().pos), cmax(high, occ.last().pos))),
            None => None,
        }
    }
}

pub open spec fn boxes_meet(a_low: Coord, a_high: Coord, b_low: Coord, b_high: Coord) -> bool {
    &&& a_low.x <= b_high.x && a_high.x >= b_low.x
    &&& a_low.y <= b_high.y && a_high.y >= b_low.y
    &&& a_low.z <= b_high.z && a_high.z >= b_low.z
}

/// The claims of one cell of a translating island: it stays put where the
/// island covers the cell behind it, else leaves; it enters the cell ahead
/// unless the island covers it already.
pub open spec fn island_cell_claims(cells: Seq<Coord>, m: Movement, pos: Coord) -> Seq<Occupancy> {
    let p = position_spec(m);
    let stay = if cells.contains(coord_diff(pos, delta_spec(m.direction))) {
        seq![still_claim(pos)]
    } else {
        seq![claim(pos, m.direction, false, p, m.speed as int)]
    };
    if cells.contains(coord_step(pos, m.direction)) {
        stay
    } else {
        stay.push(claim(coord_step(pos, m.direction), m.direction, true, p, m.speed as int))
    }
}

pub open spec fn island_claims(cells: Seq<Coord>, m: Movement, k: int) -> Seq<Occupancy>
    decreases k,
{
    if k <= 0 {
        Seq::empty()
    } else {
        island_claims(cells, m, k - 1) + island_cell_claims(cells, m, cells[k - 1])
    }
}

/// Every claim of an entity on the grid.
pub open spec fn occupancy_of(v: WorldView, c: Campaign, e: Entity) -> Result<Seq<Occupancy>, Seq<char>> {
    let mv = movement_of(v, e.id);
    if e.entity_type != EntityType::Island {
        Ok(claims_spec(e, mv, v.fork_id is None))
    } else {
        match footprint_of(v, c, e) {
            Err(message) => Err(message),
            Ok(cells) => match mv {
                Some(m) => if m.kind == MovementKind::Translation {
                    Ok(island_claims(cells, m, cells.len() as int))
                } else {
                    Ok(cells.map_values(|p: Coord| still_claim(p)))
                },
                None => Ok(cells.map_values(|p: Coord| still_claim(p))),
            },
        }
    }
}


fn coords_contain(cells: &Vec<Coord>, c: Coord) -> (r: bool)
    ensures
        r == cells@.contains(c),
{
    let mut i: usize = 0;
    while i < cells.len()
        invariant
            i <= cells@.len(),
            forall|j: int| 0 <= j < i ==> cells@[j] != c,
        decreases cells@.len() - i,
    {
        if cells[i] == c {
            assert(cells@[i as int] == c);
            return true;
        }
        i += 1;
    }
    false
}

/// The mask stored under `name`, found from the last entry back.
fn mask_named<'b>(masks: &'b Vec<(String, IslandMask)>, name: &str) -> (r: Option<&'b IslandMask>)
    ensures
        match r {
            Some(m) => lookup(masks@.map_values(|p: (String, IslandMask)| (p.0@, p.1)), name@) == Some(*m),
            None => lookup(masks@.map_values(|p: (String, IslandMask)| (p.0@, p.1)), name@) is None,
        },
{
    let ghost all = masks@.map_values(|p: (String, IslandMask)| (p.0@, p.1));
    let mut i = masks.len();
    assert(all.take(i as int) =~= all);
    while i > 0
        invariant
            i <= masks@.len(),
            all == masks@.map_values(|p: (String, IslandMask)| (p.0@, p.1)),
            lookup(all, name@) == lookup(all.take(i as int), name@),
        decreases i,
    {
        assert(all.take(i as int).drop_last() =~= all.take(i - 1));
        if crate::text::str_eq(masks[i - 1].0.as_str(), name) {
            return Some(&masks[i - 1].1);
        }
        i -= 1;
    }
    None
}

/// The solid voxels of a mask in `x`, `y`, `z` order; see [`mask_cells`].
fn island_cells(mask: &IslandMask, completed: bool) -> (r: Vec<Coord>)
    requires
        mask_small(*mask),
    ensures
        r@ == mask_cells(*mask, completed, mask.dimensions[0] as int),
{
    let width = mask.dimensions[0];
    let height = mask.dimensions[1];
    let depth = mask.dimensions[2];
    let mut out: Vec<Coord> = Vec::new();
    let mut x: usize = 0;
    while x < width
        invariant
            width == mask.dimensions[0],
            height == mask.dimensions[1],
            depth == mask.dimensions[2],
            mask_small(*mask),
            x <= width,
            out@ == mask_cells(*mask, completed, x as int),
        decreases width - x,
    {
        let ghost before_slice = out@;
        let mut y: usize = 0;
        while y < height
            invariant
                width == mask.dimensions[0],
                height == mask.dimensions[1],
                depth == mask.dimensions[2],
                mask_small(*mask),
                x < width,
                y <= height,
                out@ == before_slice + slice_cells(*mask, completed, x as int, y as int),
            decreases height - y,
        {
            let ghost before_column = out@;
            let mut z: usize = 0;
            while z < depth
                invariant
                    width == mask.dimensions[0],
                    height == mask.dimensions[1],
                    depth == mask.dimensions[2],
                    mask_small(*mask),
                    x < width,
                    y < height,
                    z <= depth,
                    out@ == before_column + column_cells(*mask, completed, x as int, y as int, z as int),
                decreases depth - z,
            {
                let local = Coord::new(x as i32, y as i32, z as i32);
                let value = match mask.get(local) {
                    Some(v) => v,
                    None => 0,
                };
                if value > 0 || (!completed && value == -1) {
                    out.push(local);
                }
                assert(out@ =~= before_column + column_cells(*mask, completed, x as int, y as int, z + 1));
                z += 1;
            }
            assert(out@ =~= before_slice + slice_cells(*mask, completed, x as int, y + 1));
            y += 1;
        }
        assert(out@ =~= mask_cells(*mask, completed, x + 1));
        x += 1;
    }
    out
}

fn low_corner(a: Coord, b: Coord) -> (r: Coord)
    ensures
        r == cmin(a, b),
{
    Coord::new(
        if a.x <= b.x { a.x } else { b.x },
        if a.y <= b.y { a.y } else { b.y },
        if a.z <= b.z { a.z } else { b.z },
    )
}

fn high_corner(a: Coord, b: Coord) -> (r: Coord)
    ensures
        r == cmax(a, b),
{
    Coord::new(
        if a.x >= b.x { a.x } else { b.x },
        if a.y >= b.y { a.y } else { b.y },
        if a.z >= b.z { a.z } else { b.z },
    )
}

/// The box the claims lie in; see [`claims_bounds`].
fn occupancy_bounds(occupancy: &Vec<Occupancy>) -> (r: Option<(Coord, Coord)>)
    ensures
        r == claims_bounds(occupancy@),
{
    if occupancy.len() == 0 {
        return None;
    }
    let first = occupancy[0].pos;
    let mut low = first;
    let mut high = first;
    let mut i: usize = 1;
    assert(occupancy@.take(1).len() == 1);
    while i < occupancy.len()
        invariant
            1 <= i <= occupancy@.len(),
            claims_bounds(occupancy@.take(i as int)) == Some((low, high)),
        decreases occupancy@.len() - i,
    {
        assert(occupancy@.take(i + 1).drop_last() =~= occupancy@.take(i as int));
        low = low_corner(low, occupancy[i].pos);
        high = high_corner(high, occupancy[i].pos);
        i += 1;
    }
    assert(occupancy@.take(i as int) =~= occupancy@);
    Some((low, high))
}

/// Whether two boxes share a cell.
fn bounds_overlap(left_min: Coord, left_max: Coord, right_min: Coord, right_max: Coord) -> (r: bool)
    ensures
        r == boxes_meet(left_min, left_max, right_min, right_max),
{
    left_min.x <= right_max.x && left_max.x >= right_min.x && left_min.y <= right_max.y && left_max.y
        >= right_min.y && left_min.z <= right_max.z && left_max.z >= right_min.z
}

/// The claims of a translating island; see [`island_claims`].
fn translation_occupancy(footprint: &Vec<Coord>, movement: Movement) -> (r: Vec<Occupancy>)
    requires
        position_ok(movement),
        forall|i: int| 0 <= i < footprint@.len() ==> within(#[trigger] footprint@[i], 1),
    ensures
        r@ == island_claims(footprint@, movement, footprint@.len() as int),
{
    let position = movement.position();
    let mut out: Vec<Occupancy> = Vec::new();
    let mut i: usize = 0;
    while i < footprint.len()
        invariant
            position == position_spec(movement),
            forall|k: int| 0 <= k < footprint@.len() ==> within(#[trigger] footprint@[k], 1),
            i <= footprint@.len(),
            out@ == island_claims(footprint@, movement, i as int),
        decreases footprint@.len() - i,
    {
        let pos = footprint[i];
        assert(within(footprint@[i as int], 1));
        proof {
            crate::sausage::physics::lemma_delta_bounds(movement.direction);
        }
        let behind = pos.minus(movement.direction.delta());
        let ahead = pos.step(movement.direction);
        let ghost before = out@;
        if coords_contain(footprint, behind) {
            out.push(Occupancy::new(pos, Direction::NoDirection, true, Fraction::zero(), 0));
        } else {
            out.push(Occupancy::new(pos, movement.direction, false, position, movement.speed));
        }
        if !coords_contain(footprint, ahead) {
            out.push(Occupancy::new(ahead, movement.direction, true, position, movement.speed));
        }
        assert(out@ =~= before + island_cell_claims(footprint@, movement, pos));
        i += 1;
    }
    out
}


pub proof fn lemma_lookup_member<V>(entries: Seq<(Seq<char>, V)>, key: Seq<char>)
    ensures
        lookup(entries, key) matches Some(v) ==> exists|i: int| 0 <= i < entries.len() && (#[trigger] entries[i]).1 == v,
    decreases entries.len(),
{
    if entries.len() > 0 && entries.last().0 != key {
        lemma_lookup_member(entries.drop_last(), key);
        if lookup(entries.drop_last(), key) is Some {
            let i = choose|i: int| 0 <= i < entries.drop_last().len() && (#[trigger] entries.drop_last()[i]).1
                == lookup(entries.drop_last(), key)->0;
            assert(entries[i] == entries.drop_last()[i]);
        }
    } else if entries.len() > 0 {
        assert(entries[entries.len() - 1].1 == entries.last().1);
    }
}

proof fn lemma_mask_small(v: WorldView, c: Campaign, key: Seq<char>)
    requires
        world_small(v, c),
    ensures
        lookup(mask_entries(c), key) matches Some(m) ==> mask_small(m),
{
    lemma_lookup_member(mask_entries(c), key);
}

proof fn lemma_cells_bounded(m: IslandMask, completed: bool, x: int)
    requires
        mask_small(m),
        x <= m.dimensions[0],
    ensures
        forall|i: int| 0 <= i < mask_cells(m, completed, x).len() ==> {
            let l = #[trigger] mask_cells(m, completed, x)[i];
            0 <= l.x < limit() && 0 <= l.y < limit() && 0 <= l.z < limit()
        },
    decreases x,
{
    if x > 0 {
        lemma_cells_bounded(m, completed, x - 1);
        lemma_slice_bounded(m, completed, x - 1, m.dimensions[1] as int);
        let a = mask_cells(m, completed, x - 1);
        let b = slice_cells(m, completed, x - 1, m.dimensions[1] as int);
        assert forall|i: int| 0 <= i < (a + b).len() implies {
            let l = #[trigger] (a + b)[i];
            0 <= l.x < limit() && 0 <= l.y < limit() && 0 <= l.z < limit()
        } by {
            if i < a.len() {
                assert((a + b)[i] == a[i]);
            } else {
                assert((a + b)[i] == b[i - a.len()]);
            }
        }
    }
}

proof fn lemma_slice_bounded(m: IslandMask, completed: bool, x: int, y: int)
    requires
        mask_small(m),
        0 <= x < m.dimensions[0],
        y <= m.dimensions[1],
    ensures
        forall|i: int| 0 <= i < slice_cells(m, completed, x, y).len() ==> {
            let l = #[trigger] slice_cells(m, completed, x, y)[i];
            0 <= l.x < limit() && 0 <= l.y < limit() && 0 <= l.z < limit()
        },
    decreases y,
{
    if y > 0 {
        lemma_slice_bounded(m, completed, x, y - 1);
        lemma_column_bounded(m, completed, x, y - 1, m.dimensions[2] as int);
        let a = slice_cells(m, completed, x, y - 1);
        let b = column_cells(m, completed, x, y - 1, m.dimensions[2] as int);
        assert forall|i: int| 0 <= i < (a + b).len() implies {
            let l = #[trigger] (a + b)[i];
            0 <= l.x < limit() && 0 <= l.y < limit() && 0 <= l.z < limit()
        } by {
            if i < a.len() {
                assert((a + b)[i] == a[i]);
            } else {
                assert((a + b)[i] == b[i - a.len()]);
            }
        }
    }
}

proof fn lemma_column_bounded(m: IslandMask, completed: bool, x: int, y: int, z: int)
    requires
        mask_small(m),
        0 <= x < m.dimensions[0],
        0 <= y < m.dimensions[1],
        z <= m.dimensions[2],
    ensures
        forall|i: int| 0 <= i < column_cells(m, completed, x, y, z).len() ==> {
            let l = #[trigger] column_cells(m, completed, x, y, z)[i];
            0 <= l.x < limit() && 0 <= l.y < limit() && 0 <= l.z < limit()
        },
    decreases z,
{
    if z > 0 {
        lemma_column_bounded(m, completed, x, y, z - 1);
        let rest = column_cells(m, completed, x, y, z - 1);
        let c = Coord { x: x as i32, y: y as i32, z: (z - 1) as i32 };
        assert(c.x == x && c.y == y && c.z == z - 1);
        assert forall|i: int| 0 <= i < rest.push(c).len() implies {
            let l = #[trigger] rest.push(c)[i];
            0 <= l.x < limit() && 0 <= l.y < limit() && 0 <= l.z < limit()
        } by {
            if i < rest.len() {
                assert(rest.push(c)[i] == rest[i]);
            }
        }
    }
}

impl<'a> PhysicsWorld<'a> {
    /// The mask of an island entity.
    fn island_mask(&self, entity: &Entity) -> (r: Result<&IslandMask, String>)
        ensures
            match lookup(mask_entries(self.campaign_of()), entity.data@) {
                Some(m) => r is Ok && *r->Ok_0 == m,
                None => r is Err && r->Err_0@ == no_mask_text(*entity),
            },
    {
        match mask_named(&self.campaign.island_masks, entity.data.as_str()) {
            Some(m) => Ok(m),
            None => {
                let mut message = String::from_str("island ");
                append_int(&mut message, entity.id as i64);
                message.append(" has no mask \"");
                message.append(entity.data.as_str());
                message.append("\"");
                Err(message)
            },
        }
    }

    /// The entity with this id, or the error naming the id.
    fn entity_or_error(&self, id: i32) -> (r: Result<&Entity, String>)
        ensures
            match entity_of(self.view(), id) {
                Some(e) => r is Ok && *r->Ok_0 == e,
                None => r is Err && r->Err_0@ == unknown_entity_text(id),
            },
    {
        match entity_index(&self.entities, id) {
            Some(i) => Ok(&self.entities[i]),
            None => {
                let mut message = String::from_str("unknown entity id ");
                append_int(&mut message, id as i64);
                Err(message)
            },
        }
    }

    /// The cells an entity stands on; see [`footprint_of`].
    fn footprint_of_entity(&self, entity: &Entity) -> (r: Result<Vec<Coord>, String>)
        requires
            world_small(self.view(), self.campaign_of()),
            small(entity.pos),
        ensures
            match footprint_of(self.view(), self.campaign_of(), *entity) {
                Ok(cells) => r is Ok && r->Ok_0@ == cells,
                Err(message) => r is Err && r->Err_0@ == message,
            },
            r is Ok ==> forall|i: int| 0 <= i < r->Ok_0@.len() ==> within(#[trigger] r->Ok_0@[i], 2),
    {
        if entity.entity_type != EntityType::Island {
            proof {
                crate::sausage::physics::lemma_delta_bounds(entity.direction);
            }
            let cells = entity.footprint(self.fork_id.is_none());
            return Ok(cells);
        }
        let mask = match self.island_mask(entity) {
            Ok(m) => m,
            Err(message) => {
                return Err(message);
            },
        };
        proof {
            lemma_mask_small(self.view(), self.campaign_of(), entity.data@);
            lemma_cells_bounded(*mask, entity.cook_data != 0, mask.dimensions[0] as int);
        }
        let locals = island_cells(mask, entity.cook_data != 0);
        let base = entity.pos.plus(mask.offset);
        let mut out: Vec<Coord> = Vec::new();
        let mut i: usize = 0;
        while i < locals.len()
            invariant
                i <= locals@.len(),
                small(entity.pos),
                small(mask.offset),
                base == coord_sum(entity.pos, mask.offset),
                forall|k: int| 0 <= k < locals@.len() ==> {
                    let l = #[trigger] locals@[k];
                    0 <= l.x < limit() && 0 <= l.y < limit() && 0 <= l.z < limit()
                },
                out@ == locals@.take(i as int).map_values(|l: Coord| coord_sum(base, l)),
                forall|k: int| 0 <= k < out@.len() ==> within(#[trigger] out@[k], 2),
            decreases locals@.len() - i,
        {
            let l = locals[i];
            assert(0 <= l.x < limit() && 0 <= l.y < limit() && 0 <= l.z < limit());
            out.push(base.plus(l));
            assert(out@ =~= locals@.take(i + 1).map_values(|l: Coord| coord_sum(base, l)));
            i += 1;
        }
        assert(locals@.take(i as int) =~= locals@);
        Ok(out)
    }

    /// The cells an entity stands on.
    pub fn source_footprint(&self, id: i32) -> (r: Result<Vec<Coord>, String>)
        requires
            world_small(self.view(), self.campaign_of()),
        ensures
            match entity_of(self.view(), id) {
                None => r is Err && r->Err_0@ == unknown_entity_text(id),
                Some(e) => match footprint_of(self.view(), self.campaign_of(), e) {
                    Ok(cells) => r is Ok && r->Ok_0@ == cells,
                    Err(message) => r is Err && r->Err_0@ == message,
                },
            },
    {
        let entity = match self.entity_or_error(id) {
            Ok(e) => e,
            Err(message) => {
                return Err(message);
            },
        };
        proof {
            lemma_entity_index_of(self.entities@, id);
        }
        self.footprint_of_entity(entity)
    }

    /// The box an entity's cells lie in; see [`bounds_of`].
    pub fn footprint_bounds(&self, id: i32) -> (r: Result<(Coord, Coord), String>)
        requires
            world_small(self.view(), self.campaign_of()),
        ensures
            match entity_of(self.view(), id) {
                None => r is Err && r->Err_0@ == unknown_entity_text(id),
                Some(e) => match bounds_of(self.view(), self.campaign_of(), e) {
                    Ok(b) => r == Ok::<(Coord, Coord), String>(b),
                    Err(message) => r is Err && r->Err_0@ == message,
                },
            },
    {
        let entity = match self.entity_or_error(id) {
            Ok(e) => e,
            Err(message) => {
                return Err(message);
            },
        };
        proof {
            lemma_entity_index_of(self.entities@, id);
        }
        self.bounds_of_entity(entity)
    }

    fn bounds_of_entity(&self, entity: &Entity) -> (r: Result<(Coord, Coord), String>)
        requires
            world_small(self.view(), self.campaign_of()),
            small(entity.pos),
        ensures
            match bounds_of(self.view(), self.campaign_of(), *entity) {
                Ok(b) => r == Ok::<(Coord, Coord), String>(b),
                Err(message) => r is Err && r->Err_0@ == message,
            },
            r is Ok ==> within(r->Ok_0.0, 2) && within(r->Ok_0.1, 2),
    {
        if entity.entity_type == EntityType::Island {
            let mask = match self.island_mask(entity) {
                Ok(m) => m,
                Err(message) => {
                    return Err(message);
                },
            };
            proof {
                lemma_mask_small(self.view(), self.campaign_of(), entity.data@);
            }
            let low = entity.pos.plus(mask.offset);
            let w = if mask.dimensions[0] >= 1 { mask.dimensions[0] - 1 } else { 0 };
            let h = if mask.dimensions[1] >= 1 { mask.dimensions[1] - 1 } else { 0 };
            let d = if mask.dimensions[2] >= 1 { mask.dimensions[2] - 1 } else { 0 };
            let high = Coord::new(low.x + w as i32, low.y + h as i32, low.z + d as i32);
            return Ok((low, high));
        }
        let mut low = entity.pos;
        let mut high = entity.pos;
        let extended = entity.entity_type.is_extended() || (entity.entity_type == EntityType::Player
            && self.fork_id.is_none());
        if extended {
            proof {
                crate::sausage::physics::lemma_delta_bounds(entity.direction);
            }
            let end = entity.pos.step(entity.direction);
            low = low_corner(low, end);
            high = high_corner(high, end);
        }
        Ok((low, high))
    }
}


/// Every movement's position can be computed, and a pivot's second speed
/// fits.
pub open spec fn motions_ok(v: WorldView) -> bool {
    forall|i: int|
        0 <= i < v.movements.len() ==> position_ok(#[trigger] v.movements[i]) && (v.movements[i].kind
            == MovementKind::Pivot ==> v.movements[i].speed < i32::MAX)
}

/// The projection table of `inner` within the tables of `outer`.
pub open spec fn projection_for(c: Campaign, outer: Seq<char>, inner: Seq<char>) -> Option<ProjectionCompatibility> {
    match lookup(projection_entries(c), outer) {
        Some(tables) => lookup(tables, inner),
        None => None,
    }
}

/// Standing still or moving up or down.
pub open spec fn vertical_or_still(v: WorldView, id: i32) -> bool {
    match movement_of(v, id) {
        None => true,
        Some(m) => parallel_spec(m.direction, Direction::Up),
    }
}

/// Whether two islands that stand or move vertically may overlap in
/// projection: the table of the first for the second says so at their
/// relative offset, and offsets outside the table count as compatible.
pub open spec fn projection_compatible(v: WorldView, c: Campaign, l: Entity, r: Entity) -> bool {
    if l.entity_type != EntityType::Island || r.entity_type != EntityType::Island {
        false
    } else if !vertical_or_still(v, l.id) || !vertical_or_still(v, r.id) {
        false
    } else {
        match (lookup(mask_entries(c), l.data@), lookup(mask_entries(c), r.data@), projection_for(c, l.data@, r.data@)) {
            (Some(lm), Some(rm), Some(t)) => {
                let ox = l.pos.x + lm.offset.x - r.pos.x - rm.offset.x;
                let oy = l.pos.y + lm.offset.y - r.pos.y - rm.offset.y;
                let ix = ox + lm.dimensions[0] - 1;
                let iy = oy + lm.dimensions[1] - 1;
                if ix < 0 || iy < 0 {
                    true
                } else if ix >= t.dimensions[0] || iy >= t.dimensions[1] {
                    true
                } else {
                    let index = iy + t.dimensions[1] * ix;
                    if index < t.cells@.len() {
                        t.cells@[index]
                    } else {
                        true
                    }
                }
            },
            _ => false,
        }
    }
}

/// The box of an entity grown by where its movement takes it.
pub open spec fn expanded_bounds(v: WorldView, other: Entity, b: (Coord, Coord)) -> (Coord, Coord) {
    match movement_of(v, other.id) {
        None => b,
        Some(m) => {
            let p1 = coord_step(b.0, m.direction);
            let p2 = coord_step(b.1, m.direction);
            let p3 = coord_step(other.pos, m.to);
            (cmin(cmin(cmin(b.0, p1), p2), p3), cmax(cmax(cmax(b.1, p1), p2), p3))
        },
    }
}

/// Some claim of the first list conflicts with one of the second.
pub open spec fn claims_conflict(a: Seq<Occupancy>, b: Seq<Occupancy>) -> bool {
    exists|i: int, j: int| 0 <= i < a.len() && 0 <= j < b.len() && !compatible_spec(#[trigger] a[i], #[trigger] b[j])
}

/// Entities a clearance test passes over: the entity itself and what is
/// attached to it, the fork when asked, decorations, entities translating
/// alongside at the same speed, and islands compatible in projection.
pub open spec fn passed_over(v: WorldView, c: Campaign, e: Entity, other: Entity, same_motion: Option<(Direction, i32)>, ignore_fork: bool) -> bool {
    ||| other.id == e.id
    ||| other.stuck_to == e.id
    ||| (ignore_fork && other.entity_type == EntityType::Fork)
    ||| decoration(v, other)
    ||| (match same_motion {
        Some((d, speed)) => match movement_of(v, other.id) {
            Some(m) => m.kind == MovementKind::Translation && m.direction == d && m.speed == speed,
            None => false,
        },
        None => false,
    })
    ||| projection_compatible(v, c, e, other)
}

/// Whether the claims stay clear of one other entity, or the error met.
pub open spec fn clear_of(v: WorldView, c: Campaign, e: Entity, occ: Seq<Occupancy>, b: (Coord, Coord), same_motion: Option<(Direction, i32)>, ignore_fork: bool, other: Entity) -> Result<bool, Seq<char>> {
    if passed_over(v, c, e, other, same_motion, ignore_fork) {
        Ok(true)
    } else {
        match bounds_of(v, c, other) {
            Err(message) => Err(message),
            Ok(ob) => {
                let (low, high) = expanded_bounds(v, other, ob);
                if !boxes_meet(b.0, b.1, low, high) {
                    Ok(true)
                } else {
                    match occupancy_of(v, c, other) {
                        Err(message) => Err(message),
                        Ok(others) => Ok(!claims_conflict(occ, others)),
                    }
                }
            },
        }
    }
}

/// The clearance test over the entities from index `k` on, stopping at the
/// first conflict or error.
pub open spec fn clear_from(v: WorldView, c: Campaign, e: Entity, occ: Seq<Occupancy>, b: (Coord, Coord), same_motion: Option<(Direction, i32)>, ignore_fork: bool, k: int) -> Result<bool, Seq<char>>
    decreases v.entities.len() - k,
{
    if k < 0 || k >= v.entities.len() {
        Ok(true)
    } else {
        match clear_of(v, c, e, occ, b, same_motion, ignore_fork, v.entities[k]) {
            Err(message) => Err(message),
            Ok(false) => Ok(false),
            Ok(true) => clear_from(v, c, e, occ, b, same_motion, ignore_fork, k + 1),
        }
    }
}

/// Whether claims of entity `id` are clear of every other entity.
pub open spec fn clear_spec(v: WorldView, c: Campaign, id: i32, occ: Seq<Occupancy>, same_motion: Option<(Direction, i32)>, ignore_fork: bool) -> Result<bool, Seq<char>> {
    match entity_of(v, id) {
        None => Err(unknown_entity_text(id)),
        Some(e) => match claims_bounds(occ) {
            None => Ok(true),
            Some(b) => clear_from(v, c, e, occ, b, same_motion, ignore_fork, 0),
        },
    }
}

/// The claims can be compared with every other entity's without overflow.
pub open spec fn clear_ok(v: WorldView, c: Campaign, occ: Seq<Occupancy>) -> bool {
    forall|k: int|
        0 <= k < v.entities.len() ==> match occupancy_of(v, c, #[trigger] v.entities[k]) {
            Ok(others) => forall|i: int, j: int| 0 <= i < occ.len() && 0 <= j < others.len() ==> compatible_ok(#[trigger] occ[i], #[trigger] others[j]),
            Err(_) => true,
        }
}

/// Every claim of entity `id`.
pub open spec fn occupancy_spec(v: WorldView, c: Campaign, id: i32) -> Result<Seq<Occupancy>, Seq<char>> {
    match entity_of(v, id) {
        None => Err(unknown_entity_text(id)),
        Some(e) => occupancy_of(v, c, e),
    }
}

/// Whether the movement of `id`, or of what it is attached to, runs into
/// another entity.
pub open spec fn collides_spec(v: WorldView, c: Campaign, id: i32, ignore_fork: bool) -> Result<bool, Seq<char>> {
    match movement_of(v, id) {
        None => Err("entity "@ + int_text(id as int) + " has no movement to collision-test"@),
        Some(m) => if (entity_of(v, id) matches Some(e) && e.entity_type == EntityType::Fork && e.stuck_to == v.player_id) {
            Ok(false)
        } else {
            match occupancy_spec(v, c, id) {
                Err(message) => Err(message),
                Ok(occ) => match clear_spec(v, c, id, occ, Some((m.direction, m.speed)), ignore_fork) {
                    Err(message) => Err(message),
                    Ok(false) => Ok(true),
                    Ok(true) => match entity_of(v, id) {
                        None => Err(unknown_entity_text(id)),
                        Some(e) => if e.stuck_to >= 0 && movement_of(v, e.stuck_to) is Some {
                            let am = movement_of(v, e.stuck_to)->0;
                            match occupancy_spec(v, c, e.stuck_to) {
                                Err(message) => Err(message),
                                Ok(attached) => match clear_spec(v, c, e.stuck_to, attached, Some((am.direction, am.speed)), ignore_fork) {
                                    Err(message) => Err(message),
                                    Ok(clear) => Ok(!clear),
                                },
                            }
                        } else {
                            Ok(false)
                        },
                    },
                },
            }
        },
    }
}

/// What testing the movement of `id` for collisions compares is free of
/// overflow.
pub open spec fn collides_ok(v: WorldView, c: Campaign, id: i32) -> bool {
    &&& occupancy_spec(v, c, id) matches Ok(occ) ==> clear_ok(v, c, occ)
    &&& entity_of(v, id) matches Some(e) ==> (occupancy_spec(v, c, e.stuck_to) matches Ok(attached) ==> clear_ok(v, c, attached))
}


fn projection_named<'b>(tables: &'b Vec<(String, Vec<(String, ProjectionCompatibility)>)>, outer: &str, inner: &str) -> (r: Option<&'b ProjectionCompatibility>)
    ensures
        match r {
            Some(t) => match lookup(
                tables@.map_values(|p: (String, Vec<(String, ProjectionCompatibility)>)| (p.0@, p.1@.map_values(|q: (String, ProjectionCompatibility)| (q.0@, q.1)))),
                outer@,
            ) {
                Some(found) => lookup(found, inner@) == Some(*t),
                None => false,
            },
            None => match lookup(
                tables@.map_values(|p: (String, Vec<(String, ProjectionCompatibility)>)| (p.0@, p.1@.map_values(|q: (String, ProjectionCompatibility)| (q.0@, q.1)))),
                outer@,
            ) {
                Some(found) => lookup(found, inner@) is None,
                None => true,
            },
        },
{
    let ghost all = tables@.map_values(|p: (String, Vec<(String, ProjectionCompatibility)>)| (p.0@, p.1@.map_values(|q: (String, ProjectionCompatibility)| (q.0@, q.1))));
    let mut i = tables.len();
    assert(all.take(i as int) =~= all);
    while i > 0
        invariant
            i <= tables@.len(),
            all == tables@.map_values(|p: (String, Vec<(String, ProjectionCompatibility)>)| (p.0@, p.1@.map_values(|q: (String, ProjectionCompatibility)| (q.0@, q.1)))),
            lookup(all, outer@) == lookup(all.take(i as int), outer@),
        decreases i,
    {
        assert(all.take(i as int).drop_last() =~= all.take(i - 1));
        if crate::text::str_eq(tables[i - 1].0.as_str(), outer) {
            let found = &tables[i - 1].1;
            let ghost entries = found@.map_values(|q: (String, ProjectionCompatibility)| (q.0@, q.1));
            assert(all[i - 1].1 == entries);
            assert(lookup(all, outer@) == Some(entries));
            let mut k = found.len();
            assert(entries.take(k as int) =~= entries);
            while k > 0
                invariant
                    all == tables@.map_values(|p: (String, Vec<(String, ProjectionCompatibility)>)| (p.0@, p.1@.map_values(|q: (String, ProjectionCompatibility)| (q.0@, q.1)))),
                    lookup(all, outer@) == Some(entries),
                    k <= found@.len(),
                    entries == found@.map_values(|q: (String, ProjectionCompatibility)| (q.0@, q.1)),
                    lookup(entries, inner@) == lookup(entries.take(k as int), inner@),
                decreases k,
            {
                assert(entries.take(k as int).drop_last() =~= entries.take(k - 1));
                if crate::text::str_eq(found[k - 1].0.as_str(), inner) {
                    return Some(&found[k - 1].1);
                }
                k -= 1;
            }
            return None;
        }
        i -= 1;
    }
    None
}

fn claims_clash(a: &Vec<Occupancy>, b: &Vec<Occupancy>) -> (r: bool)
    requires
        forall|i: int, j: int| 0 <= i < a@.len() && 0 <= j < b@.len() ==> compatible_ok(#[trigger] a@[i], #[trigger] b@[j]),
    ensures
        r == claims_conflict(a@, b@),
{
    let mut i: usize = 0;
    while i < a.len()
        invariant
            i <= a@.len(),
            forall|i2: int, j: int| 0 <= i2 < a@.len() && 0 <= j < b@.len() ==> compatible_ok(#[trigger] a@[i2], #[trigger] b@[j]),
            forall|i2: int, j: int| 0 <= i2 < i && 0 <= j < b@.len() ==> compatible_spec(#[trigger] a@[i2], #[trigger] b@[j]),
        decreases a@.len() - i,
    {
        let mut j: usize = 0;
        while j < b.len()
            invariant
                i < a@.len(),
                j <= b@.len(),
                forall|i2: int, j2: int| 0 <= i2 < a@.len() && 0 <= j2 < b@.len() ==> compatible_ok(#[trigger] a@[i2], #[trigger] b@[j2]),
                forall|j2: int| 0 <= j2 < j ==> compatible_spec(a@[i as int], #[trigger] b@[j2]),
            decreases b@.len() - j,
        {
            assert(compatible_ok(a@[i as int], b@[j as int]));
            if a[i].overlaps(b[j]) {
                return true;
            }
            j += 1;
        }
        i += 1;
    }
    false
}

impl<'a> PhysicsWorld<'a> {
    fn occupancy_of_entity(&self, entity: &Entity) -> (r: Result<Vec<Occupancy>, String>)
        requires
            world_small(self.view(), self.campaign_of()),
            motions_ok(self.view()),
            small(entity.pos),
        ensures
            match occupancy_of(self.view(), self.campaign_of(), *entity) {
                Ok(occ) => r is Ok && r->Ok_0@ == occ,
                Err(message) => r is Err && r->Err_0@ == message,
            },
    {
        let movement = match movement_index(&self.movements, entity.id) {
            Some(j) => Some(self.movements[j]),
            None => None,
        };
        proof {
            if let Some(m) = movement {
                let j = movement_index_of(self.movements@, entity.id)->0;
                lemma_movement_index_of(self.movements@, entity.id);
                assert(position_ok(self.movements@[j]));
            }
            crate::sausage::physics::lemma_delta_bounds(entity.direction);
        }
        if entity.entity_type != EntityType::Island {
            return Ok(occupancy_for(entity, movement, self.fork_id.is_none()));
        }
        let cells = match self.footprint_of_entity(entity) {
            Ok(c) => c,
            Err(message) => {
                return Err(message);
            },
        };
        match movement {
            Some(m) => {
                if m.kind == MovementKind::Translation {
                    proof {
                        assert forall|i: int| 0 <= i < cells@.len() implies within(#[trigger] cells@[i], 1) by {
                            assert(within(cells@[i], 2));
                        }
                    }
                    return Ok(translation_occupancy(&cells, m));
                }
            },
            None => {},
        }
        let mut out: Vec<Occupancy> = Vec::new();
        let mut i: usize = 0;
        while i < cells.len()
            invariant
                i <= cells@.len(),
                out@ == cells@.take(i as int).map_values(|p: Coord| still_claim(p)),
            decreases cells@.len() - i,
        {
            out.push(Occupancy::new(cells[i], Direction::NoDirection, true, Fraction::zero(), 0));
            assert(out@ =~= cells@.take(i + 1).map_values(|p: Coord| still_claim(p)));
            i += 1;
        }
        assert(cells@.take(i as int) =~= cells@);
        Ok(out)
    }

    /// Every claim of an entity; see [`occupancy_of`].
    pub fn occupancy(&self, id: i32) -> (r: Result<Vec<Occupancy>, String>)
        requires
            world_small(self.view(), self.campaign_of()),
            motions_ok(self.view()),
        ensures
            match occupancy_spec(self.view(), self.campaign_of(), id) {
                Ok(occ) => r is Ok && r->Ok_0@ == occ,
                Err(message) => r is Err && r->Err_0@ == message,
            },
    {
        let entity = match self.entity_or_error(id) {
            Ok(e) => e,
            Err(message) => {
                return Err(message);
            },
        };
        proof {
            lemma_entity_index_of(self.entities@, id);
        }
        self.occupancy_of_entity(entity)
    }

    /// See [`projection_compatible`].
    fn island_projection_compatible(&self, left: &Entity, right: &Entity) -> (r: bool)
        requires
            world_small(self.view(), self.campaign_of()),
            small(left.pos),
            small(right.pos),
        ensures
            r == projection_compatible(self.view(), self.campaign_of(), *left, *right),
    {
        if left.entity_type != EntityType::Island || right.entity_type != EntityType::Island {
            return false;
        }
        let left_vertical = match movement_index(&self.movements, left.id) {
            Some(j) => self.movements[j].direction.parallel_to(Direction::Up),
            None => true,
        };
        let right_vertical = match movement_index(&self.movements, right.id) {
            Some(j) => self.movements[j].direction.parallel_to(Direction::Up),
            None => true,
        };
        if !left_vertical || !right_vertical {
            return false;
        }
        let left_mask = match mask_named(&self.campaign.island_masks, left.data.as_str()) {
            Some(m) => m,
            None => {
                return false;
            },
        };
        let right_mask = match mask_named(&self.campaign.island_masks, right.data.as_str()) {
            Some(m) => m,
            None => {
                return false;
            },
        };
        let table = match projection_named(&self.campaign.projection_compatibilities, left.data.as_str(), right.data.as_str()) {
            Some(t) => t,
            None => {
                return false;
            },
        };
        proof {
            lemma_mask_small(self.view(), self.campaign_of(), left.data@);
            lemma_mask_small(self.view(), self.campaign_of(), right.data@);
            let tables = projection_entries(self.campaign_of());
            lemma_lookup_member(tables, left.data@);
            let found = lookup(tables, left.data@)->0;
            let oi = choose|i: int| 0 <= i < tables.len() && (#[trigger] tables[i]).1 == found;
            lemma_lookup_member(found, right.data@);
            let ij = choose|j: int| 0 <= j < found.len() && (#[trigger] found[j]).1 == *table;
            assert(tables[oi].1[ij].1 == *table);
        }
        let offset_x = left.pos.x + left_mask.offset.x - right.pos.x - right_mask.offset.x;
        let offset_y = left.pos.y + left_mask.offset.y - right.pos.y - right_mask.offset.y;
        let index_x = offset_x + left_mask.dimensions[0] as i32 - 1;
        let index_y = offset_y + left_mask.dimensions[1] as i32 - 1;
        if index_x < 0 || index_y < 0 {
            return true;
        }
        let ix = index_x as usize;
        let iy = index_y as usize;
        if ix >= table.dimensions[0] || iy >= table.dimensions[1] {
            return true;
        }
        proof {
            let (w, h) = (table.dimensions[0] as int, table.dimensions[1] as int);
            assert(iy + h * ix < w * h) by (nonlinear_arith)
                requires
                    0 <= ix < w,
                    0 <= iy < h,
            ;
            assert(h * ix <= w * h) by (nonlinear_arith)
                requires
                    0 <= ix < w,
                    0 <= h,
            ;
        }
        let index = iy + table.dimensions[1] * ix;
        if index < table.cells.len() {
            table.cells[index]
        } else {
            true
        }
    }

    fn expanded(&self, other: &Entity, low: Coord, high: Coord) -> (r: (Coord, Coord))
        requires
            within(low, 2),
            within(high, 2),
            small(other.pos),
        ensures
            r == expanded_bounds(self.view(), *other, (low, high)),
    {
        match movement_index(&self.movements, other.id) {
            None => (low, high),
            Some(j) => {
                let m = self.movements[j];
                proof {
                    crate::sausage::physics::lemma_delta_bounds(m.direction);
                    crate::sausage::physics::lemma_delta_bounds(m.to);
                }
                let p1 = low.step(m.direction);
                let p2 = high.step(m.direction);
                let p3 = other.pos.step(m.to);
                let mut a = low_corner(low, p1);
                a = low_corner(a, p2);
                a = low_corner(a, p3);
                let mut b = high_corner(high, p1);
                b = high_corner(b, p2);
                b = high_corner(b, p3);
                (a, b)
            },
        }
    }

    /// Whether the claims of entity `id` stay clear of every other entity;
    /// see [`clear_spec`].
    fn occupancy_is_clear(&self, id: i32, occupancy: &Vec<Occupancy>, same_motion: Option<(Direction, i32)>, ignore_fork: bool) -> (r: Result<bool, String>)
        requires
            world_small(self.view(), self.campaign_of()),
            motions_ok(self.view()),
            clear_ok(self.view(), self.campaign_of(), occupancy@),
        ensures
            match clear_spec(self.view(), self.campaign_of(), id, occupancy@, same_motion, ignore_fork) {
                Ok(b) => r == Ok::<bool, String>(b),
                Err(message) => r is Err && r->Err_0@ == message,
            },
    {
        let entity = match self.entity_or_error(id) {
            Ok(e) => e,
            Err(message) => {
                return Err(message);
            },
        };
        proof {
            lemma_entity_index_of(self.entities@, id);
        }
        let bounds = match occupancy_bounds(occupancy) {
            Some(b) => b,
            None => {
                return Ok(true);
            },
        };
        let ghost v = self.view();
        let ghost c = self.campaign_of();
        proof {
            let i = entity_index_of(v.entities, id)->0;
            assert(small(v.entities[i].pos));
        }
        let mut k: usize = 0;
        while k < self.entities.len()
            invariant
                small(entity.pos),
                entity.id == id,
                v == self.view(),
                c == self.campaign_of(),
                world_small(v, c),
                motions_ok(v),
                clear_ok(v, c, occupancy@),
                entity_of(v, id) == Some(*entity),
                claims_bounds(occupancy@) == Some(bounds),
                k <= v.entities.len(),
                clear_spec(v, c, id, occupancy@, same_motion, ignore_fork) == clear_from(v, c, *entity, occupancy@, bounds, same_motion, ignore_fork, k as int),
            decreases v.entities.len() - k,
        {
            let other = &self.entities[k];
            assert(small(v.entities[k as int].pos));
            let same = match same_motion {
                Some((direction, speed)) => match movement_index(&self.movements, other.id) {
                    Some(j) => self.movements[j].kind == MovementKind::Translation && self.movements[j].direction == direction
                        && self.movements[j].speed == speed,
                    None => false,
                },
                None => false,
            };
            let decoration = other.entity_type == EntityType::Ground && !(self.tile_set == 4 && ((7 <= other.tile_set
                && other.tile_set <= 9 && 4 <= other.tile_number && other.tile_number <= 7) || (other.tile_set == 9
                && other.tile_number < 4))) && ((self.tile_set == 0 && (other.tile_set == 5 || other.tile_set == 13)
                && other.tile_number >= 6) || (7 <= other.tile_set && other.tile_set <= 9));
            assert(decoration == crate::sausage::world::decoration(v, *other));
            if other.id == id || other.stuck_to == id || (ignore_fork && other.entity_type == EntityType::Fork)
                || decoration || same || self.island_projection_compatible(entity, other) {
                k += 1;
                continue;
            }
            let (low, high) = match self.bounds_of_entity(other) {
                Ok(b) => b,
                Err(message) => {
                    return Err(message);
                },
            };
            let (low, high) = self.expanded(other, low, high);
            if !bounds_overlap(bounds.0, bounds.1, low, high) {
                k += 1;
                continue;
            }
            let others = match self.occupancy_of_entity(other) {
                Ok(o) => o,
                Err(message) => {
                    return Err(message);
                },
            };
            proof {
                assert(occupancy_of(v, c, v.entities[k as int]) == Ok::<Seq<Occupancy>, Seq<char>>(others@));
            }
            if claims_clash(occupancy, &others) {
                return Ok(false);
            }
            k += 1;
        }
        Ok(true)
    }

    /// Whether the claims `occ` can be compared with every claim of every
    /// entity without overflow; see [`clear_ok`].
    fn claims_clear(&self, occ: &Vec<Occupancy>) -> (r: bool)
        requires
            world_small(self.view(), self.campaign_of()),
            motions_ok(self.view()),
        ensures
            r ==> clear_ok(self.view(), self.campaign_of(), occ@),
    {
        let ghost v = self.view();
        let ghost c = self.campaign_of();
        let mut k: usize = 0;
        while k < self.entities.len()
            invariant
                v == self.view(),
                c == self.campaign_of(),
                world_small(v, c),
                motions_ok(v),
                k <= v.entities.len(),
                forall|q: int|
                    0 <= q < k ==> match occupancy_of(v, c, #[trigger] v.entities[q]) {
                        Ok(others) => forall|i: int, j: int|
                            0 <= i < occ@.len() && 0 <= j < others.len() ==> compatible_ok(#[trigger] occ@[i], #[trigger] others[j]),
                        Err(_) => true,
                    },
            decreases v.entities.len() - k,
        {
            assert(small(v.entities[k as int].pos));
            if let Ok(others) = self.occupancy_of_entity(&self.entities[k]) {
                let mut i: usize = 0;
                while i < occ.len()
                    invariant
                        i <= occ@.len(),
                        forall|a: int, b: int|
                            0 <= a < i && 0 <= b < others@.len() ==> compatible_ok(#[trigger] occ@[a], #[trigger] others@[b]),
                    decreases occ@.len() - i,
                {
                    let mut j: usize = 0;
                    while j < others.len()
                        invariant
                            i < occ@.len(),
                            j <= others@.len(),
                            forall|a: int, b: int|
                                0 <= a < i && 0 <= b < others@.len() ==> compatible_ok(#[trigger] occ@[a], #[trigger] others@[b]),
                            forall|b: int| 0 <= b < j ==> compatible_ok(occ@[i as int], #[trigger] others@[b]),
                        decreases others@.len() - j,
                    {
                        if !crate::sausage::physics::comparable(occ[i], others[j]) {
                            return false;
                        }
                        j += 1;
                    }
                    i += 1;
                }
            }
            k += 1;
        }
        true
    }

    /// Whether testing the movement of `id` for collisions stays in range;
    /// see [`collides_ok`].
    pub fn collides_fit(&self, id: i32) -> (r: bool)
        requires
            world_small(self.view(), self.campaign_of()),
            motions_ok(self.view()),
        ensures
            r ==> collides_ok(self.view(), self.campaign_of(), id),
    {
        if let Ok(occ) = self.occupancy(id) {
            if !self.claims_clear(&occ) {
                return false;
            }
        }
        if let Some(i) = entity_index(&self.entities, id) {
            proof {
                lemma_entity_index_of(self.entities@, id);
            }
            if let Ok(attached) = self.occupancy(self.entities[i].stuck_to) {
                if !self.claims_clear(&attached) {
                    return false;
                }
            }
        } else {
            proof {
                lemma_entity_index_of(self.entities@, id);
            }
        }
        true
    }

    /// Whether the movement of `id`, or of what it is attached to, runs into
    /// another entity; see [`collides_spec`].
    pub fn collides(&self, id: i32, ignore_fork: bool) -> (r: Result<bool, String>)
        requires
            world_small(self.view(), self.campaign_of()),
            motions_ok(self.view()),
            collides_ok(self.view(), self.campaign_of(), id),
        ensures
            match collides_spec(self.view(), self.campaign_of(), id, ignore_fork) {
                Ok(b) => r == Ok::<bool, String>(b),
                Err(message) => r is Err && r->Err_0@ == message,
            },
    {
        let movement = match movement_index(&self.movements, id) {
            Some(j) => self.movements[j],
            None => {
                let mut message = String::from_str("entity ");
                append_int(&mut message, id as i64);
                message.append(" has no movement to collision-test");
                return Err(message);
            },
        };
        proof {
            lemma_entity_index_of(self.entities@, id);
        }
        match entity_index(&self.entities, id) {
            Some(i) => {
                if self.entities[i].entity_type == EntityType::Fork && self.entities[i].stuck_to == self.player_id {
                    return Ok(false);
                }
            },
            None => {},
        }
        let occupancy = match self.occupancy(id) {
            Ok(o) => o,
            Err(message) => {
                return Err(message);
            },
        };
        match self.occupancy_is_clear(id, &occupancy, Some((movement.direction, movement.speed)), ignore_fork) {
            Ok(true) => {},
            Ok(false) => {
                return Ok(true);
            },
            Err(message) => {
                return Err(message);
            },
        }
        let entity = match self.entity_or_error(id) {
            Ok(e) => e,
            Err(message) => {
                return Err(message);
            },
        };
        if entity.stuck_to >= 0 {
            match movement_index(&self.movements, entity.stuck_to) {
                Some(j) => {
                    let attached = self.movements[j];
                    let attached_occupancy = match self.occupancy(entity.stuck_to) {
                        Ok(o) => o,
                        Err(message) => {
                            return Err(message);
                        },
                    };
                    return match self.occupancy_is_clear(entity.stuck_to, &attached_occupancy, Some((attached.direction, attached.speed)), ignore_fork) {
                        Ok(clear) => Ok(!clear),
                        Err(message) => Err(message),
                    };
                },
                None => {},
            }
        }
        Ok(false)
    }
}


/// A movement made only to ask where a step would lead.
pub open spec fn trial_translation(e: Entity, direction: Direction, speed: i32) -> Movement {
    Movement {
        target_id: e.id,
        kind: MovementKind::Translation,
        direction,
        torsion: 0,
        remaining: duration_spec(speed as int),
        speed,
        from: Direction::NoDirection,
        to: Direction::NoDirection,
        animation: Animation::Idle,
        left: true,
        tower_level: 0,
        pure_direct_force: false,
    }
}

/// The claims an entity that is not moving would make stepping in
/// `direction` at `speed`.
pub open spec fn trial_claims(v: WorldView, c: Campaign, id: i32, direction: Direction, speed: i32) -> Result<Seq<Occupancy>, Seq<char>> {
    match entity_of(v, id) {
        None => Err(unknown_entity_text(id)),
        Some(e) => if movement_of(v, id) is Some {
            Err("entity "@ + int_text(id as int) + " is already moving"@)
        } else {
            let m = trial_translation(e, direction, speed);
            if e.entity_type == EntityType::Island {
                match footprint_of(v, c, e) {
                    Err(message) => Err(message),
                    Ok(cells) => Ok(island_claims(cells, m, cells.len() as int)),
                }
            } else {
                Ok(claims_spec(e, Some(m), v.fork_id is None))
            }
        },
    }
}

/// Whether the voxel of an island at a world position is solid.
pub open spec fn island_contains(c: Campaign, e: Entity, pos: Coord) -> Result<bool, Seq<char>> {
    match lookup(mask_entries(c), e.data@) {
        None => Err(no_mask_text(e)),
        Some(m) => {
            let local = coord_diff(coord_diff(pos, e.pos), m.offset);
            Ok(solid(match m.get_spec(local) { Some(x) => x, None => 0 }, e.cook_data != 0))
        },
    }
}

/// Whether entity `id` stands on a cell.
pub open spec fn source_contains_spec(v: WorldView, c: Campaign, id: i32, pos: Coord) -> Result<bool, Seq<char>> {
    match entity_of(v, id) {
        None => Err(unknown_entity_text(id)),
        Some(e) => if e.entity_type != EntityType::Island {
            Ok(footprint_spec(e, v.fork_id is None).contains(pos))
        } else {
            island_contains(c, e, pos)
        },
    }
}

/// Whether entity `id` is at a cell: on it now, or, once its movement has
/// begun, on the cell it is moving to.
pub open spec fn at_spec(v: WorldView, c: Campaign, id: i32, pos: Coord, instant: bool) -> Result<bool, Seq<char>> {
    match source_contains_spec(v, c, id, pos) {
        Err(message) => Err(message),
        Ok(true) => Ok(true),
        Ok(false) => match movement_of(v, id) {
            None => Ok(false),
            Some(m) => if (instant && m.remaining.numerator * ticks(m.speed as int) == m.remaining.denominator)
                || m.direction == Direction::NoDirection {
                Ok(false)
            } else {
                match m.kind {
                    MovementKind::Translation => source_contains_spec(v, c, id, coord_diff(pos, delta_spec(m.direction))),
                    MovementKind::Rotation | MovementKind::Pivot => match entity_of(v, id) {
                        None => Err(unknown_entity_text(id)),
                        Some(e) => Ok(coord_step(e.pos, m.to) == pos),
                    },
                    MovementKind::NoMovement => Ok(false),
                }
            },
        },
    }
}

/// What `at` computes is free of overflow and of invalid speeds.
pub open spec fn at_ok(v: WorldView, id: i32, pos: Coord, instant: bool) -> bool {
    &&& small(pos)
    &&& movement_of(v, id) matches Some(m) ==> (instant ==> speed_ok(m.speed as int)
        && i64::MIN <= m.remaining.numerator * ticks(m.speed as int) <= i64::MAX)
}

/// The ids of the entities, decorations aside, at a cell, in entity order;
/// the first error met instead.
pub open spec fn entities_at_from(v: WorldView, c: Campaign, pos: Coord, instant: bool, k: int) -> Result<Seq<i32>, Seq<char>>
    decreases k,
{
    if k <= 0 {
        Ok(Seq::empty())
    } else {
        match entities_at_from(v, c, pos, instant, k - 1) {
            Err(message) => Err(message),
            Ok(ids) => {
                let e = v.entities[k - 1];
                if decoration(v, e) {
                    Ok(ids)
                } else {
                    match at_spec(v, c, e.id, pos, instant) {
                        Err(message) => Err(message),
                        Ok(true) => Ok(ids.push(e.id)),
                        Ok(false) => Ok(ids),
                    }
                }
            },
        }
    }
}

proof fn lemma_entities_at_error(v: WorldView, c: Campaign, pos: Coord, instant: bool, k: int, message: Seq<char>)
    requires
        0 <= k <= v.entities.len(),
        entities_at_from(v, c, pos, instant, k) == Err::<Seq<i32>, Seq<char>>(message),
    ensures
        entities_at_from(v, c, pos, instant, v.entities.len() as int) == Err::<Seq<i32>, Seq<char>>(message),
    decreases v.entities.len() - k,
{
    if k < v.entities.len() {
        lemma_entities_at_error(v, c, pos, instant, k + 1, message);
    }
}

proof fn lemma_fresh_position_ok(e: Entity, direction: Direction, speed: i32)
    requires
        speed_ok(speed as int),
    ensures
        position_ok(trial_translation(e, direction, speed)),
{
    crate::sausage::physics::lemma_duration_value(speed as int);
    let r = duration_spec(speed as int);
    if speed < 32 {
        vstd::bits::lemma_u32_pow2_no_overflow((speed - 1) as nat);
        vstd::arithmetic::power2::lemma_pow2_pos((speed - 1) as nat);
        assert(r.numerator == 1);
        assert(r.denominator > 0);
        assert(r.numerator * speed == speed);
    } else {
        assert(r.numerator * speed == -32);
    }
}

impl<'a> PhysicsWorld<'a> {
    /// The claims entity `id` would make stepping in `direction` at
    /// `speed`; see [`trial_claims`].
    pub fn mock_translation_occupancy(&self, id: i32, direction: Direction, speed: i32) -> (r: Result<Vec<Occupancy>, String>)
        requires
            world_small(self.view(), self.campaign_of()),
            speed_ok(speed as int),
        ensures
            match trial_claims(self.view(), self.campaign_of(), id, direction, speed) {
                Ok(occ) => r is Ok && r->Ok_0@ == occ,
                Err(message) => r is Err && r->Err_0@ == message,
            },
    {
        let entity = match self.entity_or_error(id) {
            Ok(e) => e,
            Err(message) => {
                return Err(message);
            },
        };
        proof {
            lemma_entity_index_of(self.entities@, id);
            let i = entity_index_of(self.entities@, id)->0;
            assert(small(self.entities@[i].pos));
        }
        if movement_index(&self.movements, id).is_some() {
            let mut message = String::from_str("entity ");
            append_int(&mut message, id as i64);
            message.append(" is already moving");
            return Err(message);
        }
        let movement = Movement::translation(entity, direction, 0, speed, Animation::Idle, true, 0);
        proof {
            lemma_fresh_position_ok(*entity, direction, speed);
            assert(movement.torsion == 0);
            assert(movement == trial_translation(*entity, direction, speed));
            crate::sausage::physics::lemma_delta_bounds(entity.direction);
        }
        if entity.entity_type == EntityType::Island {
            let cells = match self.footprint_of_entity(entity) {
                Ok(c) => c,
                Err(message) => {
                    return Err(message);
                },
            };
            proof {
                assert forall|i: int| 0 <= i < cells@.len() implies within(#[trigger] cells@[i], 1) by {
                    assert(within(cells@[i], 2));
                }
            }
            Ok(translation_occupancy(&cells, movement))
        } else {
            Ok(occupancy_for(entity, Some(movement), self.fork_id.is_none()))
        }
    }

    /// Whether entity `id` could step in `direction` at `speed` without
    /// running into anything.
    pub fn could_translate(&self, id: i32, direction: Direction, speed: i32) -> (r: Result<bool, String>)
        requires
            world_small(self.view(), self.campaign_of()),
            motions_ok(self.view()),
            speed_ok(speed as int),
            trial_claims(self.view(), self.campaign_of(), id, direction, speed) matches Ok(occ) ==> clear_ok(self.view(), self.campaign_of(), occ),
        ensures
            match trial_claims(self.view(), self.campaign_of(), id, direction, speed) {
                Err(message) => r is Err && r->Err_0@ == message,
                Ok(occ) => match clear_spec(self.view(), self.campaign_of(), id, occ, Some((direction, speed)), false) {
                    Ok(b) => r == Ok::<bool, String>(b),
                    Err(message) => r is Err && r->Err_0@ == message,
                },
            },
    {
        let proposed = match self.mock_translation_occupancy(id, direction, speed) {
            Ok(p) => p,
            Err(message) => {
                return Err(message);
            },
        };
        self.occupancy_is_clear(id, &proposed, Some((direction, speed)), false)
    }

    /// The value of an island's mask at a world position, with the position
    /// in the mask's own coordinates.
    pub fn island_mask_value(&self, id: i32, world: Coord) -> (r: Result<(i32, Coord), String>)
        requires
            world_small(self.view(), self.campaign_of()),
            small(world),
        ensures
            match entity_of(self.view(), id) {
                None => r is Err && r->Err_0@ == unknown_entity_text(id),
                Some(e) => if e.entity_type != EntityType::Island {
                    r is Err && r->Err_0@ == "entity "@ + int_text(id as int) + " is not an island"@
                } else {
                    match lookup(mask_entries(self.campaign_of()), e.data@) {
                        None => r is Err && r->Err_0@ == no_mask_text(e),
                        Some(m) => {
                            let local = coord_diff(coord_diff(world, e.pos), m.offset);
                            r == Ok::<(i32, Coord), String>((match m.get_spec(local) { Some(x) => x, None => 0 }, local))
                        },
                    }
                },
            },
    {
        let entity = match self.entity_or_error(id) {
            Ok(e) => e,
            Err(message) => {
                return Err(message);
            },
        };
        proof {
            lemma_entity_index_of(self.entities@, id);
            let i = entity_index_of(self.entities@, id)->0;
            assert(small(self.entities@[i].pos));
        }
        if entity.entity_type != EntityType::Island {
            let mut message = String::from_str("entity ");
            append_int(&mut message, id as i64);
            message.append(" is not an island");
            return Err(message);
        }
        let mask = match self.island_mask(entity) {
            Ok(m) => m,
            Err(message) => {
                return Err(message);
            },
        };
        proof {
            lemma_mask_small(self.view(), self.campaign_of(), entity.data@);
        }
        let local = world.minus(entity.pos).minus(mask.offset);
        let value = match mask.get(local) {
            Some(v) => v,
            None => 0,
        };
        Ok((value, local))
    }

    fn source_contains(&self, id: i32, pos: Coord) -> (r: Result<bool, String>)
        requires
            world_small(self.view(), self.campaign_of()),
            near(pos),
        ensures
            match source_contains_spec(self.view(), self.campaign_of(), id, pos) {
                Ok(b) => r == Ok::<bool, String>(b),
                Err(message) => r is Err && r->Err_0@ == message,
            },
    {
        let entity = match self.entity_or_error(id) {
            Ok(e) => e,
            Err(message) => {
                return Err(message);
            },
        };
        proof {
            lemma_entity_index_of(self.entities@, id);
            let i = entity_index_of(self.entities@, id)->0;
            assert(small(self.entities@[i].pos));
            crate::sausage::physics::lemma_delta_bounds(entity.direction);
        }
        if entity.entity_type != EntityType::Island {
            let cells = entity.footprint(self.fork_id.is_none());
            return Ok(coords_contain(&cells, pos));
        }
        let mask = match self.island_mask(entity) {
            Ok(m) => m,
            Err(message) => {
                return Err(message);
            },
        };
        proof {
            lemma_mask_small(self.view(), self.campaign_of(), entity.data@);
        }
        let local = pos.minus(entity.pos).minus(mask.offset);
        let value = match mask.get(local) {
            Some(v) => v,
            None => 0,
        };
        Ok(value > 0 || (entity.cook_data == 0 && value == -1))
    }

    /// Whether entity `id` is at a cell; see [`at_spec`].
    pub fn at(&self, id: i32, pos: Coord, instant: bool) -> (r: Result<bool, String>)
        requires
            world_small(self.view(), self.campaign_of()),
            at_ok(self.view(), id, pos, instant),
        ensures
            match at_spec(self.view(), self.campaign_of(), id, pos, instant) {
                Ok(b) => r == Ok::<bool, String>(b),
                Err(message) => r is Err && r->Err_0@ == message,
            },
    {
        match self.source_contains(id, pos) {
            Ok(true) => {
                return Ok(true);
            },
            Ok(false) => {},
            Err(message) => {
                return Err(message);
            },
        }
        let movement = match movement_index(&self.movements, id) {
            Some(j) => self.movements[j],
            None => {
                return Ok(false);
            },
        };
        if (instant && movement.starting()) || movement.direction == Direction::NoDirection {
            return Ok(false);
        }
        match movement.kind {
            MovementKind::Translation => {
                proof {
                    crate::sausage::physics::lemma_delta_bounds(movement.direction);
                }
                self.source_contains(id, pos.minus(movement.direction.delta()))
            },
            MovementKind::Rotation | MovementKind::Pivot => {
                let entity = match self.entity_or_error(id) {
                    Ok(e) => e,
                    Err(message) => {
                        return Err(message);
                    },
                };
                proof {
                    lemma_entity_index_of(self.entities@, id);
                    let i = entity_index_of(self.entities@, id)->0;
                    assert(small(self.entities@[i].pos));
                    crate::sausage::physics::lemma_delta_bounds(movement.to);
                }
                Ok(entity.pos.step(movement.to) == pos)
            },
            MovementKind::NoMovement => Ok(false),
        }
    }

    /// The ids of the entities at a cell; see [`entities_at_from`].
    pub fn entities_at(&self, pos: Coord, instant: bool) -> (r: Result<Vec<i32>, String>)
        requires
            world_small(self.view(), self.campaign_of()),
            forall|i: int| 0 <= i < self.view().entities.len() ==> at_ok(self.view(), (#[trigger] self.view().entities[i]).id, pos, instant),
        ensures
            match entities_at_from(self.view(), self.campaign_of(), pos, instant, self.view().entities.len() as int) {
                Ok(ids) => r is Ok && r->Ok_0@ == ids,
                Err(message) => r is Err && r->Err_0@ == message,
            },
    {
        let ghost v = self.view();
        let ghost c = self.campaign_of();
        let mut out: Vec<i32> = Vec::new();
        let mut k: usize = 0;
        while k < self.entities.len()
            invariant
                v == self.view(),
                c == self.campaign_of(),
                world_small(v, c),
                forall|i: int| 0 <= i < v.entities.len() ==> at_ok(v, (#[trigger] v.entities[i]).id, pos, instant),
                k <= v.entities.len(),
                entities_at_from(v, c, pos, instant, k as int) == Ok::<Seq<i32>, Seq<char>>(out@),
            decreases v.entities.len() - k,
        {
            let other = &self.entities[k];
            assert(at_ok(v, v.entities[k as int].id, pos, instant));
            let decoration = other.entity_type == EntityType::Ground && !(self.tile_set == 4 && ((7 <= other.tile_set
                && other.tile_set <= 9 && 4 <= other.tile_number && other.tile_number <= 7) || (other.tile_set == 9
                && other.tile_number < 4))) && ((self.tile_set == 0 && (other.tile_set == 5 || other.tile_set == 13)
                && other.tile_number >= 6) || (7 <= other.tile_set && other.tile_set <= 9));
            assert(decoration == crate::sausage::world::decoration(v, *other));
            if !decoration {
                match self.at(other.id, pos, instant) {
                    Ok(true) => {
                        out.push(other.id);
                    },
                    Ok(false) => {},
                    Err(message) => {
                        proof {
                            lemma_entities_at_error(v, c, pos, instant, k + 1, message@);
                        }
                        return Err(message);
                    },
                }
            }
            k += 1;
        }
        Ok(out)
    }
}


/// The cells directly below where an entity stands: for an island, below
/// each solid voxel that has no solid voxel of its own right under it.
pub open spec fn lower_of(v: WorldView, c: Campaign, e: Entity) -> Result<Seq<Coord>, Seq<char>> {
    if e.entity_type != EntityType::Island {
        Ok(footprint_spec(e, v.fork_id is None).map_values(|p: Coord| coord_step(p, Direction::Down)))
    } else {
        match lookup(mask_entries(c), e.data@) {
            None => Err(no_mask_text(e)),
            Some(m) => {
                let completed = e.cook_data != 0;
                Ok(
                    mask_cells(m, completed, m.dimensions[0] as int).filter(
                        |l: Coord| keeps_lower(m, completed, l),
                    ).map_values(|l: Coord| coord_step(coord_sum(coord_sum(e.pos, m.offset), l), Direction::Down)),
                )
            },
        }
    }
}

/// An island voxel lies on the bottom layer or has no solid voxel below.
pub open spec fn keeps_lower(m: IslandMask, completed: bool, l: Coord) -> bool {
    l.z == 0 || !solid(
        match m.get_spec(Coord { z: (l.z - 1) as i32, ..l }) {
            Some(x) => x,
            None => 0,
        },
        completed,
    )
}

/// The cells one step from an entity's cells that it does not stand on.
pub open spec fn direct_border_of(v: WorldView, c: Campaign, e: Entity, d: Direction) -> Result<Seq<Coord>, Seq<char>> {
    match footprint_of(v, c, e) {
        Err(message) => Err(message),
        Ok(cells) => Ok(cells.map_values(|p: Coord| coord_step(p, d)).filter(|p: Coord| !cells.contains(p))),
    }
}

/// Coordinates ordered by `x`, then `y`, then `z`.
pub open spec fn coord_less(a: Coord, b: Coord) -> bool {
    a.x < b.x || (a.x == b.x && (a.y < b.y || (a.y == b.y && a.z < b.z)))
}

/// `p` placed into an ordered list without duplicates.
pub open spec fn insert_unique(s: Seq<Coord>, p: Coord) -> Seq<Coord>
    decreases s.len(),
{
    if s.len() == 0 {
        seq![p]
    } else if s[0] == p {
        s
    } else if coord_less(p, s[0]) {
        seq![p] + s
    } else {
        seq![s[0]] + insert_unique(s.drop_first(), p)
    }
}

/// The cells in order, each once.
pub open spec fn sorted_unique(s: Seq<Coord>) -> Seq<Coord>
    decreases s.len(),
{
    if s.len() == 0 {
        Seq::empty()
    } else {
        insert_unique(sorted_unique(s.drop_last()), s.last())
    }
}

/// The debug name of a direction.
pub open spec fn direction_debug(d: Direction) -> Seq<char> {
    match d {
        Direction::North => "North"@,
        Direction::South => "South"@,
        Direction::West => "West"@,
        Direction::East => "East"@,
        Direction::NorthEast => "NorthEast"@,
        Direction::SouthWest => "SouthWest"@,
        Direction::NorthWest => "NorthWest"@,
        Direction::SouthEast => "SouthEast"@,
        Direction::NoDirection => "None"@,
        Direction::Down => "Down"@,
        Direction::Up => "Up"@,
    }
}

pub(crate) fn direction_debug_text(d: Direction) -> (r: &'static str)
    ensures
        r@ == direction_debug(d),
{
    match d {
        Direction::North => "North",
        Direction::South => "South",
        Direction::West => "West",
        Direction::East => "East",
        Direction::NorthEast => "NorthEast",
        Direction::SouthWest => "SouthWest",
        Direction::NorthWest => "NorthWest",
        Direction::SouthEast => "SouthEast",
        Direction::NoDirection => "None",
        Direction::Down => "Down",
        Direction::Up => "Up",
    }
}

/// The border cells in a direction: the entity's own and, when it is
/// attached to a two-cell entity, that one's too, ordered and each once.
pub open spec fn border_spec(v: WorldView, c: Campaign, id: i32, d: Direction) -> Result<Seq<Coord>, Seq<char>> {
    if is_diagonal_spec(d) || d == Direction::NoDirection {
        Err("invalid border direction "@ + direction_debug(d))
    } else {
        match entity_of(v, id) {
            None => Err(unknown_entity_text(id)),
            Some(e) => match direct_border_of(v, c, e, d) {
                Err(message) => Err(message),
                Ok(own) => match entity_of(v, e.stuck_to) {
                    Some(t) => if extended_in(v, t) {
                        match direct_border_of(v, c, t, d) {
                            Err(message) => Err(message),
                            Ok(more) => Ok(sorted_unique(own + more)),
                        }
                    } else {
                        Ok(sorted_unique(own))
                    },
                    None => Ok(sorted_unique(own)),
                },
            },
        }
    }
}

/// Cells in strictly ascending order.
pub open spec fn ascending(s: Seq<Coord>) -> bool {
    forall|i: int, j: int| 0 <= i < j < s.len() ==> coord_less(#[trigger] s[i], #[trigger] s[j])
}

proof fn lemma_insert_unique_order(s: Seq<Coord>, p: Coord)
    requires
        ascending(s),
    ensures
        ascending(insert_unique(s, p)),
        forall|q: Coord| #[trigger] insert_unique(s, p).contains(q) <==> (s.contains(q) || q == p),
    decreases s.len(),
{
    if s.len() == 0 {
        assert(insert_unique(s, p) =~= seq![p]);
        assert forall|q: Coord| #[trigger] insert_unique(s, p).contains(q) <==> (s.contains(q) || q == p) by {
            if q == p {
                assert(insert_unique(s, p)[0] == p);
            }
        }
    } else if s[0] == p {
        assert forall|q: Coord| #[trigger] insert_unique(s, p).contains(q) <==> (s.contains(q) || q == p) by {
            if q == p {
                assert(s[0] == q);
            }
        }
    } else if coord_less(p, s[0]) {
        let r = seq![p] + s;
        assert forall|i: int, j: int| 0 <= i < j < r.len() implies coord_less(#[trigger] r[i], #[trigger] r[j]) by {
            if i > 0 {
                assert(r[i] == s[i - 1] && r[j] == s[j - 1]);
            } else {
                assert(r[j] == s[j - 1]);
                if j > 1 {
                    assert(coord_less(s[0], s[j - 1]));
                }
            }
        }
        assert forall|q: Coord| #[trigger] r.contains(q) <==> (s.contains(q) || q == p) by {
            if q == p {
                assert(r[0] == p);
            }
            if s.contains(q) {
                let k = choose|k: int| 0 <= k < s.len() && s[k] == q;
                assert(r[k + 1] == q);
            }
            if r.contains(q) && q != p {
                let k = choose|k: int| 0 <= k < r.len() && r[k] == q;
                assert(s[k - 1] == q);
            }
        }
    } else {
        let rest = s.drop_first();
        assert forall|i: int, j: int| 0 <= i < j < rest.len() implies coord_less(#[trigger] rest[i], #[trigger] rest[j]) by {
            assert(rest[i] == s[i + 1] && rest[j] == s[j + 1]);
        }
        lemma_insert_unique_order(rest, p);
        let inner = insert_unique(rest, p);
        let r = seq![s[0]] + inner;
        assert forall|k: int| 0 <= k < inner.len() implies coord_less(s[0], #[trigger] inner[k]) by {
            let q = inner[k];
            assert(inner.contains(q));
            if rest.contains(q) {
                let t = choose|t: int| 0 <= t < rest.len() && rest[t] == q;
                assert(s[t + 1] == q);
            }
        }
        assert forall|i: int, j: int| 0 <= i < j < r.len() implies coord_less(#[trigger] r[i], #[trigger] r[j]) by {
            if i == 0 {
                assert(r[j] == inner[j - 1]);
            } else {
                assert(r[i] == inner[i - 1] && r[j] == inner[j - 1]);
            }
        }
        assert forall|q: Coord| #[trigger] r.contains(q) <==> (s.contains(q) || q == p) by {
            if r.contains(q) {
                let k = choose|k: int| 0 <= k < r.len() && r[k] == q;
                if k == 0 {
                    assert(s[0] == q);
                } else {
                    assert(inner[k - 1] == q);
                    assert(inner.contains(q));
                    if rest.contains(q) {
                        let t = choose|t: int| 0 <= t < rest.len() && rest[t] == q;
                        assert(s[t + 1] == q);
                    }
                }
            }
            if s.contains(q) || q == p {
                if s.contains(q) {
                    let k = choose|k: int| 0 <= k < s.len() && s[k] == q;
                    if k == 0 {
                        assert(r[0] == q);
                    } else {
                        assert(rest[k - 1] == q);
                        assert(rest.contains(q));
                    }
                }
                if q != s[0] {
                    assert(inner.contains(q));
                    let t = choose|t: int| 0 <= t < inner.len() && inner[t] == q;
                    assert(r[t + 1] == q);
                } else {
                    assert(r[0] == q);
                }
            }
        }
        assert(insert_unique(s, p) == r);
    }
}

proof fn lemma_sorted_unique_order(s: Seq<Coord>)
    ensures
        ascending(sorted_unique(s)),
        forall|q: Coord| #[trigger] sorted_unique(s).contains(q) <==> s.contains(q),
    decreases s.len(),
{
    if s.len() > 0 {
        let rest = s.drop_last();
        lemma_sorted_unique_order(rest);
        lemma_insert_unique_order(sorted_unique(rest), s.last());
        assert forall|q: Coord| #[trigger] sorted_unique(s).contains(q) <==> s.contains(q) by {
            if rest.contains(q) {
                let k = choose|k: int| 0 <= k < rest.len() && rest[k] == q;
                assert(s[k] == q);
            }
            if s.contains(q) && q != s.last() {
                let k = choose|k: int| 0 <= k < s.len() && s[k] == q;
                assert(rest[k] == q);
            }
            if q == s.last() {
                assert(s[s.len() - 1] == q);
            }
        }
    } else {
        assert(sorted_unique(s) =~= Seq::<Coord>::empty());
    }
}

/// A border lists its cells in ascending order of `x`, then `y`, then `z`,
/// each once, and exactly the cells of the entity's own direct border
/// together with those of the extended entity it is stuck to, when it is
/// stuck to one.
pub proof fn law_border_is_an_ordered_union(v: WorldView, c: Campaign, id: i32, d: Direction)
    ensures
        border_spec(v, c, id, d) matches Ok(cells) ==> {
            let e = entity_of(v, id)->0;
            let own = direct_border_of(v, c, e, d)->Ok_0;
            let more = match entity_of(v, e.stuck_to) {
                Some(t) => if extended_in(v, t) {
                    direct_border_of(v, c, t, d)->Ok_0
                } else {
                    Seq::empty()
                },
                None => Seq::empty(),
            };
            &&& ascending(cells)
            &&& forall|q: Coord| #[trigger] cells.contains(q) <==> own.contains(q) || more.contains(q)
        },
{
    if border_spec(v, c, id, d) is Ok {
        let e = entity_of(v, id)->0;
        let own = direct_border_of(v, c, e, d)->Ok_0;
        match entity_of(v, e.stuck_to) {
            Some(t) => if extended_in(v, t) {
                let more = direct_border_of(v, c, t, d)->Ok_0;
                lemma_sorted_unique_order(own + more);
                assert forall|q: Coord| #[trigger] (own + more).contains(q) <==> own.contains(q) || more.contains(q) by {
                    if (own + more).contains(q) {
                        let k = choose|k: int| 0 <= k < (own + more).len() && (own + more)[k] == q;
                        if k >= own.len() {
                            assert(more[k - own.len()] == q);
                        }
                    }
                    if own.contains(q) {
                        let k = choose|k: int| 0 <= k < own.len() && own[k] == q;
                        assert((own + more)[k] == q);
                    }
                    if more.contains(q) {
                        let k = choose|k: int| 0 <= k < more.len() && more[k] == q;
                        assert((own + more)[own.len() + k] == q);
                    }
                }
            } else {
                lemma_sorted_unique_order(own);
            },
            None => {
                lemma_sorted_unique_order(own);
            },
        }
    }
}

proof fn lemma_insert_unique_at(s: Seq<Coord>, p: Coord, k: int)
    requires
        0 <= k <= s.len(),
        forall|j: int| 0 <= j < k ==> s[j] != p && !coord_less(p, s[j]),
        k < s.len() ==> (s[k] == p || coord_less(p, s[k])),
    ensures
        insert_unique(s, p) == if k < s.len() && s[k] == p { s } else { s.take(k).push(p) + s.skip(k) },
    decreases k,
{
    if k == 0 {
        if s.len() > 0 && s[0] == p {
        } else {
            assert(s.take(0).push(p) + s.skip(0) =~= seq![p] + s);
        }
    } else {
        let rest = s.drop_first();
        assert forall|j: int| 0 <= j < k - 1 implies rest[j] != p && !coord_less(p, rest[j]) by {
            assert(rest[j] == s[j + 1]);
        }
        if k - 1 < rest.len() {
            assert(rest[k - 1] == s[k]);
        }
        lemma_insert_unique_at(rest, p, k - 1);
        if k < s.len() && s[k] == p {
            assert(seq![s[0]] + rest =~= s);
        } else {
            assert(seq![s[0]] + (rest.take(k - 1).push(p) + rest.skip(k - 1)) =~= s.take(k).push(p) + s.skip(k));
        }
    }
}

fn insert_coord(v: &mut Vec<Coord>, p: Coord)
    ensures
        final(v)@ == insert_unique(old(v)@, p),
{
    let mut k: usize = 0;
    while k < v.len() && v[k] != p && !(p.x < v[k].x || (p.x == v[k].x && (p.y < v[k].y || (p.y == v[k].y
        && p.z < v[k].z))))
        invariant
            k <= v@.len(),
            v@ == old(v)@,
            forall|j: int| 0 <= j < k ==> v@[j] != p && !coord_less(p, v@[j]),
        decreases v@.len() - k,
    {
        k += 1;
    }
    proof {
        lemma_insert_unique_at(v@, p, k as int);
    }
    if k < v.len() && v[k] == p {
        return;
    }
    v.insert(k, p);
    assert(v@ =~= old(v)@.take(k as int).push(p) + old(v)@.skip(k as int));
}

impl<'a> PhysicsWorld<'a> {
    /// The cells directly below where entity `id` stands; see [`lower_of`].
    pub fn lower_footprint(&self, id: i32) -> (r: Result<Vec<Coord>, String>)
        requires
            world_small(self.view(), self.campaign_of()),
        ensures
            match entity_of(self.view(), id) {
                None => r is Err && r->Err_0@ == unknown_entity_text(id),
                Some(e) => match lower_of(self.view(), self.campaign_of(), e) {
                    Ok(cells) => r is Ok && r->Ok_0@ == cells,
                    Err(message) => r is Err && r->Err_0@ == message,
                },
            },
    {
        let entity = match self.entity_or_error(id) {
            Ok(e) => e,
            Err(message) => {
                return Err(message);
            },
        };
        proof {
            lemma_entity_index_of(self.entities@, id);
            let i = entity_index_of(self.entities@, id)->0;
            assert(small(self.entities@[i].pos));
            crate::sausage::physics::lemma_delta_bounds(entity.direction);
        }
        if entity.entity_type != EntityType::Island {
            proof {
                let fp = footprint_spec(*entity, self.fork_id is None);
                assert forall|i: int| 0 <= i < fp.len() implies step_fits(#[trigger] fp[i], Direction::Down) by {}
            }
            return Ok(entity.lower_footprint(self.fork_id.is_none()));
        }
        let mask = match self.island_mask(entity) {
            Ok(m) => m,
            Err(message) => {
                return Err(message);
            },
        };
        let completed = entity.cook_data != 0;
        proof {
            lemma_mask_small(self.view(), self.campaign_of(), entity.data@);
            lemma_cells_bounded(*mask, completed, mask.dimensions[0] as int);
        }
        let locals = island_cells(mask, completed);
        let base = entity.pos.plus(mask.offset);
        let mut out: Vec<Coord> = Vec::new();
        let mut i: usize = 0;
        while i < locals.len()
            invariant
                i <= locals@.len(),
                mask_small(*mask),
                small(entity.pos),
                base == coord_sum(entity.pos, mask.offset),
                forall|k: int| 0 <= k < locals@.len() ==> {
                    let l = #[trigger] locals@[k];
                    0 <= l.x < limit() && 0 <= l.y < limit() && 0 <= l.z < limit()
                },
                out@ == locals@.take(i as int).filter(|l: Coord| keeps_lower(*mask, completed, l)).map_values(
                    |l: Coord| coord_step(coord_sum(base, l), Direction::Down),
                ),
            decreases locals@.len() - i,
        {
            let l = locals[i];
            assert(0 <= l.x < limit() && 0 <= l.y < limit() && 0 <= l.z < limit());
            assert(locals@.take(i + 1).drop_last() =~= locals@.take(i as int));
            let keeps = if l.z == 0 {
                true
            } else {
                let below = Coord::new(l.x, l.y, l.z - 1);
                assert(below == Coord { z: (l.z - 1) as i32, ..l });
                let value = match mask.get(below) {
                    Some(x) => x,
                    None => 0,
                };
                !(value > 0 || (!completed && value == -1))
            };
            assert(keeps == keeps_lower(*mask, completed, l));
            let ghost prev = out@;
            if keeps {
                out.push(base.plus(l).step(Direction::Down));
            }
            proof {
                reveal(Seq::filter);
                assert(locals@.take(i + 1).last() == l);
            }
            assert(out@ =~= locals@.take(i + 1).filter(|l: Coord| keeps_lower(*mask, completed, l)).map_values(
                |l: Coord| coord_step(coord_sum(base, l), Direction::Down),
            ));
            i += 1;
        }
        assert(locals@.take(i as int) =~= locals@);
        Ok(out)
    }

    fn direct_border(&self, entity: &Entity, direction: Direction) -> (r: Result<Vec<Coord>, String>)
        requires
            world_small(self.view(), self.campaign_of()),
            small(entity.pos),
        ensures
            match direct_border_of(self.view(), self.campaign_of(), *entity, direction) {
                Ok(cells) => r is Ok && r->Ok_0@ == cells,
                Err(message) => r is Err && r->Err_0@ == message,
            },
    {
        let cells = match self.footprint_of_entity(entity) {
            Ok(c) => c,
            Err(message) => {
                return Err(message);
            },
        };
        proof {
            crate::sausage::physics::lemma_delta_bounds(direction);
        }
        let ghost moved = cells@.map_values(|p: Coord| coord_step(p, direction));
        let mut out: Vec<Coord> = Vec::new();
        let mut i: usize = 0;
        while i < cells.len()
            invariant
                i <= cells@.len(),
                moved == cells@.map_values(|p: Coord| coord_step(p, direction)),
                forall|k: int| 0 <= k < cells@.len() ==> within(#[trigger] cells@[k], 2),
                -1 <= delta_spec(direction).x <= 1,
                -1 <= delta_spec(direction).y <= 1,
                -1 <= delta_spec(direction).z <= 1,
                out@ == moved.take(i as int).filter(|p: Coord| !cells@.contains(p)),
            decreases cells@.len() - i,
        {
            assert(within(cells@[i as int], 2));
            let target = cells[i].step(direction);
            assert(moved.take(i + 1).drop_last() =~= moved.take(i as int));
            if !coords_contain(&cells, target) {
                out.push(target);
            }
            proof {
                reveal(Seq::filter);
                assert(moved.take(i + 1).last() == target);
            }
            assert(out@ =~= moved.take(i + 1).filter(|p: Coord| !cells@.contains(p)));
            i += 1;
        }
        assert(moved.take(i as int) =~= moved);
        Ok(out)
    }

    /// The border cells of entity `id` in a direction; see [`border_spec`].
    pub fn border(&self, id: i32, direction: Direction) -> (r: Result<Vec<Coord>, String>)
        requires
            world_small(self.view(), self.campaign_of()),
        ensures
            match border_spec(self.view(), self.campaign_of(), id, direction) {
                Ok(cells) => r is Ok && r->Ok_0@ == cells,
                Err(message) => r is Err && r->Err_0@ == message,
            },
    {
        if direction.is_diagonal() || direction == Direction::NoDirection {
            let mut message = String::from_str("invalid border direction ");
            message.append(direction_debug_text(direction));
            return Err(message);
        }
        let entity = match self.entity_or_error(id) {
            Ok(e) => e,
            Err(message) => {
                return Err(message);
            },
        };
        proof {
            lemma_entity_index_of(self.entities@, id);
            let i = entity_index_of(self.entities@, id)->0;
            assert(small(self.entities@[i].pos));
        }
        let mut cells = match self.direct_border(entity, direction) {
            Ok(c) => c,
            Err(message) => {
                return Err(message);
            },
        };
        proof {
            lemma_entity_index_of(self.entities@, entity.stuck_to);
        }
        match entity_index(&self.entities, entity.stuck_to) {
            Some(t) => {
                let target = &self.entities[t];
                assert(small(self.entities@[t as int].pos));
                let extended = target.entity_type.is_extended() || (target.entity_type == EntityType::Player
                    && self.fork_id.is_none());
                if extended {
                    let more = match self.direct_border(target, direction) {
                        Ok(c) => c,
                        Err(message) => {
                            return Err(message);
                        },
                    };
                    let mut j: usize = 0;
                    let ghost own = cells@;
                    while j < more.len()
                        invariant
                            j <= more@.len(),
                            cells@ == own + more@.take(j as int),
                        decreases more@.len() - j,
                    {
                        cells.push(more[j]);
                        assert(cells@ =~= own + more@.take(j + 1));
                        j += 1;
                    }
                    assert(more@.take(j as int) =~= more@);
                }
            },
            None => {},
        }
        let mut sorted: Vec<Coord> = Vec::new();
        let mut k: usize = 0;
        while k < cells.len()
            invariant
                k <= cells@.len(),
                sorted@ == sorted_unique(cells@.take(k as int)),
            decreases cells@.len() - k,
        {
            assert(cells@.take(k + 1).drop_last() =~= cells@.take(k as int));
            insert_coord(&mut sorted, cells[k]);
            k += 1;
        }
        assert(cells@.take(k as int) =~= cells@);
        Ok(sorted)
    }
}


/// Rust's `n / 4` taken `k` times.
pub open spec fn trunc_power(n: int, k: nat) -> int
    decreases k,
{
    if k == 0 {
        n
    } else {
        crate::sausage::model::trunc_div(trunc_power(n, (k - 1) as nat), 4)
    }
}

pub proof fn lemma_face_step(cook: int, k: nat)
    requires
        k < 4,
    ensures
        crate::sausage::model::trunc_rem(trunc_power(cook, k), 4) == face(cook, k),
{
    reveal_with_fuel(trunc_power, 4);
    if k == 0 {
    } else if k == 1 {
        assert(trunc_power(cook, 1) == crate::sausage::model::trunc_div(cook, 4));
    } else if k == 2 {
        assert(trunc_power(cook, 1) == crate::sausage::model::trunc_div(cook, 4));
        assert(trunc_power(cook, 2) == crate::sausage::model::trunc_div(crate::sausage::model::trunc_div(cook, 4), 4));
        lemma_trunc_div_twice(cook, 4, 4);
    } else {
        assert(trunc_power(cook, 1) == crate::sausage::model::trunc_div(cook, 4));
        assert(trunc_power(cook, 2) == crate::sausage::model::trunc_div(crate::sausage::model::trunc_div(cook, 4), 4));
        lemma_trunc_div_twice(cook, 4, 4);
        lemma_trunc_div_twice(cook, 16, 4);
    }
}

proof fn lemma_trunc_div_twice(n: int, a: int, b: int)
    requires
        a > 0,
        b > 0,
    ensures
        crate::sausage::model::trunc_div(crate::sausage::model::trunc_div(n, a), b) == crate::sausage::model::trunc_div(n, a * b),
{
    if n >= 0 {
        vstd::arithmetic::div_mod::lemma_div_denominator(n, a, b);
        vstd::arithmetic::div_mod::lemma_div_pos_is_pos(n, a);
    } else {
        vstd::arithmetic::div_mod::lemma_div_denominator(-n, a, b);
        vstd::arithmetic::div_mod::lemma_div_pos_is_pos(-n, a);
        if (-n) / a == 0 {
            assert(crate::sausage::model::trunc_div(n, a) == 0);
        }
    }
}

} // verus!
