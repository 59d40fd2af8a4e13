//! What a session shows of a game: tiles, entities, bounds, entrances and
//! level status, computed from the physics world and the campaign.

use vstd::prelude::*;

use crate::sausage::campaign::{lookup, named_players, Campaign};
use crate::sausage::entries::CampaignEntry;
use crate::sausage::game3d::{find_named, first_named_of, player_position, Game3d};
use crate::sausage::model::{
    coord_diff, coord_sum, dir_of_value, trunc_div, trunc_rem, Coord, Direction, Entity, EntityType, GameState,
};
use crate::sausage::world::{
    cmax, cmin, entity_of, footprint_of, mask_entries, small, unknown_entity_text, world_small, PhysicsWorld,
    WorldView,
};

verus! {

/// The campaign id a session reports.
pub const CAMPAIGN_ID: &'static str = "stephens-sausage-roll-complete";

/// The box from `min` to `max`, corners included.
#[derive(Clone, Debug, PartialEq, Eq)]
pub struct BoundsView {
    pub min: Coord,
    pub max: Coord,
}

/// One tile shown: where, what kind, from which entity, and how it is
/// drawn.
#[derive(Clone, Debug, PartialEq, Eq)]
pub struct TileView {
    pub pos: Coord,
    pub kind: String,
    pub source_id: i32,
    pub direction: Direction,
    pub tile_number: i32,
    pub tile_set: i32,
    pub variant: i32,
}

/// One entity shown: its state, its cells, what it is attached to, its
/// cooked faces if it is a sausage and its name if it is an island.
#[derive(Clone, Debug, PartialEq, Eq)]
pub struct EntityView {
    pub id: i32,
    pub kind: EntityType,
    pub pos: Coord,
    pub direction: Direction,
    pub rotation: i32,
    pub pivot: i32,
    pub cells: Vec<Coord>,
    pub attached_to: Option<i32>,
    pub cooked_faces: Option<[i32; 4]>,
    pub island: Option<String>,
}

/// The exit of a puzzle and whether it can be taken.
#[derive(Clone, Debug, PartialEq, Eq)]
pub struct ExitView {
    pub pos: Coord,
    pub direction: Direction,
    pub ready: bool,
}

/// Where a puzzle is entered on the overworld.
#[derive(Clone, Debug, PartialEq, Eq)]
pub struct EntranceView {
    pub ordinal: usize,
    pub id: String,
    pub title: String,
    pub pos: Coord,
    pub direction: Direction,
    pub island_id: i32,
}

/// Where an island stands.
#[derive(Clone, Debug, PartialEq, Eq)]
pub struct IslandPoseView {
    pub id: i32,
    pub pos: Coord,
}

/// A puzzle's status in the campaign.
#[derive(Clone, Debug, PartialEq, Eq)]
pub struct LevelStatus {
    pub ordinal: usize,
    pub id: String,
    pub title: String,
    pub status: String,
    pub actions: usize,
    pub tile_set: i32,
}

/// The campaign's progress.
#[derive(Clone, Debug, PartialEq, Eq)]
pub struct CampaignStatus {
    pub id: &'static str,
    pub score: usize,
    pub solved: usize,
    pub total: usize,
    pub complete: bool,
}

/// The smaller of two cells on each axis.
pub fn min_coord(left: Coord, right: Coord) -> (r: Coord)
    ensures
        r == cmin(left, right),
{
    Coord::new(
        if left.x <= right.x { left.x } else { right.x },
        if left.y <= right.y { left.y } else { right.y },
        if left.z <= right.z { left.z } else { right.z },
    )
}

/// The larger of two cells on each axis.
pub fn max_coord(left: Coord, right: Coord) -> (r: Coord)
    ensures
        r == cmax(left, right),
{
    Coord::new(
        if left.x >= right.x { left.x } else { right.x },
        if left.y >= right.y { left.y } else { right.y },
        if left.z >= right.z { left.z } else { right.z },
    )
}

/// The box of the cells, for at least one cell.
pub open spec fn bounds_fold(ps: Seq<Coord>) -> (Coord, Coord)
    decreases ps.len(),
{
    if ps.len() <= 1 {
        (ps[0], ps[0])
    } else {
        let (low, high) = bounds_fold(ps.drop_last());
        (cmin(low, ps.last()), cmax(high, ps.last()))
    }
}

/// The box of the cells; an error without any.
pub open spec fn bounds_spec(ps: Seq<Coord>) -> Result<(Coord, Coord), Seq<char>> {
    if ps.len() == 0 {
        Err("overworld has no visible terrain"@)
    } else {
        Ok(bounds_fold(ps))
    }
}

/// See [`bounds_spec`].
pub fn bounds_from_positions(positions: &Vec<Coord>) -> (r: Result<BoundsView, String>)
    ensures
        match bounds_spec(positions@) {
            Ok((low, high)) => r == Ok::<BoundsView, String>(BoundsView { min: low, max: high }),
            Err(m) => r is Err && r->Err_0@ == m,
        },
{
    if positions.len() == 0 {
        return Err(String::from_str("overworld has no visible terrain"));
    }
    let mut low = positions[0];
    let mut high = positions[0];
    let mut i: usize = 1;
    while i < positions.len()
        invariant
            1 <= i <= positions@.len(),
            (low, high) == bounds_fold(positions@.take(i as int)),
        decreases positions@.len() - i,
    {
        assert(positions@.take(i + 1).drop_last() =~= positions@.take(i as int));
        low = min_coord(low, positions[i]);
        high = max_coord(high, positions[i]);
        i += 1;
    }
    assert(positions@.take(i as int) =~= positions@);
    Ok(BoundsView { min: low, max: high })
}

pub open spec fn tile_positions(tiles: Seq<TileView>) -> Seq<Coord> {
    tiles.map_values(|t: TileView| t.pos)
}

/// The box of the tiles; see [`bounds_spec`].
pub fn bounds_from_tiles(tiles: &Vec<TileView>) -> (r: Result<BoundsView, String>)
    ensures
        match bounds_spec(tile_positions(tiles@)) {
            Ok((low, high)) => r == Ok::<BoundsView, String>(BoundsView { min: low, max: high }),
            Err(m) => r is Err && r->Err_0@ == m,
        },
{
    let mut positions: Vec<Coord> = Vec::new();
    let mut i: usize = 0;
    while i < tiles.len()
        invariant
            i <= tiles@.len(),
            positions@ == tile_positions(tiles@).take(i as int),
        decreases tiles@.len() - i,
    {
        positions.push(tiles[i].pos);
        assert(positions@ =~= tile_positions(tiles@).take(i + 1));
        i += 1;
    }
    assert(positions@ =~= tile_positions(tiles@));
    bounds_from_positions(&positions)
}

/// The kind of tile a static entity shows as.
pub open spec fn static_kind(t: EntityType) -> Seq<char> {
    match t {
        EntityType::Bbq => "grill"@,
        EntityType::Ladder => "ladder"@,
        EntityType::Ground => "ground"@,
        EntityType::SpectralSausage => "spectral_sausage"@,
        _ => "static"@,
    }
}

/// The tile a static entity shows as, at its position.
pub fn static_tile(entity: &Entity) -> (r: TileView)
    ensures
        r.pos == entity.pos,
        r.kind@ == static_kind(entity.entity_type),
        r.source_id == entity.id,
        r.direction == entity.direction,
        r.tile_number == entity.tile_number,
        r.tile_set == entity.tile_set,
        r.variant == 0,
{
    let kind = match entity.entity_type {
        EntityType::Bbq => "grill",
        EntityType::Ladder => "ladder",
        EntityType::Ground => "ground",
        EntityType::SpectralSausage => "spectral_sausage",
        _ => "static",
    };
    TileView {
        pos: entity.pos,
        kind: String::from_str(kind),
        source_id: entity.id,
        direction: entity.direction,
        tile_number: entity.tile_number,
        tile_set: entity.tile_set,
        variant: 0,
    }
}

/// The kind and direction of an island tile by its mask value: 2 and 20
/// are grills facing east and north, 3 to 6 ladders, anything else land
/// facing the island's way.
pub open spec fn island_tile_kind(variant: i32, island: Direction) -> (Seq<char>, Direction) {
    if variant == 2 {
        ("grill"@, Direction::East)
    } else if variant == 20 {
        ("grill"@, Direction::North)
    } else if 3 <= variant <= 6 {
        ("ladder"@, dir_of_value(variant - 3)->0)
    } else {
        ("land"@, island)
    }
}

/// The mask value of an island at a cell, or why there is none.
pub open spec fn mask_value_at(v: WorldView, c: Campaign, id: i32, pos: Coord) -> Result<i32, Seq<char>> {
    match entity_of(v, id) {
        None => Err(unknown_entity_text(id)),
        Some(e) => if e.entity_type != EntityType::Island {
            Err("entity "@ + crate::text::int_text(id as int) + " is not an island"@)
        } else {
            match lookup(mask_entries(c), e.data@) {
                None => Err(crate::sausage::world::no_mask_text(e)),
                Some(m) => Ok(
                    match m.get_spec(coord_diff(coord_diff(pos, e.pos), m.offset)) {
                        Some(x) => x,
                        None => 0,
                    },
                ),
            }
        },
    }
}

/// The tile an island shows at a cell; see [`island_tile_kind`].
pub fn island_tile(world: &PhysicsWorld, island: &Entity, pos: Coord) -> (r: Result<TileView, String>)
    requires
        world_small(world.view(), world.campaign_of()),
        small(pos),
    ensures
        match mask_value_at(world.view(), world.campaign_of(), island.id, pos) {
            Err(m) => r is Err && r->Err_0@ == m,
            Ok(variant) => r is Ok && {
                let t = r->Ok_0;
                &&& t.pos == pos
                &&& (t.kind@, t.direction) == island_tile_kind(variant, island.direction)
                &&& t.source_id == island.id
                &&& t.tile_number == island.tile_number
                &&& t.tile_set == island.tile_set
                &&& t.variant == variant
            },
        },
{
    let variant = match world.island_mask_value(island.id, pos) {
        Ok((value, _)) => value,
        Err(message) => {
            return Err(message);
        },
    };
    let (kind, direction) = if variant == 2 {
        ("grill", Direction::East)
    } else if variant == 20 {
        ("grill", Direction::North)
    } else if 3 <= variant && variant <= 6 {
        match Direction::from_i32(variant - 3) {
            Ok(d) => ("ladder", d),
            Err(message) => {
                return Err(message);
            },
        }
    } else {
        ("land", island.direction)
    };
    Ok(TileView {
        pos,
        kind: String::from_str(kind),
        source_id: island.id,
        direction,
        tile_number: island.tile_number,
        tile_set: island.tile_set,
        variant,
    })
}

/// The display name of a puzzle: its island state's name.
pub fn level_title(campaign: &Campaign, level_id: &str) -> (r: Result<String, String>)
    ensures
        match lookup(campaign.view().island_state_sources, level_id@) {
            None => r is Err && r->Err_0@ == "unknown island \""@ + level_id@ + "\""@,
            Some(source) => match r {
                Ok(name) => crate::sausage::model::state_ok(source) && name@ == crate::sausage::model::section(source, 4),
                Err(_) => !crate::sausage::model::state_ok(source),
            },
        },
{
    match campaign.island_state(level_id) {
        Ok(state) => Ok(state.display_name),
        Err(message) => Err(message),
    }
}

/// A sausage's four cooking faces.
pub open spec fn faces_of(cook: i32) -> Seq<i32> {
    seq![
        trunc_rem(cook as int, 4) as i32,
        trunc_rem(trunc_div(cook as int, 4), 4) as i32,
        trunc_rem(trunc_div(cook as int, 16), 4) as i32,
        trunc_rem(trunc_div(cook as int, 64), 4) as i32,
    ]
}

/// The cells an entity covers, or why they cannot be had.
pub open spec fn cells_of(v: WorldView, c: Campaign, id: i32) -> Result<Seq<Coord>, Seq<char>> {
    match entity_of(v, id) {
        None => Err(unknown_entity_text(id)),
        Some(e) => footprint_of(v, c, e),
    }
}

/// An entity view as values.
pub struct EntityModel {
    pub id: i32,
    pub kind: EntityType,
    pub pos: Coord,
    pub direction: Direction,
    pub rotation: i32,
    pub pivot: i32,
    pub cells: Seq<Coord>,
    pub attached_to: Option<i32>,
    pub cooked_faces: Option<Seq<i32>>,
    pub island: Option<Seq<char>>,
}

impl EntityView {
    pub open spec fn model(&self) -> EntityModel {
        EntityModel {
            id: self.id,
            kind: self.kind,
            pos: self.pos,
            direction: self.direction,
            rotation: self.rotation,
            pivot: self.pivot,
            cells: self.cells@,
            attached_to: self.attached_to,
            cooked_faces: match self.cooked_faces {
                Some(f) => Some(f@),
                None => None,
            },
            island: match self.island {
                Some(name) => Some(name@),
                None => None,
            },
        }
    }

    /// A copy of the view.
    pub fn duplicate(&self) -> (r: EntityView)
        ensures
            r.model() == self.model(),
    {
        let mut cells: Vec<Coord> = Vec::new();
        let mut i: usize = 0;
        while i < self.cells.len()
            invariant
                i <= self.cells@.len(),
                cells@ == self.cells@.take(i as int),
            decreases self.cells@.len() - i,
        {
            cells.push(self.cells[i]);
            assert(cells@ =~= self.cells@.take(i + 1));
            i += 1;
        }
        assert(cells@ =~= self.cells@);
        EntityView {
            id: self.id,
            kind: self.kind,
            pos: self.pos,
            direction: self.direction,
            rotation: self.rotation,
            pivot: self.pivot,
            cells,
            attached_to: self.attached_to,
            cooked_faces: self.cooked_faces,
            island: match &self.island {
                Some(name) => Some(name.clone()),
                None => None,
            },
        }
    }
}

/// How an entity is shown: its state, its cells, what it is attached to,
/// its cooked faces if it is a sausage and its name if it is an island.
pub open spec fn entity_model(v: WorldView, c: Campaign, e: Entity) -> Result<EntityModel, Seq<char>> {
    match cells_of(v, c, e.id) {
        Err(m) => Err(m),
        Ok(cells) => Ok(
            EntityModel {
                id: e.id,
                kind: e.entity_type,
                pos: e.pos,
                direction: e.direction,
                rotation: e.rotation,
                pivot: e.pivot,
                cells,
                attached_to: if e.stuck_to >= 0 {
                    Some(e.stuck_to)
                } else {
                    None
                },
                cooked_faces: if e.entity_type == EntityType::Sausage {
                    Some(faces_of(e.cook_data))
                } else {
                    None
                },
                island: if e.entity_type == EntityType::Island {
                    Some(e.data@)
                } else {
                    None
                },
            },
        ),
    }
}

/// How an entity is shown; see [`entity_model`].
pub fn entity_view(world: &PhysicsWorld, entity: &Entity) -> (r: Result<EntityView, String>)
    requires
        world_small(world.view(), world.campaign_of()),
    ensures
        match entity_model(world.view(), world.campaign_of(), *entity) {
            Err(m) => r is Err && r->Err_0@ == m,
            Ok(model) => r is Ok && r->Ok_0.model() == model,
        },
{
    let cells = match world.source_footprint(entity.id) {
        Ok(cells) => cells,
        Err(message) => {
            return Err(message);
        },
    };
    let cooked_faces = if entity.entity_type == EntityType::Sausage {
        let c = entity.cook_data;
        let faces: [i32; 4] = [c % 4, c / 4 % 4, c / 16 % 4, c / 64 % 4];
        assert(faces@ =~= faces_of(c));
        Some(faces)
    } else {
        None
    };
    Ok(EntityView {
        id: entity.id,
        kind: entity.entity_type,
        pos: entity.pos,
        direction: entity.direction,
        rotation: entity.rotation,
        pivot: entity.pivot,
        cells,
        attached_to: if entity.stuck_to >= 0 { Some(entity.stuck_to) } else { None },
        cooked_faces,
        island: if entity.entity_type == EntityType::Island { Some(entity.data.clone()) } else { None },
    })
}

/// The poses of the islands among the entities, in entity order.
pub open spec fn island_poses_of(es: Seq<Entity>) -> Seq<IslandPoseView>
    decreases es.len(),
{
    if es.len() == 0 {
        Seq::empty()
    } else if es.last().entity_type == EntityType::Island {
        island_poses_of(es.drop_last()).push(IslandPoseView { id: es.last().id, pos: es.last().pos })
    } else {
        island_poses_of(es.drop_last())
    }
}

/// Ordered by id.
pub open spec fn sorted_by_id(ps: Seq<IslandPoseView>) -> bool {
    forall|i: int, j: int| 0 <= i < j < ps.len() ==> ps[i].id <= ps[j].id
}

/// The islands' poses, ordered by id.
pub fn island_poses(world: &PhysicsWorld) -> (r: Vec<IslandPoseView>)
    ensures
        sorted_by_id(r@),
        r@.to_multiset() == island_poses_of(world.view().entities).to_multiset(),
{
    let es = world.entity_list();
    let ghost all = world.view().entities;
    let mut out: Vec<IslandPoseView> = Vec::new();
    let mut i: usize = 0;
    while i < es.len()
        invariant
            es@ == all,
            i <= all.len(),
            sorted_by_id(out@),
            out@.to_multiset() == island_poses_of(all.take(i as int)).to_multiset(),
        decreases all.len() - i,
    {
        assert(all.take(i + 1).drop_last() =~= all.take(i as int));
        let e = &es[i];
        if e.entity_type == EntityType::Island {
            let pose = IslandPoseView { id: e.id, pos: e.pos };
            let mut p: usize = 0;
            while p < out.len() && out[p].id <= pose.id
                invariant
                    p <= out@.len(),
                    forall|k: int| 0 <= k < p ==> out@[k].id <= pose.id,
                decreases out@.len() - p,
            {
                p += 1;
            }
            let ghost before = out@;
            out.insert(p, pose);
            proof {
                vstd::seq_lib::to_multiset_insert(before, p as int, pose);
                vstd::seq_lib::to_multiset_build(island_poses_of(all.take(i as int)), pose);
                assert forall|a: int, b: int| 0 <= a < b < out@.len() implies out@[a].id <= out@[b].id by {
                    if b < p {
                    } else if a > p {
                    } else if a == p {
                        assert(p < before.len() ==> before[p as int].id > pose.id);
                        assert(out@[b] == before[b - 1]);
                        if p < before.len() {
                            assert(before[p as int].id <= before[b - 1].id);
                        }
                    } else {
                        assert(out@[a] == before[a]);
                    }
                }
            }
        }
        i += 1;
    }
    assert(all.take(i as int) =~= all);
    out
}

/// The cells that are not sunk below the water.
pub open spec fn visible_cells(cells: Seq<Coord>) -> Seq<Coord>
    decreases cells.len(),
{
    if cells.len() == 0 {
        Seq::empty()
    } else if cells.last().z > -10 {
        visible_cells(cells.drop_last()).push(cells.last())
    } else {
        visible_cells(cells.drop_last())
    }
}

/// The visible cells of the islands among the first `k` entities, island
/// by island; the first failure otherwise.
pub open spec fn island_cells(v: WorldView, c: Campaign, es: Seq<Entity>, k: int) -> Result<Seq<Coord>, Seq<char>>
    decreases k,
{
    if k <= 0 {
        Ok(Seq::empty())
    } else {
        match island_cells(v, c, es, k - 1) {
            Err(m) => Err(m),
            Ok(done) => if es[k - 1].entity_type == EntityType::Island {
                match cells_of(v, c, es[k - 1].id) {
                    Err(m) => Err(m),
                    Ok(cells) => Ok(done + visible_cells(cells)),
                }
            } else {
                Ok(done)
            },
        }
    }
}

proof fn lemma_island_cells_error(v: WorldView, c: Campaign, es: Seq<Entity>, k: int, n: int)
    requires
        0 <= k <= n,
        island_cells(v, c, es, k) is Err,
    ensures
        island_cells(v, c, es, n) == island_cells(v, c, es, k),
    decreases n - k,
{
    if k < n {
        lemma_island_cells_error(v, c, es, k, n - 1);
    }
}

fn append_visible(out: &mut Vec<Coord>, cells: &Vec<Coord>)
    ensures
        final(out)@ == old(out)@ + visible_cells(cells@),
{
    let ghost start = out@;
    let mut i: usize = 0;
    while i < cells.len()
        invariant
            i <= cells@.len(),
            out@ == start + visible_cells(cells@.take(i as int)),
        decreases cells@.len() - i,
    {
        assert(cells@.take(i + 1).drop_last() =~= cells@.take(i as int));
        if cells[i].z > -10 {
            out.push(cells[i]);
            assert(out@ =~= start + visible_cells(cells@.take(i + 1)));
        }
        i += 1;
    }
    assert(cells@.take(i as int) =~= cells@);
}

/// The box of the islands' visible cells; see [`island_cells`] and
/// [`bounds_spec`].
pub fn world_bounds(world: &PhysicsWorld) -> (r: Result<BoundsView, String>)
    requires
        world_small(world.view(), world.campaign_of()),
    ensures
        match island_cells(world.view(), world.campaign_of(), world.view().entities, world.view().entities.len() as int) {
            Err(m) => r is Err && r->Err_0@ == m,
            Ok(ps) => match bounds_spec(ps) {
                Ok((low, high)) => r == Ok::<BoundsView, String>(BoundsView { min: low, max: high }),
                Err(m) => r is Err && r->Err_0@ == m,
            },
        },
{
    let es = world.entity_list();
    let ghost v = world.view();
    let ghost c = world.campaign_of();
    let mut positions: Vec<Coord> = Vec::new();
    let mut i: usize = 0;
    while i < es.len()
        invariant
            es@ == v.entities,
            v == world.view(),
            c == world.campaign_of(),
            world_small(v, c),
            i <= v.entities.len(),
            island_cells(v, c, v.entities, i as int) == Ok::<Seq<Coord>, Seq<char>>(positions@),
        decreases v.entities.len() - i,
    {
        if es[i].entity_type == EntityType::Island {
            match world.source_footprint(es[i].id) {
                Ok(cells) => {
                    append_visible(&mut positions, &cells);
                },
                Err(message) => {
                    proof {
                        lemma_island_cells_error(v, c, v.entities, i + 1, v.entities.len() as int);
                    }
                    return Err(message);
                },
            }
        }
        i += 1;
    }
    bounds_from_positions(&positions)
}

/// The tile set of a game's puzzle: that of its active island.
pub fn level_tile_set(game: &Game3d, level_id: &str) -> (r: i32)
    requires
        first_named_of(game.world_view().entities, EntityType::Island, level_id@) is Some,
    ensures
        r == game.world_view().entities[first_named_of(game.world_view().entities, EntityType::Island, level_id@)->0].tile_set,
{
    let es = game.physics().entity_list();
    match find_named(es, EntityType::Island, level_id) {
        Some(i) => es[i].tile_set,
        None => 0,
    }
}

/// The tile set of an entry's puzzle: that of its active island.
pub fn entry_tile_set(entry: &CampaignEntry) -> (r: i32)
    requires
        first_named_of(entry.state.entities@, EntityType::Island, entry.id@) is Some,
    ensures
        r == entry.state.entities@[first_named_of(entry.state.entities@, EntityType::Island, entry.id@)->0].tile_set,
{
    match find_named(&entry.state.entities, EntityType::Island, entry.id.as_str()) {
        Some(i) => entry.state.entities[i].tile_set,
        None => 0,
    }
}

/// The campaign's entry positions lie in the small range.
pub open spec fn positions_small(c: Campaign) -> bool {
    forall|i: int| 0 <= i < c.player_positions@.len() ==> small((#[trigger] c.player_positions@[i]).1.pos)
}

proof fn lemma_entry_small(c: Campaign, name: Seq<char>)
    requires
        positions_small(c),
        lookup(named_players(c.player_positions@), name) is Some,
    ensures
        small(lookup(named_players(c.player_positions@), name)->0.pos),
{
    let players = named_players(c.player_positions@);
    crate::sausage::world::lemma_lookup_member(players, name);
    let j = choose|j: int| 0 <= j < players.len() && (#[trigger] players[j]).1 == lookup(players, name)->0;
    assert(small(c.player_positions@[j].1.pos));
}

/// Where a puzzle is entered: on its island, at the campaign's entry
/// position for it.
pub fn entrance_view(campaign: &Campaign, world: &PhysicsWorld, entry: &CampaignEntry) -> (r: Result<EntranceView, String>)
    requires
        world_small(world.view(), world.campaign_of()),
        positions_small(*campaign),
    ensures
        match first_named_of(world.view().entities, EntityType::Island, entry.id@) {
            None => r is Err && r->Err_0@ == "overworld has no island for "@ + crate::text::debug_str(entry.id@),
            Some(k) => match lookup(named_players(campaign.player_positions@), entry.id@) {
                None => r is Err && r->Err_0@ == "puzzle "@ + crate::text::debug_str(entry.id@) + " has no entry position"@,
                Some(p) => match lookup(campaign.view().island_state_sources, entry.id@) {
                    None => r is Err,
                    Some(source) => if !crate::sausage::model::state_ok(source) {
                        r is Err
                    } else {
                        r is Ok && {
                            let e = r->Ok_0;
                            let island = world.view().entities[k];
                            &&& e.ordinal == entry.ordinal
                            &&& e.id@ == entry.id@
                            &&& e.title@ == crate::sausage::model::section(source, 4)
                            &&& e.pos == coord_sum(p.pos, island.pos)
                            &&& e.direction == p.direction
                            &&& e.island_id == island.id
                        }
                    },
                },
            },
        },
{
    let es = world.entity_list();
    let island = match find_named(es, EntityType::Island, entry.id.as_str()) {
        Some(i) => &es[i],
        None => {
            let mut message = String::from_str("overworld has no island for ");
            let cs = crate::text::to_chars(entry.id.as_str());
            crate::text::append_debug(&mut message, cs.as_slice());
            return Err(message);
        },
    };
    let positioned = match player_position(&campaign.player_positions, entry.id.as_str()) {
        Some(p) => *p,
        None => {
            let mut message = String::from_str("puzzle ");
            let cs = crate::text::to_chars(entry.id.as_str());
            crate::text::append_debug(&mut message, cs.as_slice());
            message.append(" has no entry position");
            return Err(message);
        },
    };
    let title = match level_title(campaign, entry.id.as_str()) {
        Ok(t) => t,
        Err(message) => {
            return Err(message);
        },
    };
    proof {
        lemma_entry_small(*campaign, entry.id@);
        assert(small(island.pos));
    }
    Ok(EntranceView {
        ordinal: entry.ordinal,
        id: entry.id.clone(),
        title,
        pos: positioned.pos.plus(island.pos),
        direction: positioned.direction,
        island_id: island.id,
    })
}

/// An island of a puzzle family: named the root, or the root, `__` and
/// more.
pub open spec fn family_island(e: Entity, root: Seq<char>) -> bool {
    e.entity_type == EntityType::Island && (e.data@ == root || (e.data@.len() >= root.len() + 2 && e.data@.take(
        root.len() + 2 as int,
    ) == root + "__"@))
}

/// How far each family island of the entry state moved by the end of the
/// puzzle, over the first `k` entry entities; the first island the
/// completed world lost otherwise.
pub open spec fn island_deltas(before: Seq<Entity>, after: Seq<Entity>, root: Seq<char>, k: int) -> Result<Seq<(Seq<char>, Coord)>, Seq<char>>
    decreases k,
{
    if k <= 0 {
        Ok(Seq::empty())
    } else {
        match island_deltas(before, after, root, k - 1) {
            Err(m) => Err(m),
            Ok(done) => {
                let b = before[k - 1];
                if family_island(b, root) {
                    match first_named_of(after, EntityType::Island, b.data@) {
                        None => Err("completed level lost island "@ + crate::text::debug_str(b.data@)),
                        Some(j) => Ok(done.push((b.data@, coord_diff(after[j].pos, b.pos)))),
                    }
                } else {
                    Ok(done)
                }
            },
        }
    }
}

proof fn lemma_deltas_error(before: Seq<Entity>, after: Seq<Entity>, root: Seq<char>, k: int, n: int)
    requires
        0 <= k <= n,
        island_deltas(before, after, root, k) is Err,
    ensures
        island_deltas(before, after, root, n) == island_deltas(before, after, root, k),
    decreases n - k,
{
    if k < n {
        lemma_deltas_error(before, after, root, k, n - 1);
    }
}

pub open spec fn delta_views(v: Seq<(String, Coord)>) -> Seq<(Seq<char>, Coord)> {
    v.map_values(|p: (String, Coord)| (p.0@, p.1))
}

fn has_family_prefix(data: &str, root: &str) -> (r: bool)
    ensures
        r == (data@.len() >= root@.len() + 2 && data@.take(root@.len() + 2 as int) == root@ + "__"@),
{
    let d = crate::text::to_chars(data);
    let rt = crate::text::to_chars(root);
    proof {
        reveal_strlit("__");
    }
    if d.len() < rt.len() || d.len() - rt.len() < 2 {
        return false;
    }
    let mut i: usize = 0;
    while i < rt.len()
        invariant
            d@ == data@,
            rt@ == root@,
            rt@.len() + 2 <= d@.len(),
            i <= rt@.len(),
            forall|k: int| 0 <= k < i ==> d@[k] == rt@[k],
        decreases rt@.len() - i,
    {
        if d[i] != rt[i] {
            assert(d@.take(rt@.len() + 2 as int)[i as int] != (rt@ + "__"@)[i as int]);
            return false;
        }
        i += 1;
    }
    let n = rt.len();
    if d[n] != '_' || d[n + 1] != '_' {
        assert(d@.take(rt@.len() + 2 as int)[n as int] != (rt@ + "__"@)[n as int] || d@.take(rt@.len() + 2 as int)[n + 1]
            != (rt@ + "__"@)[n + 1]);
        return false;
    }
    assert(d@.take(rt@.len() + 2 as int) =~= rt@ + "__"@);
    true
}

/// How far the puzzle's islands moved between its entry state and the
/// completed world; see [`island_deltas`].
pub fn completion_island_deltas(entry: &GameState, completed: &PhysicsWorld, level_id: &str) -> (r: Result<Vec<(String, Coord)>, String>)
    requires
        world_small(completed.view(), completed.campaign_of()),
        forall|i: int| 0 <= i < entry.entities@.len() ==> small((#[trigger] entry.entities@[i]).pos),
    ensures
        match island_deltas(entry.entities@, completed.view().entities, crate::sausage::entries::puzzle_root_spec(level_id@), entry.entities@.len() as int) {
            Err(m) => r is Err && r->Err_0@ == m,
            Ok(ds) => r is Ok && delta_views(r->Ok_0@) == ds,
        },
{
    let root = crate::sausage::entries::puzzle_root(level_id);
    let after = completed.entity_list();
    let ghost rs = crate::sausage::entries::puzzle_root_spec(level_id@);
    let ghost b = entry.entities@;
    let ghost a = completed.view().entities;
    let mut out: Vec<(String, Coord)> = Vec::new();
    let mut i: usize = 0;
    assert(delta_views(out@) =~= Seq::<(Seq<char>, Coord)>::empty());
    while i < entry.entities.len()
        invariant
            root@ == rs,
            rs == crate::sausage::entries::puzzle_root_spec(level_id@),
            after@ == a,
            a == completed.view().entities,
            b == entry.entities@,
            world_small(completed.view(), completed.campaign_of()),
            forall|k: int| 0 <= k < b.len() ==> small((#[trigger] b[k]).pos),
            i <= b.len(),
            island_deltas(b, a, rs, i as int) == Ok::<Seq<(Seq<char>, Coord)>, Seq<char>>(delta_views(out@)),
        decreases b.len() - i,
    {
        let before = &entry.entities[i];
        let in_family = before.entity_type == EntityType::Island && (crate::text::str_eq(before.data.as_str(), root)
            || has_family_prefix(before.data.as_str(), root));
        if in_family {
            match find_named(after, EntityType::Island, before.data.as_str()) {
                Some(j) => {
                    assert(small(a[j as int].pos));
                    assert(small(b[i as int].pos));
                    let delta = after[j].pos.minus(before.pos);
                    let ghost old_out = out@;
                    out.push((before.data.clone(), delta));
                    assert(delta_views(out@) =~= delta_views(old_out).push((before.data@, delta)));
                },
                None => {
                    proof {
                        lemma_deltas_error(b, a, rs, i + 1, b.len() as int);
                    }
                    let mut message = String::from_str("completed level lost island ");
                    let cs = crate::text::to_chars(before.data.as_str());
                    crate::text::append_debug(&mut message, cs.as_slice());
                    return Err(message);
                },
            }
        }
        i += 1;
    }
    Ok(out)
}

/// Some sausage has been cooked at all.
pub open spec fn any_cooked_sausage(es: Seq<Entity>) -> bool {
    exists|i: int| 0 <= i < es.len() && (#[trigger] es[i]).entity_type == EntityType::Sausage && es[i].cook_data != 0
}

/// Whether the overworld player stands at a puzzle's entrance ready to
/// enter: on the entry position of the puzzle's island, facing its way,
/// holding the fork, with no sausage cooked and the island not yet done.
pub open spec fn at_entrance_spec(c: Campaign, v: WorldView, id: Seq<char>) -> Result<bool, Seq<char>> {
    match lookup(named_players(c.player_positions@), id) {
        None => Err("puzzle "@ + crate::text::debug_str(id) + " has no entry position"@),
        Some(p) => match entity_of(v, v.player_id) {
            None => Err("player disappeared"@),
            Some(player) => match first_named_of(v.entities, EntityType::Island, id) {
                None => Err("overworld has no island for "@ + crate::text::debug_str(id)),
                Some(k) => Ok(
                    player.pos == coord_sum(p.pos, v.entities[k].pos) && player.direction == p.direction
                        && v.fork_id is None && !any_cooked_sausage(v.entities) && v.entities[k].cook_data == 0,
                ),
            },
        },
    }
}

/// See [`at_entrance_spec`].
pub fn at_entrance(campaign: &Campaign, game: &Game3d, entry: &CampaignEntry) -> (r: Result<bool, String>)
    requires
        world_small(game.world_view(), game.campaign_of()),
        positions_small(*campaign),
    ensures
        match at_entrance_spec(*campaign, game.world_view(), entry.id@) {
            Ok(b) => r == Ok::<bool, String>(b),
            Err(m) => r is Err && r->Err_0@ == m,
        },
{
    let world = game.physics();
    let positioned = match player_position(&campaign.player_positions, entry.id.as_str()) {
        Some(p) => *p,
        None => {
            let mut message = String::from_str("puzzle ");
            let cs = crate::text::to_chars(entry.id.as_str());
            crate::text::append_debug(&mut message, cs.as_slice());
            message.append(" has no entry position");
            return Err(message);
        },
    };
    let player = match world.entity(world.player_id()) {
        Some(p) => p,
        None => {
            return Err(String::from_str("player disappeared"));
        },
    };
    let es = world.entity_list();
    let island = match find_named(es, EntityType::Island, entry.id.as_str()) {
        Some(i) => &es[i],
        None => {
            let mut message = String::from_str("overworld has no island for ");
            let cs = crate::text::to_chars(entry.id.as_str());
            crate::text::append_debug(&mut message, cs.as_slice());
            return Err(message);
        },
    };
    proof {
        lemma_entry_small(*campaign, entry.id@);
        assert(small(island.pos));
    }
    if player.pos != positioned.pos.plus(island.pos) || player.direction != positioned.direction
        || !world.player_has_fork() {
        return Ok(false);
    }
    let mut i: usize = 0;
    while i < es.len()
        invariant
            es@ == game.world_view().entities,
            at_entrance_spec(*campaign, game.world_view(), entry.id@) == Ok::<bool, Seq<char>>(
                !any_cooked_sausage(es@) && island.cook_data == 0,
            ),
            i <= es@.len(),
            forall|k: int| 0 <= k < i ==> !((#[trigger] es@[k]).entity_type == EntityType::Sausage && es@[k].cook_data != 0),
        decreases es@.len() - i,
    {
        if es[i].entity_type == EntityType::Sausage && es[i].cook_data != 0 {
            return Ok(false);
        }
        i += 1;
    }
    Ok(island.cook_data == 0)
}

/// A tile view as values.
pub struct TileModel {
    pub pos: Coord,
    pub kind: Seq<char>,
    pub source_id: i32,
    pub direction: Direction,
    pub tile_number: i32,
    pub tile_set: i32,
    pub variant: i32,
}

impl TileView {
    pub open spec fn model(&self) -> TileModel {
        TileModel {
            pos: self.pos,
            kind: self.kind@,
            source_id: self.source_id,
            direction: self.direction,
            tile_number: self.tile_number,
            tile_set: self.tile_set,
            variant: self.variant,
        }
    }
}

/// The tile an island shows at a cell; see [`island_tile_kind`].
pub open spec fn island_tile_model(v: WorldView, c: Campaign, island: Entity, pos: Coord) -> Result<TileModel, Seq<char>> {
    match mask_value_at(v, c, island.id, pos) {
        Err(m) => Err(m),
        Ok(variant) => Ok(
            TileModel {
                pos,
                kind: island_tile_kind(variant, island.direction).0,
                source_id: island.id,
                direction: island_tile_kind(variant, island.direction).1,
                tile_number: island.tile_number,
                tile_set: island.tile_set,
                variant,
            },
        ),
    }
}

/// The tile a static entity shows as.
pub open spec fn static_tile_model(e: Entity) -> TileModel {
    TileModel {
        pos: e.pos,
        kind: static_kind(e.entity_type),
        source_id: e.id,
        direction: e.direction,
        tile_number: e.tile_number,
        tile_set: e.tile_set,
        variant: 0,
    }
}

/// What part of the world is shown: a box around a puzzle's terrain, or
/// the neighbourhood of the overworld player.
#[derive(Clone, Copy, Debug, PartialEq, Eq)]
pub enum Sight {
    Focus { min: Coord, max: Coord },
    Around { center: Coord },
}

/// The half width of the overworld view.
pub open spec fn map_view_radius() -> int {
    14
}

/// Whether a cell is shown: within two cells of the focus box across,
/// three below and six above; or within the view radius of the overworld
/// player across and twelve cells up or down.
pub open spec fn sees(s: Sight, p: Coord) -> bool {
    match s {
        Sight::Focus { min, max } => p.x >= min.x - 2 && p.x <= max.x + 2 && p.y >= min.y - 2 && p.y <= max.y + 2
            && p.z >= min.z - 3 && p.z <= max.z + 6,
        Sight::Around { center } => -map_view_radius() <= p.x - center.x <= map_view_radius() && -map_view_radius()
            <= p.y - center.y <= map_view_radius() && -12 <= p.z - center.z <= 12,
    }
}

pub open spec fn sight_small(s: Sight) -> bool {
    match s {
        Sight::Focus { min, max } => small(min) && small(max),
        Sight::Around { center } => small(center),
    }
}

fn sees_exec(s: Sight, p: Coord) -> (r: bool)
    requires
        sight_small(s),
        small(p),
    ensures
        r == sees(s, p),
{
    match s {
        Sight::Focus { min, max } => p.x >= min.x - 2 && p.x <= max.x + 2 && p.y >= min.y - 2 && p.y <= max.y + 2
            && p.z >= min.z - 3 && p.z <= max.z + 6,
        Sight::Around { center } => {
            let dx = p.x - center.x;
            let dy = p.y - center.y;
            let dz = p.z - center.z;
            -14 <= dx && dx <= 14 && -14 <= dy && dy <= 14 && -12 <= dz && dz <= 12
        },
    }
}

/// Entities shown as entities: the movable ones and spectral sausages,
/// not islands, where they are seen (sausages wherever they are).
pub open spec fn shown_entity(s: Sight, e: Entity) -> bool {
    (!crate::sausage::model::is_static_spec(e.entity_type) || e.entity_type == EntityType::SpectralSausage)
        && e.entity_type != EntityType::Island && (sees(s, e.pos) || e.entity_type == EntityType::Sausage)
}

/// Entities shown as tiles: static ones other than spectral sausages,
/// where they are seen.
pub open spec fn shown_static(s: Sight, e: Entity) -> bool {
    crate::sausage::model::is_static_spec(e.entity_type) && e.entity_type != EntityType::SpectralSausage && sees(s, e.pos)
}

/// The views of the shown entities among the first `k`, in entity order;
/// the first failure otherwise.
pub open spec fn shown_models(v: WorldView, c: Campaign, s: Sight, k: int) -> Result<Seq<EntityModel>, Seq<char>>
    decreases k,
{
    if k <= 0 {
        Ok(Seq::empty())
    } else {
        match shown_models(v, c, s, k - 1) {
            Err(m) => Err(m),
            Ok(done) => if shown_entity(s, v.entities[k - 1]) {
                match entity_model(v, c, v.entities[k - 1]) {
                    Err(m) => Err(m),
                    Ok(model) => Ok(done.push(model)),
                }
            } else {
                Ok(done)
            },
        }
    }
}

/// The tiles of the first `k` cells of an island.
pub open spec fn cell_tiles(v: WorldView, c: Campaign, island: Entity, cells: Seq<Coord>, k: int) -> Result<Seq<TileModel>, Seq<char>>
    decreases k,
{
    if k <= 0 {
        Ok(Seq::empty())
    } else {
        match cell_tiles(v, c, island, cells, k - 1) {
            Err(m) => Err(m),
            Ok(done) => match island_tile_model(v, c, island, cells[k - 1]) {
                Err(m) => Err(m),
                Ok(t) => Ok(done.push(t)),
            },
        }
    }
}

/// The tiles of the first `k` islands with their cells, island by island.
pub open spec fn island_tiles(v: WorldView, c: Campaign, islands: Seq<(Entity, Seq<Coord>)>, k: int) -> Result<Seq<TileModel>, Seq<char>>
    decreases k,
{
    if k <= 0 {
        Ok(Seq::empty())
    } else {
        match island_tiles(v, c, islands, k - 1) {
            Err(m) => Err(m),
            Ok(done) => match cell_tiles(v, c, islands[k - 1].0, islands[k - 1].1, islands[k - 1].1.len() as int) {
                Err(m) => Err(m),
                Ok(ts) => Ok(done + ts),
            },
        }
    }
}

/// The static tiles among the first `k` entities.
pub open spec fn static_tiles(s: Sight, es: Seq<Entity>, k: int) -> Seq<TileModel>
    decreases k,
{
    if k <= 0 {
        Seq::empty()
    } else if shown_static(s, es[k - 1]) {
        static_tiles(s, es, k - 1).push(static_tile_model(es[k - 1]))
    } else {
        static_tiles(s, es, k - 1)
    }
}

/// Every tile placed, in the order placed: the islands' first, then the
/// static entities'.
pub open spec fn placed_tiles(v: WorldView, c: Campaign, islands: Seq<(Entity, Seq<Coord>)>, s: Sight) -> Result<Seq<TileModel>, Seq<char>> {
    match island_tiles(v, c, islands, islands.len() as int) {
        Err(m) => Err(m),
        Ok(ts) => Ok(ts + static_tiles(s, v.entities, v.entities.len() as int)),
    }
}

/// The last tile placed at a cell.
pub open spec fn last_at(ts: Seq<TileModel>, pos: Coord) -> Option<TileModel>
    decreases ts.len(),
{
    if ts.len() == 0 {
        None
    } else if ts.last().pos == pos {
        Some(ts.last())
    } else {
        last_at(ts.drop_last(), pos)
    }
}

/// Cells in drawing order: by height, then row, then column.
pub open spec fn cell_before(a: Coord, b: Coord) -> bool {
    a.z < b.z || (a.z == b.z && (a.y < b.y || (a.y == b.y && a.x < b.x)))
}

/// The tiles shown: one per cell, the last placed there, in drawing order.
pub open spec fn tiles_shown(out: Seq<TileModel>, placed: Seq<TileModel>) -> bool {
    &&& forall|i: int, j: int| 0 <= i < j < out.len() ==> cell_before(out[i].pos, out[j].pos)
    &&& forall|i: int| 0 <= i < out.len() ==> last_at(placed, (#[trigger] out[i]).pos) == Some(out[i])
    &&& forall|i: int| 0 <= i < placed.len() ==> exists|j: int| 0 <= j < out.len() && out[j].pos == (#[trigger] placed[i]).pos
}

/// The entity views shown: the shown entities' views ordered by id.
pub open spec fn entities_shown(out: Seq<EntityModel>, models: Seq<EntityModel>) -> bool {
    &&& forall|i: int, j: int| 0 <= i < j < out.len() ==> out[i].id <= out[j].id
    &&& out.to_multiset() == models.to_multiset()
}

/// The player's view among the shown ones: the first with the player's id.
pub open spec fn player_shown(player: Option<EntityModel>, out: Seq<EntityModel>, id: i32) -> bool {
    match player {
        Some(p) => exists|k: int| 0 <= k < out.len() && out[k] == p && p.id == id && forall|j: int| 0 <= j < k ==> out[j].id != id,
        None => forall|k: int| 0 <= k < out.len() ==> out[k].id != id,
    }
}

pub open spec fn entity_models(v: Seq<EntityView>) -> Seq<EntityModel> {
    v.map_values(|e: EntityView| e.model())
}

pub open spec fn tile_models(v: Seq<TileView>) -> Seq<TileModel> {
    v.map_values(|t: TileView| t.model())
}

/// What a projection shows: the player's view, the entities' views and the
/// tiles.
pub type Projection = (Option<EntityView>, Vec<EntityView>, Vec<TileView>);

/// The islands shown with their cells, as the projection reads them.
pub open spec fn island_parts(es: Seq<Entity>, parts: Seq<(usize, Vec<Coord>)>) -> Seq<(Entity, Seq<Coord>)> {
    parts.map_values(|p: (usize, Vec<Coord>)| (es[p.0 as int], p.1@))
}

proof fn lemma_shown_error(v: WorldView, c: Campaign, s: Sight, k: int, n: int)
    requires
        0 <= k <= n,
        shown_models(v, c, s, k) is Err,
    ensures
        shown_models(v, c, s, n) == shown_models(v, c, s, k),
    decreases n - k,
{
    if k < n {
        lemma_shown_error(v, c, s, k, n - 1);
    }
}

proof fn lemma_cell_error(v: WorldView, c: Campaign, island: Entity, cells: Seq<Coord>, k: int, n: int)
    requires
        0 <= k <= n,
        cell_tiles(v, c, island, cells, k) is Err,
    ensures
        cell_tiles(v, c, island, cells, n) == cell_tiles(v, c, island, cells, k),
    decreases n - k,
{
    if k < n {
        lemma_cell_error(v, c, island, cells, k, n - 1);
    }
}

proof fn lemma_island_error(v: WorldView, c: Campaign, islands: Seq<(Entity, Seq<Coord>)>, k: int, n: int)
    requires
        0 <= k <= n,
        island_tiles(v, c, islands, k) is Err,
    ensures
        island_tiles(v, c, islands, n) == island_tiles(v, c, islands, k),
    decreases n - k,
{
    if k < n {
        lemma_island_error(v, c, islands, k, n - 1);
    }
}

proof fn lemma_last_at_push(ts: Seq<TileModel>, t: TileModel, pos: Coord)
    ensures
        last_at(ts.push(t), pos) == if t.pos == pos { Some(t) } else { last_at(ts, pos) },
{
    assert(ts.push(t).drop_last() =~= ts);
}

proof fn lemma_last_at_found(ts: Seq<TileModel>, i: int)
    requires
        0 <= i < ts.len(),
    ensures
        last_at(ts, ts[i].pos) is Some,
    decreases ts.len(),
{
    if ts.last().pos != ts[i].pos {
        assert(i < ts.len() - 1);
        assert(ts.drop_last()[i] == ts[i]);
        lemma_last_at_found(ts.drop_last(), i);
    }
}

/// Places one tile into the shown tiles: it replaces the tile at its cell,
/// or is inserted in drawing order.
fn place_tile(out: &mut Vec<TileView>, tile: TileView, Ghost(placed): Ghost<Seq<TileModel>>)
    requires
        tiles_shown(tile_models(old(out)@), placed),
    ensures
        tiles_shown(tile_models(final(out)@), placed.push(tile.model())),
{
    let ghost before = tile_models(out@);
    let ghost tm = tile.model();
    let mut p: usize = 0;
    while p < out.len() && (out[p].pos.z < tile.pos.z || (out[p].pos.z == tile.pos.z && (out[p].pos.y < tile.pos.y || (
    out[p].pos.y == tile.pos.y && out[p].pos.x < tile.pos.x))))
        invariant
            p <= out@.len(),
            before == tile_models(out@),
            forall|k: int| 0 <= k < p ==> cell_before(out@[k].pos, tile.pos),
        decreases out@.len() - p,
    {
        p += 1;
    }
    let ghost np = placed.push(tm);
    if p < out.len() && out[p].pos == tile.pos {
        out.set(p, tile);
        proof {
            let after = tile_models(out@);
            assert(after =~= before.update(p as int, tm));
            assert forall|i: int, j: int| 0 <= i < j < after.len() implies cell_before(after[i].pos, after[j].pos) by {
                assert(after[i].pos == before[i].pos && after[j].pos == before[j].pos);
            }
            assert forall|i: int| 0 <= i < after.len() implies last_at(np, (#[trigger] after[i]).pos) == Some(after[i]) by {
                lemma_last_at_push(placed, tm, after[i].pos);
                if i != p {
                    assert(after[i] == before[i]);
                    assert(before[i].pos != tm.pos) by {
                        if i < p {
                            assert(cell_before(before[i].pos, before[p as int].pos));
                        } else {
                            assert(cell_before(before[p as int].pos, before[i].pos));
                        }
                    }
                }
            }
            assert forall|i: int| 0 <= i < np.len() implies exists|j: int| 0 <= j < after.len() && after[j].pos == (#[trigger] np[i]).pos by {
                if i < placed.len() {
                    assert(np[i] == placed[i]);
                    let j = choose|j: int| 0 <= j < before.len() && before[j].pos == placed[i].pos;
                    assert(after[j].pos == before[j].pos);
                } else {
                    assert(after[p as int].pos == np[i].pos);
                }
            }
        }
    } else {
        out.insert(p, tile);
        proof {
            let after = tile_models(out@);
            assert(after =~= before.insert(p as int, tm));
            assert forall|i: int, j: int| 0 <= i < j < after.len() implies cell_before(after[i].pos, after[j].pos) by {
                if j < p {
                    assert(after[i] == before[i] && after[j] == before[j]);
                } else if i > p {
                    assert(after[i] == before[i - 1] && after[j] == before[j - 1]);
                } else if i == p {
                    assert(after[j] == before[j - 1]);
                    assert(p < before.len());
                    assert(!cell_before(before[p as int].pos, tm.pos));
                    assert(before[p as int].pos != tm.pos);
                    if j - 1 > p {
                        assert(cell_before(before[p as int].pos, before[j - 1].pos));
                    }
                } else if j == p {
                    assert(after[i] == before[i]);
                } else {
                    assert(after[i] == before[i] && after[j] == before[j - 1]);
                    assert(cell_before(before[i].pos, tm.pos));
                }
            }
            assert forall|i: int| 0 <= i < after.len() implies last_at(np, (#[trigger] after[i]).pos) == Some(after[i]) by {
                lemma_last_at_push(placed, tm, after[i].pos);
                if i < p {
                    assert(after[i] == before[i]);
                    assert(cell_before(before[i].pos, tm.pos));
                } else if i > p {
                    assert(after[i] == before[i - 1]);
                    if i - 1 == p {
                        assert(before[p as int].pos != tm.pos);
                        assert(!cell_before(before[p as int].pos, tm.pos));
                    } else {
                        assert(cell_before(before[p as int].pos, before[i - 1].pos));
                        assert(!cell_before(before[p as int].pos, tm.pos));
                    }
                }
            }
            assert forall|i: int| 0 <= i < np.len() implies exists|j: int| 0 <= j < after.len() && after[j].pos == (#[trigger] np[i]).pos by {
                if i < placed.len() {
                    assert(np[i] == placed[i]);
                    let j = choose|j: int| 0 <= j < before.len() && before[j].pos == placed[i].pos;
                    if j < p {
                        assert(after[j].pos == before[j].pos);
                    } else {
                        assert(after[j + 1].pos == before[j].pos);
                    }
                } else {
                    assert(after[p as int].pos == np[i].pos);
                }
            }
        }
    }
}

/// Every cell the entities cover lies in the small range.
pub open spec fn footprints_small(v: WorldView, c: Campaign) -> bool {
    forall|i: int| 0 <= i < v.entities.len() ==> match cells_of(v, c, (#[trigger] v.entities[i]).id) {
        Ok(cells) => forall|j: int| 0 <= j < cells.len() ==> small(#[trigger] cells[j]),
        Err(_) => true,
    }
}

fn shown_entity_exec(sight: Sight, e: &Entity) -> (r: bool)
    requires
        sight_small(sight),
        small(e.pos),
    ensures
        r == shown_entity(sight, *e),
{
    (!e.entity_type.is_static() || e.entity_type == EntityType::SpectralSausage) && e.entity_type != EntityType::Island
        && (sees_exec(sight, e.pos) || e.entity_type == EntityType::Sausage)
}

fn shown_static_exec(sight: Sight, e: &Entity) -> (r: bool)
    requires
        sight_small(sight),
        small(e.pos),
    ensures
        r == shown_static(sight, *e),
{
    e.entity_type.is_static() && e.entity_type != EntityType::SpectralSausage && sees_exec(sight, e.pos)
}

/// Puts an entity view among the others, after those with an id at most
/// its own.
fn insert_by_id(views: &mut Vec<EntityView>, view: EntityView)
    requires
        forall|i: int, j: int| 0 <= i < j < old(views)@.len() ==> old(views)@[i].id <= old(views)@[j].id,
    ensures
        forall|i: int, j: int| 0 <= i < j < final(views)@.len() ==> final(views)@[i].id <= final(views)@[j].id,
        entity_models(final(views)@).to_multiset() == entity_models(old(views)@).to_multiset().insert(view.model()),
{
    let ghost before = views@;
    let mut p: usize = 0;
    while p < views.len() && views[p].id <= view.id
        invariant
            p <= views@.len(),
            views@ == before,
            forall|k: int| 0 <= k < p ==> views@[k].id <= view.id,
        decreases views@.len() - p,
    {
        p += 1;
    }
    let ghost item = view;
    views.insert(p, view);
    proof {
        assert(entity_models(views@) =~= entity_models(before).insert(p as int, item.model()));
        vstd::seq_lib::to_multiset_insert(entity_models(before), p as int, item.model());
        assert forall|i: int, j: int| 0 <= i < j < views@.len() implies views@[i].id <= views@[j].id by {
            if j < p {
                assert(views@[i] == before[i] && views@[j] == before[j]);
            } else if i > p {
                assert(views@[i] == before[i - 1] && views@[j] == before[j - 1]);
            } else if i == p {
                assert(views@[j] == before[j - 1]);
                assert(before[p as int].id > item.id);
                if j - 1 > p {
                    assert(before[p as int].id <= before[j - 1].id);
                }
            } else if j == p {
                assert(views@[i] == before[i]);
            } else {
                assert(views@[i] == before[i] && views@[j] == before[j - 1]);
            }
        }
    }
}

/// The views of the shown entities, ordered by id.
fn project_entities(world: &PhysicsWorld, sight: Sight) -> (r: Result<Vec<EntityView>, String>)
    requires
        world_small(world.view(), world.campaign_of()),
        sight_small(sight),
    ensures
        match shown_models(world.view(), world.campaign_of(), sight, world.view().entities.len() as int) {
            Err(m) => r is Err && r->Err_0@ == m,
            Ok(models) => r is Ok && entities_shown(entity_models(r->Ok_0@), models),
        },
{
    let es = world.entity_list();
    let ghost v = world.view();
    let ghost c = world.campaign_of();
    let mut views: Vec<EntityView> = Vec::new();
    let mut i: usize = 0;
    assert(entity_models(views@) =~= Seq::<EntityModel>::empty());
    while i < es.len()
        invariant
            es@ == v.entities,
            v == world.view(),
            c == world.campaign_of(),
            world_small(v, c),
            sight_small(sight),
            i <= v.entities.len(),
            shown_models(v, c, sight, i as int) is Ok,
            forall|a: int, b: int| 0 <= a < b < views@.len() ==> views@[a].id <= views@[b].id,
            entity_models(views@).to_multiset() == shown_models(v, c, sight, i as int)->Ok_0.to_multiset(),
        decreases v.entities.len() - i,
    {
        assert(small(v.entities[i as int].pos));
        if shown_entity_exec(sight, &es[i]) {
            match entity_view(world, &es[i]) {
                Ok(view) => {
                    proof {
                        vstd::seq_lib::to_multiset_build(shown_models(v, c, sight, i as int)->Ok_0, view.model());
                    }
                    insert_by_id(&mut views, view);
                },
                Err(message) => {
                    proof {
                        lemma_shown_error(v, c, sight, i + 1, v.entities.len() as int);
                    }
                    return Err(message);
                },
            }
        }
        i += 1;
    }
    Ok(views)
}

/// The first view with the player's id.
fn player_view(views: &Vec<EntityView>, player_id: i32) -> (r: Option<EntityView>)
    ensures
        player_shown(match r {
            Some(p) => Some(p.model()),
            None => None,
        }, entity_models(views@), player_id),
{
    let mut player: Option<EntityView> = None;
    let mut k: usize = 0;
    while k < views.len()
        invariant
            k <= views@.len(),
            match player {
                None => forall|j: int| 0 <= j < k ==> views@[j].id != player_id,
                Some(p) => exists|q: int|
                    0 <= q < k && views@[q].model() == p.model() && p.id == player_id && forall|j: int|
                        0 <= j < q ==> views@[j].id != player_id,
            },
        decreases views@.len() - k,
    {
        if player.is_none() && views[k].id == player_id {
            let found = views[k].duplicate();
            player = Some(found);
        }
        k += 1;
    }
    proof {
        let ms = entity_models(views@);
        assert forall|j: int| 0 <= j < views@.len() implies ms[j] == views@[j].model() by {}
        match &player {
            None => {
                assert forall|j: int| 0 <= j < ms.len() implies ms[j].id != player_id by {
                    assert(ms[j] == views@[j].model());
                }
            },
            Some(p) => {
                let q = choose|q: int|
                    0 <= q < k && views@[q].model() == p.model() && p.id == player_id && forall|j: int|
                        0 <= j < q ==> views@[j].id != player_id;
                assert(ms[q] == p.model());
                assert forall|j: int| 0 <= j < q implies ms[j].id != player_id by {
                    assert(ms[j] == views@[j].model());
                }
            },
        }
    }
    player
}

/// The tiles in sight: one per cell in drawing order, the last placed
/// there.
fn project_tiles(world: &PhysicsWorld, islands: &Vec<(usize, Vec<Coord>)>, sight: Sight) -> (r: Result<Vec<TileView>, String>)
    requires
        world_small(world.view(), world.campaign_of()),
        sight_small(sight),
        forall|i: int| 0 <= i < islands@.len() ==> (#[trigger] islands@[i]).0 < world.view().entities.len(),
        forall|i: int, j: int| 0 <= i < islands@.len() && 0 <= j < islands@[i].1@.len() ==> small(#[trigger] islands@[i].1@[j]),
    ensures
        match placed_tiles(world.view(), world.campaign_of(), island_parts(world.view().entities, islands@), sight) {
            Err(m) => r is Err && r->Err_0@ == m,
            Ok(placed) => r is Ok && tiles_shown(tile_models(r->Ok_0@), placed),
        },
{
    let es = world.entity_list();
    let ghost v = world.view();
    let ghost c = world.campaign_of();
    let ghost parts = island_parts(v.entities, islands@);
    let mut tiles: Vec<TileView> = Vec::new();
    let mut n: usize = 0;
    while n < islands.len()
        invariant
            es@ == v.entities,
            v == world.view(),
            c == world.campaign_of(),
            world_small(v, c),
            parts == island_parts(v.entities, islands@),
            forall|q: int| 0 <= q < islands@.len() ==> (#[trigger] islands@[q]).0 < v.entities.len(),
            forall|q: int, j: int| 0 <= q < islands@.len() && 0 <= j < islands@[q].1@.len() ==> small(#[trigger] islands@[q].1@[j]),
            n <= islands@.len(),
            island_tiles(v, c, parts, n as int) is Ok,
            tiles_shown(tile_models(tiles@), island_tiles(v, c, parts, n as int)->Ok_0),
        decreases islands@.len() - n,
    {
        let island = &es[islands[n].0];
        let cells = &islands[n].1;
        assert(parts[n as int] == (*island, cells@));
        let ghost done = island_tiles(v, c, parts, n as int)->Ok_0;
        let mut m: usize = 0;
        while m < cells.len()
            invariant
                v == world.view(),
                c == world.campaign_of(),
                parts == island_parts(v.entities, islands@),
                    n < islands@.len(),
                parts[n as int] == (*island, cells@),
                island_tiles(v, c, parts, n as int) == Ok::<Seq<TileModel>, Seq<char>>(done),
                world_small(v, c),
                forall|j: int| 0 <= j < cells@.len() ==> small(#[trigger] cells@[j]),
                m <= cells@.len(),
                cell_tiles(v, c, *island, cells@, m as int) is Ok,
                tiles_shown(tile_models(tiles@), done + cell_tiles(v, c, *island, cells@, m as int)->Ok_0),
            decreases cells@.len() - m,
        {
            assert(small(cells@[m as int]));
            match island_tile(world, island, cells[m]) {
                Ok(tile) => {
                    let ghost prev = done + cell_tiles(v, c, *island, cells@, m as int)->Ok_0;
                    place_tile(&mut tiles, tile, Ghost(prev));
                    assert(prev.push(tile.model()) =~= done + cell_tiles(v, c, *island, cells@, m + 1)->Ok_0);
                },
                Err(message) => {
                    proof {
                        lemma_cell_error(v, c, *island, cells@, m + 1, cells@.len() as int);
                        lemma_island_error(v, c, parts, n + 1, parts.len() as int);
                        assert(parts.len() == islands@.len());
                    }
                    return Err(message);
                },
            }
            m += 1;
        }
        n += 1;
    }
    let ghost island_part = island_tiles(v, c, parts, parts.len() as int)->Ok_0;
    assert(parts.len() == islands@.len());
    let mut e: usize = 0;
    assert(island_part + static_tiles(sight, v.entities, 0) =~= island_part);
    while e < es.len()
        invariant
            es@ == v.entities,
            v == world.view(),
            c == world.campaign_of(),
            world_small(v, c),
            sight_small(sight),
            e <= v.entities.len(),
            tiles_shown(tile_models(tiles@), island_part + static_tiles(sight, v.entities, e as int)),
        decreases v.entities.len() - e,
    {
        assert(small(v.entities[e as int].pos));
        if shown_static_exec(sight, &es[e]) {
            let tile = static_tile(&es[e]);
            let ghost prev = island_part + static_tiles(sight, v.entities, e as int);
            place_tile(&mut tiles, tile, Ghost(prev));
            assert(tile.model() == static_tile_model(v.entities[e as int]));
            assert(prev.push(tile.model()) =~= island_part + static_tiles(sight, v.entities, e + 1));
        }
        e += 1;
    }
    Ok(tiles)
}

/// The projection of the world in sight, given the islands whose cells
/// show: the entity views ordered by id, the player's among them, and one
/// tile per cell in drawing order, the last placed there (islands' cells
/// first, then static entities); the first failure otherwise.
pub open spec fn projected(v: WorldView, c: Campaign, parts: Seq<(Entity, Seq<Coord>)>, sight: Sight, r: Result<Projection, String>) -> bool {
    match shown_models(v, c, sight, v.entities.len() as int) {
        Err(m) => r is Err && r->Err_0@ == m,
        Ok(models) => match placed_tiles(v, c, parts, sight) {
            Err(m) => r is Err && r->Err_0@ == m,
            Ok(placed) => r is Ok && {
                let (player, entities, tiles) = r->Ok_0;
                &&& entities_shown(entity_models(entities@), models)
                &&& player_shown(
                    match player {
                        Some(p) => Some(p.model()),
                        None => None,
                    },
                    entity_models(entities@),
                    v.player_id,
                )
                &&& tiles_shown(tile_models(tiles@), placed)
            },
        },
    }
}

/// See [`projected`].
pub fn project(world: &PhysicsWorld, islands: &Vec<(usize, Vec<Coord>)>, sight: Sight) -> (r: Result<Projection, String>)
    requires
        world_small(world.view(), world.campaign_of()),
        sight_small(sight),
        forall|i: int| 0 <= i < islands@.len() ==> (#[trigger] islands@[i]).0 < world.view().entities.len(),
        forall|i: int, j: int| 0 <= i < islands@.len() && 0 <= j < islands@[i].1@.len() ==> small(#[trigger] islands@[i].1@[j]),
    ensures
        projected(world.view(), world.campaign_of(), island_parts(world.view().entities, islands@), sight, r),
{
    let views = match project_entities(world, sight) {
        Ok(views) => views,
        Err(message) => {
            return Err(message);
        },
    };
    let player = player_view(&views, world.player_id());
    let tiles = match project_tiles(world, islands, sight) {
        Ok(tiles) => tiles,
        Err(message) => {
            return Err(message);
        },
    };
    Ok((player, views, tiles))
}

/// The family prefix of a puzzle id with a `__`: its root and `__`.
pub open spec fn family_of(level_id: Seq<char>) -> Option<Seq<char>> {
    let root = crate::sausage::entries::puzzle_root_spec(level_id);
    if root != level_id {
        Some(root + "__"@)
    } else {
        None
    }
}

/// An island shown with a puzzle: its active island, or one of its family.
pub open spec fn relevant_island(e: Entity, active: i32, family: Option<Seq<char>>) -> bool {
    e.entity_type == EntityType::Island && (e.id == active || match family {
        Some(f) => e.data@.len() >= f.len() && e.data@.take(f.len() as int) == f,
        None => false,
    })
}

/// The relevant islands among the first `k` entities with their visible
/// cells; the first failure otherwise.
pub open spec fn relevant_parts(v: WorldView, c: Campaign, active: i32, family: Option<Seq<char>>, k: int) -> Result<Seq<(Entity, Seq<Coord>)>, Seq<char>>
    decreases k,
{
    if k <= 0 {
        Ok(Seq::empty())
    } else {
        match relevant_parts(v, c, active, family, k - 1) {
            Err(m) => Err(m),
            Ok(done) => {
                let e = v.entities[k - 1];
                if relevant_island(e, active, family) {
                    match cells_of(v, c, e.id) {
                        Err(m) => Err(m),
                        Ok(cells) => Ok(done.push((e, visible_cells(cells)))),
                    }
                } else {
                    Ok(done)
                }
            },
        }
    }
}

/// The cells of the parts, part by part.
pub open spec fn flat_cells(parts: Seq<(Entity, Seq<Coord>)>) -> Seq<Coord>
    decreases parts.len(),
{
    if parts.len() == 0 {
        Seq::empty()
    } else {
        flat_cells(parts.drop_last()) + parts.last().1
    }
}

/// What a puzzle shows: its family's islands, seen within the box of
/// their visible cells.
pub open spec fn puzzle_projected(v: WorldView, c: Campaign, level_id: Seq<char>, r: Result<Projection, String>) -> bool {
    match entity_of(v, v.player_id) {
        None => r is Err && r->Err_0@ == "player disappeared"@,
        Some(_) => match first_named_of(v.entities, EntityType::Island, level_id) {
            None => r is Err && r->Err_0@ == "puzzle "@ + crate::text::debug_str(level_id) + " has no active island"@,
            Some(a) => match relevant_parts(v, c, v.entities[a].id, family_of(level_id), v.entities.len() as int) {
                Err(m) => r is Err && r->Err_0@ == m,
                Ok(parts) => if flat_cells(parts).len() == 0 {
                    r is Err && r->Err_0@ == "puzzle "@ + crate::text::debug_str(level_id) + " has no visible terrain"@
                } else {
                    let (low, high) = bounds_fold(flat_cells(parts));
                    projected(v, c, parts, Sight::Focus { min: low, max: high }, r)
                },
            },
        },
    }
}

proof fn lemma_relevant_error(v: WorldView, c: Campaign, active: i32, family: Option<Seq<char>>, k: int, n: int)
    requires
        0 <= k <= n,
        relevant_parts(v, c, active, family, k) is Err,
    ensures
        relevant_parts(v, c, active, family, n) == relevant_parts(v, c, active, family, k),
    decreases n - k,
{
    if k < n {
        lemma_relevant_error(v, c, active, family, k, n - 1);
    }
}

proof fn lemma_visible_subset(cells: Seq<Coord>)
    ensures
        forall|j: int| 0 <= j < visible_cells(cells).len() ==> cells.contains(#[trigger] visible_cells(cells)[j]),
    decreases cells.len(),
{
    if cells.len() > 0 {
        lemma_visible_subset(cells.drop_last());
        let d = cells.drop_last();
        assert forall|j: int| 0 <= j < visible_cells(cells).len() implies cells.contains(#[trigger] visible_cells(cells)[j]) by {
            if j < visible_cells(d).len() {
                assert(visible_cells(cells)[j] == visible_cells(d)[j]);
                let q = choose|q: int| 0 <= q < d.len() && d[q] == visible_cells(d)[j];
                assert(cells[q] == d[q]);
            } else {
                assert(cells[cells.len() - 1] == cells.last());
            }
        }
    }
}

proof fn lemma_bounds_small(ps: Seq<Coord>)
    requires
        ps.len() > 0,
        forall|j: int| 0 <= j < ps.len() ==> small(#[trigger] ps[j]),
    ensures
        small(bounds_fold(ps).0),
        small(bounds_fold(ps).1),
    decreases ps.len(),
{
    if ps.len() > 1 {
        lemma_bounds_small(ps.drop_last());
        assert(small(ps[ps.len() - 1]));
    } else {
        assert(small(ps[0]));
    }
}

/// What a puzzle shows; see [`puzzle_projected`].
pub fn project_puzzle(world: &PhysicsWorld, level_id: &str) -> (r: Result<Projection, String>)
    requires
        world_small(world.view(), world.campaign_of()),
        footprints_small(world.view(), world.campaign_of()),
    ensures
        puzzle_projected(world.view(), world.campaign_of(), level_id@, r),
{
    let ghost v = world.view();
    let ghost c = world.campaign_of();
    match world.entity(world.player_id()) {
        Some(_) => {},
        None => {
            return Err(String::from_str("player disappeared"));
        },
    }
    let es = world.entity_list();
    let active = match find_named(es, EntityType::Island, level_id) {
        Some(a) => es[a].id,
        None => {
            let mut message = String::from_str("puzzle ");
            let cs = crate::text::to_chars(level_id);
            crate::text::append_debug(&mut message, cs.as_slice());
            message.append(" has no active island");
            return Err(message);
        },
    };
    let root = crate::sausage::entries::puzzle_root(level_id);
    let family: Option<String> = if crate::text::str_eq(root, level_id) {
        None
    } else {
        let mut f = String::from_str(root);
        f.append("__");
        Some(f)
    };
    let ghost fam = family_of(level_id@);
    assert(match &family {
        Some(f) => fam == Some(f@),
        None => fam is None,
    });
    let mut parts: Vec<(usize, Vec<Coord>)> = Vec::new();
    let mut flat: Vec<Coord> = Vec::new();
    let mut i: usize = 0;
    assert(island_parts(v.entities, parts@) =~= Seq::<(Entity, Seq<Coord>)>::empty());
    let ghost a = first_named_of(v.entities, EntityType::Island, level_id@)->0;
    while i < es.len()
        invariant
            es@ == v.entities,
            entity_of(v, v.player_id) is Some,
            first_named_of(v.entities, EntityType::Island, level_id@) == Some(a),
            0 <= a < v.entities.len(),
            v.entities[a].id == active,
            v == world.view(),
            c == world.campaign_of(),
            world_small(v, c),
            footprints_small(v, c),
            fam == family_of(level_id@),
            match &family {
                Some(f) => fam == Some(f@),
                None => fam is None,
            },
            i <= v.entities.len(),
            relevant_parts(v, c, active, fam, i as int) == Ok::<Seq<(Entity, Seq<Coord>)>, Seq<char>>(island_parts(v.entities, parts@)),
            flat@ == flat_cells(island_parts(v.entities, parts@)),
            forall|q: int| 0 <= q < parts@.len() ==> (#[trigger] parts@[q]).0 < v.entities.len(),
            forall|q: int, j: int| 0 <= q < parts@.len() && 0 <= j < parts@[q].1@.len() ==> small(#[trigger] parts@[q].1@[j]),
        decreases v.entities.len() - i,
    {
        let e = &es[i];
        let in_family = match &family {
            Some(f) => {
                let d = crate::text::to_chars(e.data.as_str());
                let fc = crate::text::to_chars(f.as_str());
                let mut same = d.len() >= fc.len();
                let mut k: usize = 0;
                while same && k < fc.len()
                    invariant
                        k <= fc@.len(),
                        same ==> d@.len() >= fc@.len(),
                        same == (d@.len() >= fc@.len() && forall|q: int| 0 <= q < k ==> d@[q] == fc@[q]),
                    decreases fc@.len() - k,
                {
                    if d[k] != fc[k] {
                        same = false;
                    }
                    k += 1;
                }
                proof {
                    if same {
                        assert(d@.take(fc@.len() as int) =~= fc@);
                    } else if d@.len() >= fc@.len() {
                        let q = choose|q: int| 0 <= q < fc@.len() && d@[q] != fc@[q];
                        assert(d@.take(fc@.len() as int)[q] != fc@[q]);
                    }
                }
                same
            },
            None => false,
        };
        if e.entity_type == EntityType::Island && (e.id == active || in_family) {
            match world.source_footprint(e.id) {
                Ok(cells) => {
                    let mut visible: Vec<Coord> = Vec::new();
                    let mut m: usize = 0;
                    assert(visible@ =~= visible_cells(cells@.take(0)));
                    while m < cells.len()
                        invariant
                            m <= cells@.len(),
                            visible@ == visible_cells(cells@.take(m as int)),
                        decreases cells@.len() - m,
                    {
                        assert(cells@.take(m + 1).drop_last() =~= cells@.take(m as int));
                        if cells[m].z > -10 {
                            visible.push(cells[m]);
                        }
                        m += 1;
                    }
                    assert(cells@.take(m as int) =~= cells@);
                    proof {
                        lemma_visible_subset(cells@);
                        assert(match cells_of(v, c, v.entities[i as int].id) {
                            Ok(cs) => forall|j: int| 0 <= j < cs.len() ==> small(#[trigger] cs[j]),
                            Err(_) => true,
                        });
                        assert forall|j: int| 0 <= j < visible@.len() implies small(#[trigger] visible@[j]) by {
                            let q = choose|q: int| 0 <= q < cells@.len() && cells@[q] == visible@[j];
                            assert(small(cells@[q]));
                        }
                    }
                    let ghost old_parts = parts@;
                    let ghost old_flat = flat@;
                    let mut n: usize = 0;
                    while n < visible.len()
                        invariant
                            n <= visible@.len(),
                            flat@ == old_flat + visible@.take(n as int),
                        decreases visible@.len() - n,
                    {
                        flat.push(visible[n]);
                        assert(flat@ =~= old_flat + visible@.take(n + 1));
                        n += 1;
                    }
                    assert(visible@.take(n as int) =~= visible@);
                    let ghost vis = visible@;
                    parts.push((i, visible));
                    proof {
                        assert(island_parts(v.entities, parts@) =~= island_parts(v.entities, old_parts).push((v.entities[i as int], vis)));
                        assert(island_parts(v.entities, parts@).drop_last() =~= island_parts(v.entities, old_parts));
                    }
                },
                Err(message) => {
                    proof {
                        lemma_relevant_error(v, c, active, fam, i + 1, v.entities.len() as int);
                    }
                    return Err(message);
                },
            }
        }
        i += 1;
    }
    if flat.len() == 0 {
        let mut message = String::from_str("puzzle ");
        let cs = crate::text::to_chars(level_id);
        crate::text::append_debug(&mut message, cs.as_slice());
        message.append(" has no visible terrain");
        return Err(message);
    }
    let bounds = match bounds_from_positions(&flat) {
        Ok(b) => b,
        Err(message) => {
            return Err(message);
        },
    };
    proof {
        assert forall|j: int| 0 <= j < flat@.len() implies small(#[trigger] flat@[j]) by {
            lemma_flat_small(island_parts(v.entities, parts@), parts@, v.entities, j);
        }
        lemma_bounds_small(flat@);
    }
    project(world, &parts, Sight::Focus { min: bounds.min, max: bounds.max })
}

proof fn lemma_flat_small(ps: Seq<(Entity, Seq<Coord>)>, raw: Seq<(usize, Vec<Coord>)>, es: Seq<Entity>, j: int)
    requires
        ps == island_parts(es, raw),
        forall|q: int, k: int| 0 <= q < raw.len() && 0 <= k < raw[q].1@.len() ==> small(#[trigger] raw[q].1@[k]),
        0 <= j < flat_cells(ps).len(),
    ensures
        small(flat_cells(ps)[j]),
    decreases ps.len(),
{
    if ps.len() > 0 {
        let d = ps.drop_last();
        assert(d == island_parts(es, raw.drop_last()));
        if j < flat_cells(d).len() {
            lemma_flat_small(d, raw.drop_last(), es, j);
            assert(flat_cells(ps)[j] == flat_cells(d)[j]);
        } else {
            let k = j - flat_cells(d).len();
            assert(flat_cells(ps)[j] == ps.last().1[k]);
            assert(ps.last().1 == raw[raw.len() - 1].1@);
            assert(small(raw[raw.len() - 1].1@[k]));
        }
    }
}

/// What an overworld snapshot says of the overworld.
#[derive(Clone, Debug, PartialEq, Eq)]
pub struct OverworldStatus {
    pub title: String,
    pub actions: usize,
    pub bounds: BoundsView,
    pub target: Option<EntranceView>,
    pub completed_islands: Vec<i32>,
    pub islands: Vec<IslandPoseView>,
}

/// The whole overworld as a map: its bounds, entrances, islands and tiles.
#[derive(Clone, Debug, PartialEq, Eq)]
pub struct OverworldMapView {
    pub bounds: BoundsView,
    pub entrances: Vec<EntranceView>,
    pub islands: Vec<IslandPoseView>,
    pub tiles: Vec<TileView>,
}

/// Everything a client is shown of a session at one moment.
#[derive(Clone, Debug, PartialEq, Eq)]
pub struct GameSnapshot {
    pub schema: &'static str,
    pub campaign: CampaignStatus,
    pub status: String,
    pub mode: &'static str,
    pub level: Option<LevelStatus>,
    pub overworld: Option<OverworldStatus>,
    pub overworld_map: Option<OverworldMapView>,
    pub exit_ready: bool,
    pub exit: Option<ExitView>,
    pub player: Option<EntityView>,
    pub entities: Vec<EntityView>,
    pub tiles: Vec<TileView>,
    pub controls: [&'static str; 4],
}

/// What a batch of moves did: how many were asked and applied, which were
/// accepted, the levels entered and solved, and the snapshot after.
#[derive(Clone, Debug, PartialEq, Eq)]
pub struct MoveResult {
    pub requested: usize,
    pub applied: usize,
    pub accepted: Vec<bool>,
    pub entered_levels: Vec<String>,
    pub solved_levels: Vec<String>,
    pub snapshot: GameSnapshot,
}

/// The snapshot of a puzzle in play: the puzzle's projection (see
/// [`puzzle_projected`]), its exit and whether it can be taken, the given
/// campaign and level status, and the four compass controls; the
/// projection's failure otherwise.
pub open spec fn puzzle_snapshot(
    v: WorldView,
    c: Campaign,
    g: crate::sausage::game3d::GameView,
    campaign: CampaignStatus,
    level: LevelStatus,
    r: Result<GameSnapshot, String>,
) -> bool {
    match r {
        Err(m) => puzzle_projected(v, c, level.id@, Err(m)),
        Ok(s) => {
            &&& puzzle_projected(v, c, level.id@, Ok((s.player, s.entities, s.tiles)))
            &&& s.schema@ == "sausage-state-v2"@
            &&& s.campaign == campaign
            &&& s.status@ == "in_progress"@
            &&& s.mode@ == "puzzle"@
            &&& s.level == Some(level)
            &&& s.overworld is None
            &&& s.overworld_map is None
            &&& s.exit_ready == crate::sausage::game3d::exit_open(v, g)
            &&& s.exit == Some(ExitView { pos: g.exit_pos, direction: g.exit_direction, ready: s.exit_ready })
            &&& s.controls[0]@ == "north"@ && s.controls[1]@ == "south"@ && s.controls[2]@ == "west"@ && s.controls[3]@
                == "east"@
        },
    }
}

/// See [`puzzle_snapshot`].
pub fn snapshot_from_game(game: &Game3d, campaign: CampaignStatus, level: LevelStatus) -> (r: Result<GameSnapshot, String>)
    requires
        world_small(game.world_view(), game.campaign_of()),
        footprints_small(game.world_view(), game.campaign_of()),
    ensures
        puzzle_snapshot(game.world_view(), game.campaign_of(), game.game_view(), campaign, level, r),
{
    let world = game.physics();
    let (player, entities, tiles) = match project_puzzle(world, level.id.as_str()) {
        Ok(p) => p,
        Err(m) => {
            return Err(m);
        },
    };
    let exit_ready = game.can_exit();
    let (exit_pos, exit_direction) = game.exit();
    Ok(GameSnapshot {
        schema: "sausage-state-v2",
        campaign,
        status: "in_progress".to_owned(),
        mode: "puzzle",
        level: Some(level),
        overworld: None,
        overworld_map: None,
        exit_ready,
        exit: Some(ExitView { pos: exit_pos, direction: exit_direction, ready: exit_ready }),
        player,
        entities,
        tiles,
        controls: ["north", "south", "west", "east"],
    })
}

/// The cells of an island shown on the overworld around `center`: those
/// not sunk below the world and in sight.
pub open spec fn overworld_cells(cells: Seq<Coord>, center: Coord) -> Seq<Coord>
    decreases cells.len(),
{
    if cells.len() == 0 {
        Seq::empty()
    } else if cells.last().z > -10 && sees(Sight::Around { center }, cells.last()) {
        overworld_cells(cells.drop_last(), center).push(cells.last())
    } else {
        overworld_cells(cells.drop_last(), center)
    }
}

/// Every island among the first `k` entities with its cells shown around
/// `center`; the first failure otherwise.
pub open spec fn overworld_parts(v: WorldView, c: Campaign, center: Coord, k: int) -> Result<Seq<(Entity, Seq<Coord>)>, Seq<char>>
    decreases k,
{
    if k <= 0 {
        Ok(Seq::empty())
    } else {
        match overworld_parts(v, c, center, k - 1) {
            Err(m) => Err(m),
            Ok(done) => {
                let e = v.entities[k - 1];
                if e.entity_type == EntityType::Island {
                    match cells_of(v, c, e.id) {
                        Err(m) => Err(m),
                        Ok(cells) => Ok(done.push((e, overworld_cells(cells, center)))),
                    }
                } else {
                    Ok(done)
                }
            },
        }
    }
}

/// What the overworld shows: every island, seen around the player.
pub open spec fn overworld_projected(v: WorldView, c: Campaign, r: Result<Projection, String>) -> bool {
    match entity_of(v, v.player_id) {
        None => r is Err && r->Err_0@ == "player disappeared"@,
        Some(p) => match overworld_parts(v, c, p.pos, v.entities.len() as int) {
            Err(m) => r is Err && r->Err_0@ == m,
            Ok(parts) => projected(v, c, parts, Sight::Around { center: p.pos }, r),
        },
    }
}

proof fn lemma_overworld_error(v: WorldView, c: Campaign, center: Coord, k: int, n: int)
    requires
        0 <= k <= n,
        overworld_parts(v, c, center, k) is Err,
    ensures
        overworld_parts(v, c, center, n) == overworld_parts(v, c, center, k),
    decreases n - k,
{
    if k < n {
        lemma_overworld_error(v, c, center, k, n - 1);
    }
}

proof fn lemma_overworld_subset(cells: Seq<Coord>, center: Coord)
    ensures
        forall|j: int|
            0 <= j < overworld_cells(cells, center).len() ==> cells.contains(#[trigger] overworld_cells(cells, center)[j]),
    decreases cells.len(),
{
    if cells.len() > 0 {
        let d = cells.drop_last();
        lemma_overworld_subset(d, center);
        assert forall|j: int| 0 <= j < overworld_cells(cells, center).len() implies cells.contains(
            #[trigger] overworld_cells(cells, center)[j],
        ) by {
            if j < overworld_cells(d, center).len() {
                assert(overworld_cells(cells, center)[j] == overworld_cells(d, center)[j]);
                let q = choose|q: int| 0 <= q < d.len() && d[q] == overworld_cells(d, center)[j];
                assert(cells[q] == d[q]);
            } else {
                assert(cells[cells.len() - 1] == cells.last());
            }
        }
    }
}

/// The projection of the overworld around its player; see
/// [`overworld_projected`].
pub fn project_overworld(world: &PhysicsWorld) -> (r: Result<Projection, String>)
    requires
        world_small(world.view(), world.campaign_of()),
        footprints_small(world.view(), world.campaign_of()),
    ensures
        overworld_projected(world.view(), world.campaign_of(), r),
{
    let ghost v = world.view();
    let ghost c = world.campaign_of();
    let center = match world.entity(world.player_id()) {
        Some(p) => p.pos,
        None => {
            return Err(String::from_str("player disappeared"));
        },
    };
    proof {
        crate::sausage::game3d::lemma_entity_small(v, c, v.player_id);
    }
    let sight = Sight::Around { center };
    let es = world.entity_list();
    let mut parts: Vec<(usize, Vec<Coord>)> = Vec::new();
    let mut i: usize = 0;
    assert(island_parts(v.entities, parts@) =~= Seq::<(Entity, Seq<Coord>)>::empty());
    while i < es.len()
        invariant
            es@ == v.entities,
            entity_of(v, v.player_id) matches Some(p) && p.pos == center,
            small(center),
            sight == (Sight::Around { center }),
            v == world.view(),
            c == world.campaign_of(),
            world_small(v, c),
            footprints_small(v, c),
            i <= v.entities.len(),
            overworld_parts(v, c, center, i as int) == Ok::<Seq<(Entity, Seq<Coord>)>, Seq<char>>(island_parts(v.entities, parts@)),
            forall|q: int| 0 <= q < parts@.len() ==> (#[trigger] parts@[q]).0 < v.entities.len(),
            forall|q: int, j: int| 0 <= q < parts@.len() && 0 <= j < parts@[q].1@.len() ==> small(#[trigger] parts@[q].1@[j]),
        decreases v.entities.len() - i,
    {
        let e = &es[i];
        if e.entity_type == EntityType::Island {
            match world.source_footprint(e.id) {
                Ok(cells) => {
                    proof {
                        assert(match cells_of(v, c, v.entities[i as int].id) {
                            Ok(cs) => forall|j: int| 0 <= j < cs.len() ==> small(#[trigger] cs[j]),
                            Err(_) => true,
                        });
                    }
                    let mut shown: Vec<Coord> = Vec::new();
                    let mut m: usize = 0;
                    assert(shown@ =~= overworld_cells(cells@.take(0), center));
                    while m < cells.len()
                        invariant
                            m <= cells@.len(),
                            small(center),
                            sight == (Sight::Around { center }),
                            forall|j: int| 0 <= j < cells@.len() ==> small(#[trigger] cells@[j]),
                            shown@ == overworld_cells(cells@.take(m as int), center),
                        decreases cells@.len() - m,
                    {
                        assert(cells@.take(m + 1).drop_last() =~= cells@.take(m as int));
                        let pos = cells[m];
                        if pos.z > -10 && sees_exec(sight, pos) {
                            shown.push(pos);
                        }
                        m += 1;
                    }
                    assert(cells@.take(m as int) =~= cells@);
                    proof {
                        lemma_overworld_subset(cells@, center);
                        assert forall|j: int| 0 <= j < shown@.len() implies small(#[trigger] shown@[j]) by {
                            let q = choose|q: int| 0 <= q < cells@.len() && cells@[q] == shown@[j];
                            assert(small(cells@[q]));
                        }
                    }
                    let ghost old_parts = parts@;
                    let ghost vis = shown@;
                    parts.push((i, shown));
                    proof {
                        assert(island_parts(v.entities, parts@) =~= island_parts(v.entities, old_parts).push((v.entities[i as int], vis)));
                    }
                },
                Err(message) => {
                    proof {
                        lemma_overworld_error(v, c, center, i + 1, v.entities.len() as int);
                    }
                    return Err(message);
                },
            }
        }
        i += 1;
    }
    project(world, &parts, sight)
}

} // verus!
