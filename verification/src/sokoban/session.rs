//! A Sokoban play session: the selected level, the solved levels, and the
//! rule that a tier unlocks once half of each earlier tier is solved.

use vstd::prelude::*;
use vstd::string::*;

use crate::sokoban::campaign::{
    campaign_fits, campaign_valid, total_levels, Campaign, Level, Tier, level_valid, tier_ok,
    tiers_ok_before, levels_ok_before, level_ok,
};
use crate::sokoban::engine::{
    direction_name,
    Board, BoardModel, BoardSnapshot, Direction, StepResult, step_model, undo_model, reset_model,
    solved_model, snapshot_of,
};
use crate::text::str_eq;

verus! {

struct Active {
    tier_index: usize,
    level_index: usize,
    board: Board,
}

pub struct Session<'a> {
    campaign: &'a Campaign,
    active: Option<Active>,
    solved: Vec<String>,
}

/// The level in play: its tier, its place in the tier, and its board.
pub struct ActiveModel {
    pub tier: int,
    pub level: int,
    pub board: BoardModel,
}

pub struct SessionModel {
    pub active: Option<ActiveModel>,
    pub solved: Seq<Seq<char>>,
}

pub open spec fn views(v: Seq<String>) -> Seq<Seq<char>> {
    v.map_values(|s: String| s@)
}

/// How many of the first `n` levels of tier `t` are solved.
pub open spec fn solved_among(c: &Campaign, solved: Seq<Seq<char>>, t: int, n: int) -> nat
    decreases n,
{
    if n <= 0 {
        0
    } else {
        solved_among(c, solved, t, n - 1) + if solved.contains(c.tiers@[t].levels@[n - 1].id@) {
            1nat
        } else {
            0nat
        }
    }
}

pub open spec fn solved_in_tier_spec(c: &Campaign, solved: Seq<Seq<char>>, t: int) -> nat {
    solved_among(c, solved, t, c.tiers@[t].levels@.len() as int)
}

/// Tier `t` is playable once every earlier tier has at least its
/// `unlock_after` levels solved.
pub open spec fn tier_unlocked_spec(c: &Campaign, solved: Seq<Seq<char>>, t: int) -> bool {
    forall|u: int|
        0 <= u < t ==> #[trigger] solved_in_tier_spec(c, solved, u) >= c.tiers@[u].unlock_after
}

pub open spec fn tier_status(c: &Campaign, solved: Seq<Seq<char>>, t: int) -> Seq<char> {
    if !tier_unlocked_spec(c, solved, t) {
        "locked"@
    } else if solved_in_tier_spec(c, solved, t) == c.tiers@[t].levels@.len() {
        "complete"@
    } else {
        "unlocked"@
    }
}

/// How many more solved levels of tier `t` the next tier waits for.
pub open spec fn remaining_to_unlock(c: &Campaign, solved: Seq<Seq<char>>, t: int) -> nat {
    if t + 1 < c.tiers@.len() && c.tiers@[t].unlock_after > solved_in_tier_spec(c, solved, t) {
        (c.tiers@[t].unlock_after - solved_in_tier_spec(c, solved, t)) as nat
    } else {
        0
    }
}

/// Solving records a level's id once.
pub open spec fn record_solved(solved: Seq<Seq<char>>, id: Seq<char>) -> Seq<Seq<char>> {
    if solved.contains(id) {
        solved
    } else {
        solved.push(id)
    }
}

/// Steps the board through `ds` until a step solves the level: (board
/// after, number of steps taken, whether the last one solved it).
pub open spec fn run_steps(b: BoardModel, ds: Seq<Direction>) -> (BoardModel, nat, bool)
    decreases ds.len(),
{
    if ds.len() == 0 {
        (b, 0, false)
    } else {
        let a = step_model(b, ds[0]).0;
        if solved_model(a) {
            (a, 1, true)
        } else {
            let rest = run_steps(a, ds.drop_first());
            (rest.0, rest.1 + 1, rest.2)
        }
    }
}

/// The board after the first `i` steps of `ds`, none skipped.
pub open spec fn board_after(b: BoardModel, ds: Seq<Direction>, i: int) -> BoardModel
    decreases i,
{
    if i <= 0 {
        b
    } else {
        step_model(board_after(b, ds, i - 1), ds[i - 1]).0
    }
}

/// The result of the `i`-th step of `ds` from `b`: its direction, whether
/// it moved and pushed, and whether the board after it is solved.
pub open spec fn step_result_ok(r: StepResult, b: BoardModel, ds: Seq<Direction>, i: int) -> bool {
    let before = board_after(b, ds, i);
    &&& r.direction@ == direction_name(ds[i])
    &&& r.moved == step_model(before, ds[i]).1
    &&& r.pushed == step_model(before, ds[i]).2
    &&& r.solved == solved_model(board_after(b, ds, i + 1))
}

pub struct TierSnapshot<'a> {
    pub id: &'a str,
    pub title: &'a str,
    pub difficulty: &'a str,
    pub status: &'static str,
    pub solved: usize,
    pub total: usize,
    pub unlock_after: usize,
    pub remaining_to_unlock_next: usize,
}

pub struct CampaignSnapshot<'a> {
    pub id: &'a str,
    pub title: &'a str,
    pub score: usize,
    pub max_score: usize,
    pub complete: bool,
}

pub struct LevelSnapshot<'a> {
    pub id: &'a str,
    pub title: &'a str,
    pub source_id: &'a str,
    pub tier_id: &'a str,
    pub tier_title: &'a str,
    pub number: usize,
    pub solved: bool,
}

pub struct LevelSummary<'a> {
    pub id: &'a str,
    pub title: &'a str,
    pub tier_id: &'a str,
    pub number: usize,
    pub unlocked: bool,
    pub solved: bool,
    pub width: usize,
    pub height: usize,
}

pub struct Symbols {
    pub wall: char,
    pub floor: char,
    pub goal: char,
    pub box_tile: char,
    pub box_on_goal: char,
    pub player: char,
    pub player_on_goal: char,
}

pub struct Snapshot<'a> {
    pub schema: &'static str,
    pub campaign: CampaignSnapshot<'a>,
    pub tiers: Vec<TierSnapshot<'a>>,
    pub level: Option<LevelSnapshot<'a>>,
    pub board: Option<BoardSnapshot>,
    pub symbols: Symbols,
}

impl<'a> View for Session<'a> {
    type V = SessionModel;

    closed spec fn view(&self) -> SessionModel {
        SessionModel {
            active: match &self.active {
                Some(a) => Some(
                    ActiveModel {
                        tier: a.tier_index as int,
                        level: a.level_index as int,
                        board: a.board@,
                    },
                ),
                None => None,
            },
            solved: views(self.solved@),
        }
    }
}

impl<'a> Session<'a> {
    pub closed spec fn campaign_spec(&self) -> &'a Campaign {
        self.campaign
    }

    /// The session's invariant: a playable campaign, an in-range active
    /// level with a well-formed board, and solved ids recorded once each.
    pub closed spec fn wf(&self) -> bool {
        &&& campaign_valid(self.campaign)
        &&& campaign_fits(self.campaign)
        &&& total_levels(self.campaign.tiers@) <= usize::MAX
        &&& match &self.active {
            Some(a) => {
                &&& a.tier_index < self.campaign.tiers@.len()
                &&& a.level_index < self.campaign.tiers@[a.tier_index as int].levels@.len()
                &&& a.board.wf()
            },
            None => true,
        }
        &&& views(self.solved@).no_duplicates()
    }

    /// A session on a validated campaign, with no level selected and
    /// nothing solved.
    pub fn new(campaign: &'a Campaign) -> (r: Self)
        requires
            campaign_valid(campaign),
            campaign_fits(campaign),
            total_levels(campaign.tiers@) <= usize::MAX,
        ensures
            r.wf(),
            r.campaign_spec() == campaign,
            r@.active is None,
            r@.solved.len() == 0,
    {
        let r = Session { campaign, active: None, solved: Vec::new() };
        assert(views(r.solved@) =~= Seq::<Seq<char>>::empty());
        r
    }

    pub fn score(&self) -> (r: usize)
        requires
            self.wf(),
        ensures
            r == self@.solved.len(),
    {
        self.solved.len()
    }

    pub fn campaign(&self) -> (r: &Campaign)
        ensures
            r == self.campaign_spec(),
    {
        self.campaign
    }

    fn is_solved(&self, id: &str) -> (r: bool)
        ensures
            r == views(self.solved@).contains(id@),
    {
        let mut i: usize = 0;
        while i < self.solved.len()
            invariant
                i <= self.solved@.len(),
                forall|j: int| 0 <= j < i ==> self.solved@[j]@ != id@,
            decreases self.solved@.len() - i,
        {
            if str_eq(self.solved[i].as_str(), id) {
                assert(views(self.solved@)[i as int] == id@);
                return true;
            }
            i += 1;
        }
        assert(!views(self.solved@).contains(id@)) by {
            if views(self.solved@).contains(id@) {
                let j = choose|j: int| 0 <= j < views(self.solved@).len() && views(self.solved@)[j]
                    == id@;
                assert(self.solved@[j]@ == id@);
            }
        }
        false
    }

    fn solved_in_tier(&self, tier_index: usize) -> (r: usize)
        requires
            self.wf(),
            tier_index < self.campaign.tiers@.len(),
        ensures
            r == solved_in_tier_spec(self.campaign, self@.solved, tier_index as int),
            r <= self.campaign.tiers@[tier_index as int].levels@.len(),
    {
        let levels = &self.campaign.tiers[tier_index].levels;
        let mut count: usize = 0;
        let mut l: usize = 0;
        while l < levels.len()
            invariant
                self.wf(),
                tier_index < self.campaign.tiers@.len(),
                levels == self.campaign.tiers@[tier_index as int].levels,
                l <= levels@.len(),
                count == solved_among(self.campaign, self@.solved, tier_index as int, l as int),
                count <= l,
            decreases levels@.len() - l,
        {
            if self.is_solved(levels[l].id.as_str()) {
                count += 1;
            }
            l += 1;
        }
        count
    }

    fn tier_unlocked(&self, tier_index: usize) -> (r: bool)
        requires
            self.wf(),
            tier_index <= self.campaign.tiers@.len(),
        ensures
            r == tier_unlocked_spec(self.campaign, self@.solved, tier_index as int),
    {
        let mut u: usize = 0;
        while u < tier_index
            invariant
                self.wf(),
                tier_index <= self.campaign.tiers@.len(),
                u <= tier_index,
                forall|v: int|
                    0 <= v < u ==> #[trigger] solved_in_tier_spec(self.campaign, self@.solved, v)
                        >= self.campaign.tiers@[v].unlock_after,
            decreases tier_index - u,
        {
            if self.solved_in_tier(u) < self.campaign.tiers[u].unlock_after {
                return false;
            }
            u += 1;
        }
        true
    }

    /// Selects a level by id and starts it afresh. Unknown levels and levels
    /// of locked tiers are refused and leave the session unchanged.
    pub fn select(&mut self, level_id: &str) -> (r: Result<(), String>)
        requires
            old(self).wf(),
        ensures
            final(self).wf(),
            final(self).campaign_spec() == old(self).campaign_spec(),
            final(self)@.solved == old(self)@.solved,
            match r {
                Ok(()) => exists|t: int, l: int|
                    0 <= t < old(self).campaign_spec().tiers@.len() && 0 <= l
                        < old(self).campaign_spec().tiers@[t].levels@.len()
                        && (#[trigger] old(self).campaign_spec().tiers@[t].levels@[l]).id@
                        == level_id@ && tier_unlocked_spec(
                        old(self).campaign_spec(),
                        old(self)@.solved,
                        t,
                    ) && final(self)@.active == Some(
                        ActiveModel {
                            tier: t,
                            level: l,
                            board: final(self)@.active->0.board,
                        },
                    ) && final(self)@.active->0.board.history.len() == 0
                        && final(self)@.active->0.board.position
                        == final(self)@.active->0.board.initial,
                Err(message) => final(self)@ == old(self)@ && ((forall|t: int, l: int|
                    0 <= t < old(self).campaign_spec().tiers@.len() && 0 <= l
                        < old(self).campaign_spec().tiers@[t].levels@.len()
                        ==> (#[trigger] old(self).campaign_spec().tiers@[t].levels@[l]).id@
                        != level_id@) && message@ == "unknown level: "@ + level_id@) || (exists|
                    t: int,
                    l: int,
                |
                    0 <= t < old(self).campaign_spec().tiers@.len() && 0 <= l
                        < old(self).campaign_spec().tiers@[t].levels@.len()
                        && (#[trigger] old(self).campaign_spec().tiers@[t].levels@[l]).id@
                        == level_id@ && !tier_unlocked_spec(
                        old(self).campaign_spec(),
                        old(self)@.solved,
                        t,
                    )),
            },
    {
        let (tier_index, level_index, level) = match self.campaign.find_level(level_id) {
            Some(found) => found,
            None => {
                let mut message = String::from_str("unknown level: ");
                message.append(level_id);
                return Err(message);
            },
        };
        if !self.tier_unlocked(tier_index) {
            assert(self.campaign.tiers@[tier_index as int].levels@[level_index as int].id@
                == level_id@);
            assert(self.campaign_spec().tiers@[tier_index as int].levels@[level_index as int].id@
                == level_id@);
            assert(!tier_unlocked_spec(self.campaign_spec(), self@.solved, tier_index as int));
            assert(exists|t: int, l: int|
                0 <= t < self.campaign_spec().tiers@.len() && 0 <= l
                    < self.campaign_spec().tiers@[t].levels@.len()
                    && (#[trigger] self.campaign_spec().tiers@[t].levels@[l]).id@
                    == level_id@ && !tier_unlocked_spec(
                    self.campaign_spec(),
                    self@.solved,
                    t,
                ));
            let mut message = String::from_str("tier ");
            message.append(self.campaign.tiers[tier_index].id.as_str());
            message.append(" is locked; solve at least half of the preceding tier first");
            return Err(message);
        }
        proof {
            assert(tier_ok(self.campaign, tier_index as int));
            assert(level_ok(self.campaign, tier_index as int, level_index as int));
            assert(campaign_fits(self.campaign));
        }
        let ghost solved0 = self@.solved;
        assert(self.campaign_spec().tiers@[tier_index as int].levels@[level_index as int].id@
            == level_id@);
        assert(tier_unlocked_spec(self.campaign_spec(), self@.solved, tier_index as int));
        let board = Board::from_level(level);
        self.active = Some(Active { tier_index, level_index, board });
        assert(self@.solved == solved0);
        Ok(())
    }

    /// Plays up to 64 directions on the selected level, stopping after the
    /// step that solves it; a level solved for the first time adds one to
    /// the score. Refused without any change: no directions, more than 64,
    /// or no level selected.
    pub fn move_many(&mut self, directions: &[Direction]) -> (r: Result<(Vec<StepResult>, bool), String>)
        requires
            old(self).wf(),
        ensures
            final(self).wf(),
            final(self).campaign_spec() == old(self).campaign_spec(),
            match r {
                Ok((results, newly_solved)) => {
                    &&& 1 <= directions@.len() <= 64
                    &&& old(self)@.active is Some
                    &&& ({
                        let a = old(self)@.active->0;
                        let run = run_steps(a.board, directions@);
                        let id = old(self).campaign_spec().tiers@[a.tier].levels@[a.level].id@;
                        &&& final(self)@.active == Some(ActiveModel { board: run.0, ..a })
                        &&& results@.len() == run.1
                        &&& forall|i: int| 0 <= i < results@.len() ==> step_result_ok(#[trigger] results@[i], a.board, directions@, i)
                        &&& newly_solved == (run.2 && !old(self)@.solved.contains(id))
                        &&& final(self)@.solved == if run.2 {
                            record_solved(old(self)@.solved, id)
                        } else {
                            old(self)@.solved
                        }
                    })
                },
                Err(message) => {
                    &&& final(self)@ == old(self)@
                    &&& (directions@.len() == 0 && message@ == "provide at least one direction"@)
                        || (directions@.len() > 64 && message@
                        == "a move command accepts at most 64 directions"@) || (1
                        <= directions@.len() <= 64 && old(self)@.active is None && message@
                        == "select a level before moving"@)
                },
            },
    {
        if directions.len() == 0 {
            return Err(String::from_str("provide at least one direction"));
        }
        if directions.len() > 64 {
            return Err(String::from_str("a move command accepts at most 64 directions"));
        }
        let (tier_index, level_index) = match &self.active {
            Some(active) => (active.tier_index, active.level_index),
            None => {
                return Err(String::from_str("select a level before moving"));
            },
        };
        let ghost s0 = self@;
        let ghost a0 = s0.active->0;
        let level_id = self.campaign.tiers[tier_index].levels[level_index].id.as_str();
        let mut results: Vec<StepResult> = Vec::new();
        let mut newly_solved = false;
        let mut i: usize = 0;
        let mut done = false;
        assert(directions@.skip(0) =~= directions@);
        while i < directions.len() && !done
            invariant
                self.wf(),
                self.campaign == old(self).campaign,
                s0 == old(self)@,
                a0 == s0.active->0,
                self.active is Some,
                self.active->0.tier_index == tier_index,
                self.active->0.level_index == level_index,
                tier_index == a0.tier,
                level_index == a0.level,
                level_id@ == self.campaign.tiers@[tier_index as int].levels@[level_index as int].id@,
                i <= directions@.len(),
                results@.len() == i,
                self@.active->0.board == board_after(a0.board, directions@, i as int),
                forall|j: int| 0 <= j < i ==> step_result_ok(#[trigger] results@[j], a0.board, directions@, j),
                !done ==> run_steps(a0.board, directions@) == ({
                    let rest = run_steps(self@.active->0.board, directions@.skip(i as int));
                    (rest.0, (rest.1 + i) as nat, rest.2)
                }),
                !done ==> self@.solved == s0.solved && !newly_solved,
                done ==> {
                    let run = run_steps(a0.board, directions@);
                    &&& run.0 == self@.active->0.board
                    &&& run.1 == i
                    &&& run.2
                    &&& self@.solved == record_solved(s0.solved, level_id@)
                    &&& newly_solved == !s0.solved.contains(level_id@)
                },
            decreases directions@.len() - i,
        {
            let ghost before = self@.active->0.board;
            proof {
                assert(directions@.skip(i as int).drop_first() =~= directions@.skip(i + 1));
            }
            let result = match &mut self.active {
                Some(active) => active.board.step(directions[i]),
                None => {
                    proof {
                        assert(false);
                    }
                    return Err(String::new());
                },
            };
            let solved = result.solved;
            results.push(result);
            i += 1;
            if solved {
                if !self.is_solved(level_id) {
                    let ghost before_solved = self.solved@;
                    self.solved.push(String::from_str(level_id));
                    proof {
                        assert(views(self.solved@) =~= views(before_solved).push(level_id@));
                    }
                    newly_solved = true;
                } else {
                    newly_solved = false;
                }
                done = true;
            }
        }
        Ok((results, newly_solved))
    }

    /// Takes back up to `steps` moves on the selected level. Refused without
    /// any change: `steps` outside 1..=64, or no level selected.
    pub fn undo(&mut self, steps: usize) -> (r: Result<usize, String>)
        requires
            old(self).wf(),
        ensures
            final(self).wf(),
            final(self).campaign_spec() == old(self).campaign_spec(),
            final(self)@.solved == old(self)@.solved,
            match r {
                Ok(undone) => {
                    &&& 1 <= steps <= 64
                    &&& old(self)@.active is Some
                    &&& ({
                        let a = old(self)@.active->0;
                        let u = undo_model(a.board, steps as nat);
                        final(self)@.active == Some(ActiveModel { board: u.0, ..a }) && undone
                            == u.1
                    })
                },
                Err(message) => {
                    &&& final(self)@ == old(self)@
                    &&& ((steps == 0 || steps > 64) && message@
                        == "undo steps must be between 1 and 64"@) || (1 <= steps <= 64
                        && old(self)@.active is None && message@
                        == "select a level before undoing"@)
                },
            },
    {
        if steps == 0 || steps > 64 {
            return Err(String::from_str("undo steps must be between 1 and 64"));
        }
        match &mut self.active {
            Some(active) => {
                let undone = active.board.undo(steps);
                Ok(undone)
            },
            None => Err(String::from_str("select a level before undoing")),
        }
    }

    /// Restarts the selected level from its starting position.
    pub fn reset(&mut self) -> (r: Result<(), String>)
        requires
            old(self).wf(),
        ensures
            final(self).wf(),
            final(self).campaign_spec() == old(self).campaign_spec(),
            final(self)@.solved == old(self)@.solved,
            match r {
                Ok(()) => old(self)@.active is Some && final(self)@.active == Some(
                    ActiveModel { board: reset_model(old(self)@.active->0.board), ..old(self)@.active->0 },
                ),
                Err(message) => final(self)@ == old(self)@ && old(self)@.active is None && message@
                    == "select a level before resetting"@,
            },
    {
        match &mut self.active {
            Some(active) => {
                active.board.reset();
                Ok(())
            },
            None => Err(String::from_str("select a level before resetting")),
        }
    }

    /// The whole visible state: campaign score, each tier's progress and
    /// status, the selected level and its board.
    pub fn snapshot(&self) -> (r: Snapshot<'_>)
        requires
            self.wf(),
        ensures
            ({
                let c = self.campaign_spec();
                let solved = self@.solved;
                &&& r.schema@ == "sokoban-state-v1"@
                &&& r.campaign.id@ == c.id@
                &&& r.campaign.title@ == c.title@
                &&& r.campaign.score == solved.len()
                &&& r.campaign.max_score == total_levels(c.tiers@)
                &&& r.campaign.complete == (solved.len() == total_levels(c.tiers@))
                &&& r.tiers@.len() == c.tiers@.len()
                &&& forall|t: int|
                    0 <= t < c.tiers@.len() ==> {
                        let ts = #[trigger] r.tiers@[t];
                        &&& ts.id@ == c.tiers@[t].id@
                        &&& ts.title@ == c.tiers@[t].title@
                        &&& ts.difficulty@ == c.tiers@[t].difficulty@
                        &&& ts.status@ == tier_status(c, solved, t)
                        &&& ts.solved == solved_in_tier_spec(c, solved, t)
                        &&& ts.total == c.tiers@[t].levels@.len()
                        &&& ts.unlock_after == c.tiers@[t].unlock_after
                        &&& ts.remaining_to_unlock_next == remaining_to_unlock(c, solved, t)
                    }
                &&& match self@.active {
                    None => r.level is None && r.board is None,
                    Some(a) => {
                        let tier = c.tiers@[a.tier];
                        let level = tier.levels@[a.level];
                        &&& r.level is Some
                        &&& r.level->0.id@ == level.id@
                        &&& r.level->0.title@ == level.title@
                        &&& r.level->0.source_id@ == level.source_id@
                        &&& r.level->0.tier_id@ == tier.id@
                        &&& r.level->0.tier_title@ == tier.title@
                        &&& r.level->0.number == a.level + 1
                        &&& r.level->0.solved == solved.contains(level.id@)
                        &&& r.board is Some
                        &&& snapshot_of(a.board, r.board->0)
                    },
                }
                &&& r.symbols.wall == '#' && r.symbols.floor == ' ' && r.symbols.goal == '.'
                    && r.symbols.box_tile == '$' && r.symbols.box_on_goal == '*'
                    && r.symbols.player == '@' && r.symbols.player_on_goal == '+'
            }),
    {
        let c = self.campaign;
        let mut tiers: Vec<TierSnapshot> = Vec::new();
        let mut t: usize = 0;
        while t < c.tiers.len()
            invariant
                self.wf(),
                c == self.campaign,
                t <= c.tiers@.len(),
                tiers@.len() == t,
                forall|u: int|
                    0 <= u < t ==> {
                        let ts = #[trigger] tiers@[u];
                        &&& ts.id@ == c.tiers@[u].id@
                        &&& ts.title@ == c.tiers@[u].title@
                        &&& ts.difficulty@ == c.tiers@[u].difficulty@
                        &&& ts.status@ == tier_status(c, self@.solved, u)
                        &&& ts.solved == solved_in_tier_spec(c, self@.solved, u)
                        &&& ts.total == c.tiers@[u].levels@.len()
                        &&& ts.unlock_after == c.tiers@[u].unlock_after
                        &&& ts.remaining_to_unlock_next == remaining_to_unlock(c, self@.solved, u)
                    },
            decreases c.tiers@.len() - t,
        {
            let tier = &c.tiers[t];
            let solved = self.solved_in_tier(t);
            let unlocked = self.tier_unlocked(t);
            let status = if !unlocked {
                "locked"
            } else if solved == tier.levels.len() {
                "complete"
            } else {
                "unlocked"
            };
            let remaining = if t + 1 < c.tiers.len() && tier.unlock_after > solved {
                tier.unlock_after - solved
            } else {
                0
            };
            tiers.push(
                TierSnapshot {
                    id: tier.id.as_str(),
                    title: tier.title.as_str(),
                    difficulty: tier.difficulty.as_str(),
                    status,
                    solved,
                    total: tier.levels.len(),
                    unlock_after: tier.unlock_after,
                    remaining_to_unlock_next: remaining,
                },
            );
            t += 1;
        }
        let (level, board) = match &self.active {
            None => (None, None),
            Some(active) => {
                let tier = &c.tiers[active.tier_index];
                let level_count = tier.levels.len();
                let level = &tier.levels[active.level_index];
                (
                    Some(
                        LevelSnapshot {
                            id: level.id.as_str(),
                            title: level.title.as_str(),
                            source_id: level.source_id.as_str(),
                            tier_id: tier.id.as_str(),
                            tier_title: tier.title.as_str(),
                            number: active.level_index + 1,
                            solved: self.is_solved(level.id.as_str()),
                        },
                    ),
                    Some(active.board.snapshot()),
                )
            },
        };
        let score = self.solved.len();
        let max_score = c.max_score();
        Snapshot {
            schema: "sokoban-state-v1",
            campaign: CampaignSnapshot {
                id: c.id.as_str(),
                title: c.title.as_str(),
                score,
                max_score,
                complete: score == max_score,
            },
            tiers,
            level,
            board,
            symbols: Symbols {
                wall: '#',
                floor: ' ',
                goal: '.',
                box_tile: '$',
                box_on_goal: '*',
                player: '@',
                player_on_goal: '+',
            },
        }
    }

    /// Every level of the campaign, or of one tier, with whether it is
    /// unlocked and solved. An unknown tier id is refused.
    pub fn levels(&self, tier_filter: Option<&str>) -> (r: Result<Vec<LevelSummary<'_>>, String>)
        requires
            self.wf(),
        ensures
            ({
                let c = self.campaign_spec();
                let solved = self@.solved;
                match r {
                    Err(message) => tier_filter is Some && (forall|t: int|
                        0 <= t < c.tiers@.len() ==> (#[trigger] c.tiers@[t]).id@
                            != tier_filter->0@) && message@ == "unknown tier: "@ + tier_filter->0@,
                    Ok(list) => {
                        let items = listing(c, tier_filter, c.tiers@.len() as int);
                        &&& tier_filter is None || exists|t: int|
                            0 <= t < c.tiers@.len() && (#[trigger] c.tiers@[t]).id@
                                == tier_filter->0@
                        &&& list@.len() == items.len()
                        &&& forall|k: int|
                            0 <= k < items.len() ==> summary_of(
                                c,
                                solved,
                                items[k].0,
                                items[k].1,
                                #[trigger] list@[k],
                            )
                    },
                }
            }),
    {
        let c = self.campaign;
        match tier_filter {
            Some(id) => {
                let mut t: usize = 0;
                let mut found = false;
                while t < c.tiers.len() && !found
                    invariant
                        t <= c.tiers@.len(),
                        found ==> t < c.tiers@.len() && c.tiers@[t as int].id@ == id@,
                        !found ==> forall|u: int| 0 <= u < t ==> (#[trigger] c.tiers@[u]).id@ != id@,
                    decreases c.tiers@.len() - t + if found { 0int } else { 1int },
                {
                    if str_eq(c.tiers[t].id.as_str(), id) {
                        found = true;
                    } else {
                        t += 1;
                    }
                }
                if !found {
                    let mut message = String::from_str("unknown tier: ");
                    message.append(id);
                    return Err(message);
                }
                assert(c.tiers@[t as int].id@ == id@);
                assert(exists|u: int|
                    0 <= u < c.tiers@.len() && (#[trigger] c.tiers@[u]).id@ == tier_filter->0@);
            },
            None => {},
        }
        let mut list: Vec<LevelSummary> = Vec::new();
        let mut t: usize = 0;
        while t < c.tiers.len()
            invariant
                self.wf(),
                c == self.campaign,
                t <= c.tiers@.len(),
                tier_filter is None || exists|u: int|
                    0 <= u < c.tiers@.len() && (#[trigger] c.tiers@[u]).id@ == tier_filter->0@,
                list@.len() == listing(c, tier_filter, t as int).len(),
                forall|k: int|
                    0 <= k < list@.len() ==> summary_of(
                        c,
                        self@.solved,
                        listing(c, tier_filter, t as int)[k].0,
                        listing(c, tier_filter, t as int)[k].1,
                        #[trigger] list@[k],
                    ),
            decreases c.tiers@.len() - t,
        {
            let tier = &c.tiers[t];
            let shown = match tier_filter {
                None => true,
                Some(id) => str_eq(tier.id.as_str(), id),
            };
            let ghost prior = listing(c, tier_filter, t as int);
            if shown {
                let unlocked = self.tier_unlocked(t);
                let mut l: usize = 0;
                while l < tier.levels.len()
                    invariant
                        self.wf(),
                        c == self.campaign,
                        t < c.tiers@.len(),
                        tier == c.tiers@[t as int],
                        prior == listing(c, tier_filter, t as int),
                        unlocked == tier_unlocked_spec(c, self@.solved, t as int),
                        l <= tier.levels@.len(),
                        list@.len() == prior.len() + l,
                        forall|k: int|
                            0 <= k < prior.len() ==> summary_of(
                                c,
                                self@.solved,
                                prior[k].0,
                                prior[k].1,
                                #[trigger] list@[k],
                            ),
                        forall|k: int|
                            prior.len() <= k < list@.len() ==> summary_of(
                                c,
                                self@.solved,
                                t as int,
                                k - prior.len(),
                                #[trigger] list@[k],
                            ),
                    decreases tier.levels@.len() - l,
                {
                    let level = &tier.levels[l];
                    let summary = LevelSummary {
                        id: level.id.as_str(),
                        title: level.title.as_str(),
                        tier_id: tier.id.as_str(),
                        number: l + 1,
                        unlocked,
                        solved: self.is_solved(level.id.as_str()),
                        width: level.width,
                        height: level.height,
                    };
                    let ghost before = list@;
                    list.push(summary);
                    assert forall|k: int| 0 <= k < before.len() implies list@[k] == before[k] by {}
                    l += 1;
                }
                proof {
                    let next = listing(c, tier_filter, t + 1);
                    assert(next =~= prior + Seq::new(
                        c.tiers@[t as int].levels@.len(),
                        |m: int| (t as int, m),
                    ));
                    assert forall|k: int| 0 <= k < list@.len() implies summary_of(
                        c,
                        self@.solved,
                        next[k].0,
                        next[k].1,
                        #[trigger] list@[k],
                    ) by {
                        if k >= prior.len() {
                            assert(next[k] == (t as int, k - prior.len()));
                        } else {
                            assert(next[k] == prior[k]);
                        }
                    }
                }
            } else {
                assert(listing(c, tier_filter, t + 1) =~= prior);
            }
            t += 1;
        }
        assert(tier_filter is None || exists|u: int|
            0 <= u < c.tiers@.len() && (#[trigger] c.tiers@[u]).id@ == tier_filter->0@);
        assert(list@.len() == listing(c, tier_filter, c.tiers@.len() as int).len());
        assert(c == self.campaign_spec());
        Ok(list)
    }
}

/// The (tier, level) pairs that a level listing shows for tiers before `t`,
/// in campaign order.
pub open spec fn listing(c: &Campaign, filter: Option<&str>, t: int) -> Seq<(int, int)>
    decreases t,
{
    if t <= 0 {
        Seq::empty()
    } else {
        listing(c, filter, t - 1) + if listed(c, filter, t - 1) {
            Seq::new(c.tiers@[t - 1].levels@.len(), |m: int| (t - 1, m))
        } else {
            Seq::empty()
        }
    }
}

/// Whether tier `t` is listed under the filter.
pub open spec fn listed(c: &Campaign, filter: Option<&str>, t: int) -> bool {
    match filter {
        None => true,
        Some(id) => c.tiers@[t].id@ == id@,
    }
}

/// The summary of level `l` of tier `t`.
pub open spec fn summary_of(c: &Campaign, solved: Seq<Seq<char>>, t: int, l: int, s: LevelSummary) -> bool {
    let tier = c.tiers@[t];
    let level = tier.levels@[l];
    &&& s.id@ == level.id@
    &&& s.title@ == level.title@
    &&& s.tier_id@ == tier.id@
    &&& s.number == l + 1
    &&& s.unlocked == tier_unlocked_spec(c, solved, t)
    &&& s.solved == solved.contains(level.id@)
    &&& s.width == level.width
    &&& s.height == level.height
}

proof fn lemma_total_prefix(tiers: Seq<Tier>, t: int)
    requires
        0 <= t <= tiers.len(),
    ensures
        total_levels(tiers.take(t)) <= total_levels(tiers),
    decreases tiers.len() - t,
{
    if t < tiers.len() {
        lemma_total_prefix(tiers, t + 1);
        assert(tiers.take(t + 1).drop_last() =~= tiers.take(t));
    } else {
        assert(tiers.take(t) =~= tiers);
    }
}

/// Solving more levels never locks a tier that was unlocked.
pub proof fn law_unlocking_is_monotone(c: &Campaign, solved: Seq<Seq<char>>, more: Seq<Seq<char>>, t: int)
    requires
        forall|id: Seq<char>| solved.contains(id) ==> more.contains(id),
        tier_unlocked_spec(c, solved, t),
    ensures
        tier_unlocked_spec(c, more, t),
{
    assert forall|u: int| 0 <= u < t implies #[trigger] solved_in_tier_spec(c, more, u)
        >= c.tiers@[u].unlock_after by {
        assert(solved_in_tier_spec(c, solved, u) >= c.tiers@[u].unlock_after);
        lemma_solved_among_monotone(c, solved, more, u, c.tiers@[u].levels@.len() as int);
    }
}

proof fn lemma_solved_among_monotone(c: &Campaign, solved: Seq<Seq<char>>, more: Seq<Seq<char>>, t: int, n: int)
    requires
        forall|id: Seq<char>| solved.contains(id) ==> more.contains(id),
    ensures
        solved_among(c, solved, t, n) <= solved_among(c, more, t, n),
    decreases n,
{
    if n > 0 {
        lemma_solved_among_monotone(c, solved, more, t, n - 1);
    }
}

/// Recording a solved level raises the score by one the first time and
/// never again.
pub proof fn law_score_counts_each_level_once(solved: Seq<Seq<char>>, id: Seq<char>)
    ensures
        record_solved(solved, id).len() == solved.len() + if solved.contains(id) {
            0nat
        } else {
            1nat
        },
        record_solved(record_solved(solved, id), id) == record_solved(solved, id),
        record_solved(solved, id).contains(id),
{
    if !solved.contains(id) {
        assert(solved.push(id)[solved.len() as int] == id);
    }
}

proof fn lemma_solved_among_counts(c: &Campaign, solved: Seq<Seq<char>>, t: int, n: int)
    requires
        0 <= t < c.tiers@.len(),
        0 <= n <= c.tiers@[t].levels@.len(),
    ensures
        solved_among(c, solved, t, n) <= n,
        solved_among(c, solved, t, n) == n <==> forall|l: int| 0 <= l < n ==> solved.contains(#[trigger] c.tiers@[t].levels@[l].id@),
    decreases n,
{
    if n > 0 {
        lemma_solved_among_counts(c, solved, t, n - 1);
        if solved_among(c, solved, t, n) == n {
            assert forall|l: int| 0 <= l < n implies solved.contains(#[trigger] c.tiers@[t].levels@[l].id@) by {
                if l < n - 1 {
                    assert(solved_among(c, solved, t, n - 1) == n - 1);
                }
            }
        }
    }
}

/// A tier that is open is "complete" exactly when every one of its levels
/// has been solved, and "unlocked" while some level of it is unsolved; a
/// tier that is not open is "locked".
pub proof fn law_tier_complete_when_every_level_is_solved(c: &Campaign, solved: Seq<Seq<char>>, t: int)
    requires
        0 <= t < c.tiers@.len(),
    ensures
        !tier_unlocked_spec(c, solved, t) ==> tier_status(c, solved, t) == "locked"@,
        tier_unlocked_spec(c, solved, t) ==> (tier_status(c, solved, t) == "complete"@ <==> forall|l: int|
            0 <= l < c.tiers@[t].levels@.len() ==> solved.contains(#[trigger] c.tiers@[t].levels@[l].id@)),
        tier_unlocked_spec(c, solved, t) ==> (tier_status(c, solved, t) == "unlocked"@ <==> exists|l: int|
            0 <= l < c.tiers@[t].levels@.len() && !solved.contains(#[trigger] c.tiers@[t].levels@[l].id@)),
{
    reveal_strlit("complete");
    reveal_strlit("unlocked");
    reveal_strlit("locked");
    assert("complete"@ != "unlocked"@) by {
        assert("complete"@[0] != "unlocked"@[0]);
    }
    lemma_solved_among_counts(c, solved, t, c.tiers@[t].levels@.len() as int);
}

} // verus!
