//! The frozen Sokoban campaign: tiers of levels and the rules a campaign
//! must satisfy before it can be played.

use vstd::prelude::*;

use crate::text::{blank, is_blank, str_eq, to_chars};

verus! {

/// One level as stored in the campaign: its map rows use the classic
/// Sokoban characters (`#` wall, ` ` floor, `.` goal, `$` box, `*` box on
/// goal, `@` player, `+` player on goal).
pub struct Level {
    pub id: String,
    pub source_id: String,
    pub title: String,
    pub width: usize,
    pub height: usize,
    pub rows: Vec<String>,
}

/// A tier of levels; the following tier unlocks once `unlock_after`
/// levels of this one are solved.
pub struct Tier {
    pub id: String,
    pub title: String,
    pub difficulty: String,
    pub source_url: String,
    pub unlock_after: usize,
    pub levels: Vec<Level>,
}

pub struct Campaign {
    pub schema: String,
    pub id: String,
    pub title: String,
    pub tiers: Vec<Tier>,
}

/// Why a level was rejected.
#[derive(Clone, Copy, Debug, PartialEq, Eq, Structural)]
pub enum LevelError {
    /// Zero width or height, or a row count that differs from the height.
    InvalidDimensions,
    /// A row whose length differs from the width.
    WrongRowWidth,
    /// A character outside the Sokoban tile set.
    UnsupportedTile(char),
    /// Not exactly one player, no boxes, or boxes and goals that differ in number.
    PieceCounts { players: usize, boxes: usize, goals: usize },
}

/// Why a campaign was rejected.
pub enum CampaignError {
    UnsupportedSchema(String),
    EmptyIdOrTiers,
    DuplicateTier(String),
    EmptyTier(String),
    WrongUnlock { tier: String, expected: usize },
    DuplicateLevel(String),
    InvalidLevel { level: String, error: LevelError },
}

pub open spec fn is_board_tile(c: char) -> bool {
    c == '#' || c == ' ' || c == '@' || c == '$' || c == '.' || c == '*' || c == '+'
}

pub open spec fn is_player_tile(c: char) -> bool {
    c == '@' || c == '+'
}

pub open spec fn is_box_tile(c: char) -> bool {
    c == '$' || c == '*'
}

pub open spec fn is_goal_tile(c: char) -> bool {
    c == '.' || c == '*' || c == '+'
}

/// The pieces a level counts.
pub enum Piece {
    Player,
    Box,
    Goal,
}

pub open spec fn is_piece(c: char, f: Piece) -> bool {
    match f {
        Piece::Player => is_player_tile(c),
        Piece::Box => is_box_tile(c),
        Piece::Goal => is_goal_tile(c),
    }
}

/// How many characters of `s` show the piece `f`.
pub open spec fn count_where(s: Seq<char>, f: Piece) -> nat
    decreases s.len(),
{
    if s.len() == 0 {
        0
    } else {
        count_where(s.drop_last(), f) + if is_piece(s.last(), f) {
            1nat
        } else {
            0nat
        }
    }
}

/// How many characters of all the rows satisfy `f`.
pub open spec fn rows_count(rows: Seq<String>, f: Piece) -> nat
    decreases rows.len(),
{
    if rows.len() == 0 {
        0
    } else {
        rows_count(rows.drop_last(), f) + count_where(rows.last()@, f)
    }
}

/// The total number of characters in the rows.
pub open spec fn rows_chars(rows: Seq<String>) -> nat
    decreases rows.len(),
{
    if rows.len() == 0 {
        0
    } else {
        rows_chars(rows.drop_last()) + rows.last()@.len()
    }
}

/// The first character at or after `i` that is not a Sokoban tile.
pub open spec fn unsupported_from(row: Seq<char>, i: int) -> Option<char>
    decreases row.len() - i,
{
    if i < 0 || i >= row.len() {
        None
    } else if !is_board_tile(row[i]) {
        Some(row[i])
    } else {
        unsupported_from(row, i + 1)
    }
}

/// The first row problem at or after row `r`: a wrong width, or else the
/// first unsupported character of that row.
pub open spec fn rows_error_from(rows: Seq<String>, width: int, r: int) -> Option<LevelError>
    decreases rows.len() - r,
{
    if r < 0 || r >= rows.len() {
        None
    } else if rows[r]@.len() != width {
        Some(LevelError::WrongRowWidth)
    } else {
        match unsupported_from(rows[r]@, 0) {
            Some(c) => Some(LevelError::UnsupportedTile(c)),
            None => rows_error_from(rows, width, r + 1),
        }
    }
}

pub open spec fn players_of(rows: Seq<String>) -> nat {
    rows_count(rows, Piece::Player)
}

pub open spec fn boxes_of(rows: Seq<String>) -> nat {
    rows_count(rows, Piece::Box)
}

pub open spec fn goals_of(rows: Seq<String>) -> nat {
    rows_count(rows, Piece::Goal)
}

pub open spec fn dimensions_ok(level: &Level) -> bool {
    level.width > 0 && level.height > 0 && level.rows@.len() == level.height
}

/// What checking a level yields: the dimensions first, then each row in
/// order, then the counts of players, boxes and goals.
pub open spec fn level_check(level: &Level) -> Result<(), LevelError> {
    if !dimensions_ok(level) {
        Err(LevelError::InvalidDimensions)
    } else {
        match rows_error_from(level.rows@, level.width as int, 0) {
            Some(e) => Err(e),
            None => {
                let p = players_of(level.rows@);
                let b = boxes_of(level.rows@);
                let g = goals_of(level.rows@);
                if p != 1 || b == 0 || b != g {
                    Err(
                        LevelError::PieceCounts {
                            players: p as usize,
                            boxes: b as usize,
                            goals: g as usize,
                        },
                    )
                } else {
                    Ok(())
                }
            },
        }
    }
}

/// A playable level: every row is `width` Sokoban tiles, there is one
/// player, at least one box, and as many goals as boxes.
pub open spec fn level_valid(level: &Level) -> bool {
    level_check(level) is Ok
}

proof fn lemma_count_step(s: Seq<char>, i: int, f: Piece)
    requires
        0 <= i < s.len(),
    ensures
        count_where(s.take(i + 1), f) == count_where(s.take(i), f) + if is_piece(s[i], f) {
            1nat
        } else {
            0nat
        },
{
    assert(s.take(i + 1).drop_last() =~= s.take(i));
}

proof fn lemma_count_bound(s: Seq<char>, f: Piece)
    ensures
        count_where(s, f) <= s.len(),
    decreases s.len(),
{
    if s.len() > 0 {
        lemma_count_bound(s.drop_last(), f);
    }
}

proof fn lemma_rows_step(rows: Seq<String>, r: int, f: Piece)
    requires
        0 <= r < rows.len(),
    ensures
        rows_count(rows.take(r + 1), f) == rows_count(rows.take(r), f) + count_where(rows[r]@, f),
        rows_chars(rows.take(r + 1)) == rows_chars(rows.take(r)) + rows[r]@.len(),
{
    assert(rows.take(r + 1).drop_last() =~= rows.take(r));
}

proof fn lemma_rows_count_bound(rows: Seq<String>, f: Piece)
    ensures
        rows_count(rows, f) <= rows_chars(rows),
    decreases rows.len(),
{
    if rows.len() > 0 {
        lemma_rows_count_bound(rows.drop_last(), f);
        lemma_count_bound(rows.last()@, f);
    }
}

proof fn lemma_rows_chars_prefix(rows: Seq<String>, r: int)
    requires
        0 <= r <= rows.len(),
    ensures
        rows_chars(rows.take(r)) <= rows_chars(rows),
    decreases rows.len() - r,
{
    if r < rows.len() {
        lemma_rows_chars_prefix(rows, r + 1);
        lemma_rows_step(rows, r, Piece::Player);
    } else {
        assert(rows.take(r) =~= rows);
    }
}

/// Checks one level; the result is exactly [`level_check`].
pub fn validate_level(level: &Level) -> (r: Result<(), LevelError>)
    requires
        rows_chars(level.rows@) <= usize::MAX,
    ensures
        r == level_check(level),
{
    if level.width == 0 || level.height == 0 || level.rows.len() != level.height {
        return Err(LevelError::InvalidDimensions);
    }
    let ghost rows = level.rows@;
    let mut players: usize = 0;
    let mut boxes: usize = 0;
    let mut goals: usize = 0;
    let mut r: usize = 0;
    while r < level.rows.len()
        invariant
            rows == level.rows@,
            dimensions_ok(level),
            rows_chars(rows) <= usize::MAX,
            r <= rows.len(),
            rows_error_from(rows, level.width as int, 0) == rows_error_from(
                rows,
                level.width as int,
                r as int,
            ),
            players == rows_count(rows.take(r as int), Piece::Player),
            boxes == rows_count(rows.take(r as int), Piece::Box),
            goals == rows_count(rows.take(r as int), Piece::Goal),
            rows_chars(rows.take(r as int)) <= rows_chars(rows),
            players <= rows_chars(rows.take(r as int)),
            boxes <= rows_chars(rows.take(r as int)),
            goals <= rows_chars(rows.take(r as int)),
        decreases rows.len() - r,
    {
        let row = to_chars(level.rows[r].as_str());
        if row.len() != level.width {
            return Err(LevelError::WrongRowWidth);
        }
        let ghost base = rows_chars(rows.take(r as int));
        let ghost (p0, b0, g0) = (players, boxes, goals);
        proof {
            lemma_rows_step(rows, r as int, Piece::Player);
            lemma_rows_step(rows, r as int, Piece::Box);
            lemma_rows_step(rows, r as int, Piece::Goal);
            lemma_rows_chars_prefix(rows, r as int + 1);
        }
        let mut i: usize = 0;
        while i < row.len()
            invariant
                row@ == rows[r as int]@,
                rows == level.rows@,
                dimensions_ok(level),
                r < rows.len(),
                rows[r as int]@.len() == level.width,
                rows_error_from(rows, level.width as int, 0) == rows_error_from(
                    rows,
                    level.width as int,
                    r as int,
                ),
                i <= row@.len(),
                unsupported_from(row@, 0) == unsupported_from(row@, i as int),
                base + row@.len() <= usize::MAX,
                players == p0 + count_where(row@.take(i as int), Piece::Player),
                boxes == b0 + count_where(row@.take(i as int), Piece::Box),
                goals == g0 + count_where(row@.take(i as int), Piece::Goal),
                p0 <= base,
                b0 <= base,
                g0 <= base,
            decreases row@.len() - i,
        {
            let c = row[i];
            proof {
                lemma_count_step(row@, i as int, Piece::Player);
                lemma_count_step(row@, i as int, Piece::Box);
                lemma_count_step(row@, i as int, Piece::Goal);
                lemma_count_bound(row@.take(i as int), Piece::Player);
                lemma_count_bound(row@.take(i as int), Piece::Box);
                lemma_count_bound(row@.take(i as int), Piece::Goal);
            }
            if c == '#' || c == ' ' {
            } else if c == '@' {
                players = players + 1;
            } else if c == '$' {
                boxes = boxes + 1;
            } else if c == '.' {
                goals = goals + 1;
            } else if c == '*' {
                boxes = boxes + 1;
                goals = goals + 1;
            } else if c == '+' {
                players = players + 1;
                goals = goals + 1;
            } else {
                assert(unsupported_from(row@, i as int) == Some(c));
                return Err(LevelError::UnsupportedTile(c));
            }
            i += 1;
        }
        proof {
            assert(row@.take(row@.len() as int) =~= row@);
            lemma_count_bound(row@, Piece::Player);
            lemma_count_bound(row@, Piece::Box);
            lemma_count_bound(row@, Piece::Goal);
        }
        r += 1;
    }
    proof {
        assert(rows.take(rows.len() as int) =~= rows);
    }
    if players != 1 || boxes == 0 || boxes != goals {
        return Err(LevelError::PieceCounts { players, boxes, goals });
    }
    Ok(())
}

} // verus!

verus! {

pub open spec fn schema_ok(c: &Campaign) -> bool {
    c.schema@ == "sokoban-campaign-v1"@
}

pub open spec fn header_ok(c: &Campaign) -> bool {
    schema_ok(c) && !is_blank(c.id@) && c.tiers@.len() > 0
}

/// Half the levels, rounded up.
pub open spec fn expected_unlock(levels: nat) -> nat {
    (levels + 1) / 2
}

/// Tier `t` repeats the id of an earlier tier.
pub open spec fn tier_dup(c: &Campaign, t: int) -> bool {
    exists|u: int| 0 <= u < t && #[trigger] c.tiers@[u].id@ == c.tiers@[t].id@
}

/// The checks of tier `t` that come before its levels.
pub open spec fn tier_head_ok(c: &Campaign, t: int) -> bool {
    &&& !tier_dup(c, t)
    &&& c.tiers@[t].levels@.len() > 0
    &&& c.tiers@[t].unlock_after == expected_unlock(c.tiers@[t].levels@.len())
}

/// Level `l` of tier `t` repeats the id of a level that comes earlier in
/// the campaign.
pub open spec fn level_dup(c: &Campaign, t: int, l: int) -> bool {
    exists|u: int, m: int|
        #![trigger c.tiers@[u].levels@[m]]
        ((0 <= u < t && 0 <= m < c.tiers@[u].levels@.len()) || (u == t && 0 <= m < l))
            && c.tiers@[u].levels@[m].id@ == c.tiers@[t].levels@[l].id@
}

pub open spec fn level_ok(c: &Campaign, t: int, l: int) -> bool {
    !level_dup(c, t, l) && level_valid(&c.tiers@[t].levels@[l])
}

pub open spec fn levels_ok_before(c: &Campaign, t: int, l: int) -> bool {
    forall|m: int| 0 <= m < l ==> #[trigger] level_ok(c, t, m)
}

pub open spec fn tier_ok(c: &Campaign, t: int) -> bool {
    tier_head_ok(c, t) && levels_ok_before(c, t, c.tiers@[t].levels@.len() as int)
}

pub open spec fn tiers_ok_before(c: &Campaign, t: int) -> bool {
    forall|u: int| 0 <= u < t ==> #[trigger] tier_ok(c, u)
}

/// A campaign that can be played: the known schema, a non-blank id, at
/// least one tier, tier and level ids that are all distinct, tiers that
/// unlock after half their levels (rounded up), and valid levels.
pub open spec fn campaign_valid(c: &Campaign) -> bool {
    header_ok(c) && tiers_ok_before(c, c.tiers@.len() as int)
}

/// Every level's map fits in memory as one character sequence.
pub open spec fn campaign_fits(c: &Campaign) -> bool {
    forall|t: int, l: int|
        0 <= t < c.tiers@.len() && 0 <= l < c.tiers@[t].levels@.len() ==> rows_chars(
            #[trigger] c.tiers@[t].levels@[l].rows@,
        ) <= usize::MAX
}

/// The number of levels in the given tiers.
pub open spec fn total_levels(tiers: Seq<Tier>) -> nat
    decreases tiers.len(),
{
    if tiers.len() == 0 {
        0
    } else {
        total_levels(tiers.drop_last()) + tiers.last().levels@.len()
    }
}

impl Campaign {
    /// Checks the campaign; the checks run in order (schema, id and tiers,
    /// then each tier's id, size and unlock count followed by each of its
    /// levels' id and map) and the first that fails is reported.
    pub fn validate(&self) -> (r: Result<(), CampaignError>)
        requires
            campaign_fits(self),
        ensures
            r is Ok <==> campaign_valid(self),
            match r {
                Ok(()) => true,
                Err(CampaignError::UnsupportedSchema(s)) => !schema_ok(self) && s@ == self.schema@,
                Err(CampaignError::EmptyIdOrTiers) => schema_ok(self) && (is_blank(self.id@)
                    || self.tiers@.len() == 0),
                Err(CampaignError::DuplicateTier(s)) => header_ok(self) && exists|t: int|
                    0 <= t < self.tiers@.len() && tiers_ok_before(self, t) && #[trigger] tier_dup(
                        self,
                        t,
                    ) && s@ == self.tiers@[t].id@,
                Err(CampaignError::EmptyTier(s)) => header_ok(self) && exists|t: int|
                    0 <= t < self.tiers@.len() && tiers_ok_before(self, t) && !tier_dup(self, t)
                        && (#[trigger] self.tiers@[t]).levels@.len() == 0 && s@
                        == self.tiers@[t].id@,
                Err(CampaignError::WrongUnlock { tier, expected }) => header_ok(self) && exists|
                    t: int,
                |
                    0 <= t < self.tiers@.len() && tiers_ok_before(self, t) && !tier_dup(self, t)
                        && (#[trigger] self.tiers@[t]).levels@.len() > 0 && expected
                        == expected_unlock(self.tiers@[t].levels@.len()) && self.tiers@[t].unlock_after
                        != expected && tier@ == self.tiers@[t].id@,
                Err(CampaignError::DuplicateLevel(s)) => header_ok(self) && exists|t: int, l: int|
                    0 <= t < self.tiers@.len() && 0 <= l < self.tiers@[t].levels@.len()
                        && tiers_ok_before(self, t) && tier_head_ok(self, t) && levels_ok_before(
                        self,
                        t,
                        l,
                    ) && #[trigger] level_dup(self, t, l) && s@ == self.tiers@[t].levels@[l].id@,
                Err(CampaignError::InvalidLevel { level, error }) => header_ok(self) && exists|
                    t: int,
                    l: int,
                |
                    0 <= t < self.tiers@.len() && 0 <= l < self.tiers@[t].levels@.len()
                        && tiers_ok_before(self, t) && tier_head_ok(self, t) && levels_ok_before(
                        self,
                        t,
                        l,
                    ) && !level_dup(self, t, l) && level_check(
                        &(#[trigger] self.tiers@[t].levels@[l]),
                    ) == Err::<(), LevelError>(error) && level@ == self.tiers@[t].levels@[l].id@,
            },
    {
        if !str_eq(self.schema.as_str(), "sokoban-campaign-v1") {
            return Err(CampaignError::UnsupportedSchema(self.schema.clone()));
        }
        if blank(self.id.as_str()) || self.tiers.len() == 0 {
            return Err(CampaignError::EmptyIdOrTiers);
        }
        let mut t: usize = 0;
        while t < self.tiers.len()
            invariant
                header_ok(self),
                campaign_fits(self),
                t <= self.tiers@.len(),
                tiers_ok_before(self, t as int),
            decreases self.tiers@.len() - t,
        {
            let tier = &self.tiers[t];
            let mut u: usize = 0;
            while u < t
                invariant
                    header_ok(self),
                    tiers_ok_before(self, t as int),
                    t < self.tiers@.len(),
                    tier == self.tiers@[t as int],
                    u <= t,
                    forall|v: int| 0 <= v < u ==> self.tiers@[v].id@ != tier.id@,
                decreases t - u,
            {
                if str_eq(self.tiers[u].id.as_str(), tier.id.as_str()) {
                    assert(tier_dup(self, t as int));
                    assert(!tier_ok(self, t as int));
                    assert(!campaign_valid(self));
                    return Err(CampaignError::DuplicateTier(tier.id.clone()));
                }
                u += 1;
            }
            assert(!tier_dup(self, t as int));
            if tier.levels.len() == 0 {
                assert(!tier_ok(self, t as int));
                return Err(CampaignError::EmptyTier(tier.id.clone()));
            }
            let expected = tier.levels.len() / 2 + tier.levels.len() % 2;
            if tier.unlock_after != expected {
                assert(!tier_ok(self, t as int));
                return Err(CampaignError::WrongUnlock { tier: tier.id.clone(), expected });
            }
            let mut l: usize = 0;
            while l < tier.levels.len()
                invariant
                    header_ok(self),
                    campaign_fits(self),
                    t < self.tiers@.len(),
                    tier == self.tiers@[t as int],
                    tiers_ok_before(self, t as int),
                    tier_head_ok(self, t as int),
                    l <= tier.levels@.len(),
                    levels_ok_before(self, t as int, l as int),
                decreases tier.levels@.len() - l,
            {
                let level = &tier.levels[l];
                if self.seen_level_id(t, l) {
                    assert(!level_ok(self, t as int, l as int));
                    assert(!tier_ok(self, t as int));
                    return Err(CampaignError::DuplicateLevel(level.id.clone()));
                }
                match validate_level(level) {
                    Ok(()) => {},
                    Err(error) => {
                        assert(!level_ok(self, t as int, l as int));
                        assert(!tier_ok(self, t as int));
                        return Err(CampaignError::InvalidLevel { level: level.id.clone(), error });
                    },
                }
                assert(level_ok(self, t as int, l as int));
                l += 1;
            }
            assert(tier_ok(self, t as int));
            t += 1;
        }
        Ok(())
    }

    /// Whether level `l` of tier `t` repeats an earlier level id.
    fn seen_level_id(&self, t: usize, l: usize) -> (r: bool)
        requires
            t < self.tiers@.len(),
            l < self.tiers@[t as int].levels@.len(),
        ensures
            r == level_dup(self, t as int, l as int),
    {
        let id = self.tiers[t].levels[l].id.as_str();
        let mut u: usize = 0;
        while u < t
            invariant
                t < self.tiers@.len(),
                l < self.tiers@[t as int].levels@.len(),
                id@ == self.tiers@[t as int].levels@[l as int].id@,
                u <= t,
                forall|v: int, m: int|
                    #![trigger self.tiers@[v].levels@[m]]
                    0 <= v < u && 0 <= m < self.tiers@[v].levels@.len()
                        ==> self.tiers@[v].levels@[m].id@ != id@,
            decreases t - u,
        {
            let levels = &self.tiers[u].levels;
            let mut m: usize = 0;
            while m < levels.len()
                invariant
                    t < self.tiers@.len(),
                    l < self.tiers@[t as int].levels@.len(),
                    id@ == self.tiers@[t as int].levels@[l as int].id@,
                    u < t,
                    levels == self.tiers@[u as int].levels,
                    m <= levels@.len(),
                    forall|k: int| 0 <= k < m ==> self.tiers@[u as int].levels@[k].id@ != id@,
                decreases levels@.len() - m,
            {
                if str_eq(levels[m].id.as_str(), id) {
                    assert(self.tiers@[u as int].levels@[m as int].id@ == id@);
                    return true;
                }
                m += 1;
            }
            u += 1;
        }
        let levels = &self.tiers[t].levels;
        let mut m: usize = 0;
        while m < l
            invariant
                t < self.tiers@.len(),
                l < self.tiers@[t as int].levels@.len(),
                id@ == self.tiers@[t as int].levels@[l as int].id@,
                levels == self.tiers@[t as int].levels,
                m <= l,
                forall|v: int, k: int|
                    #![trigger self.tiers@[v].levels@[k]]
                    0 <= v < t && 0 <= k < self.tiers@[v].levels@.len()
                        ==> self.tiers@[v].levels@[k].id@ != id@,
                forall|k: int| 0 <= k < m ==> self.tiers@[t as int].levels@[k].id@ != id@,
            decreases l - m,
        {
            if str_eq(levels[m].id.as_str(), id) {
                assert(self.tiers@[t as int].levels@[m as int].id@ == id@);
                return true;
            }
            m += 1;
        }
        false
    }

    /// The campaign's highest score: one point per level.
    pub fn max_score(&self) -> (r: usize)
        requires
            total_levels(self.tiers@) <= usize::MAX,
        ensures
            r == total_levels(self.tiers@),
    {
        let mut sum: usize = 0;
        let mut t: usize = 0;
        while t < self.tiers.len()
            invariant
                t <= self.tiers@.len(),
                total_levels(self.tiers@) <= usize::MAX,
                sum == total_levels(self.tiers@.take(t as int)),
            decreases self.tiers@.len() - t,
        {
            proof {
                assert(self.tiers@.take(t + 1).drop_last() =~= self.tiers@.take(t as int));
                lemma_total_levels_prefix(self.tiers@, t as int + 1);
            }
            sum = sum + self.tiers[t].levels.len();
            t += 1;
        }
        assert(self.tiers@.take(t as int) =~= self.tiers@);
        sum
    }

    /// The first level, in campaign order, whose id is `id`, with the
    /// indices of its tier and of its place in that tier.
    pub fn find_level(&self, id: &str) -> (r: Option<(usize, usize, &Level)>)
        ensures
            match r {
                Some((t, l, level)) => {
                    &&& t < self.tiers@.len()
                    &&& l < self.tiers@[t as int].levels@.len()
                    &&& *level == self.tiers@[t as int].levels@[l as int]
                    &&& level.id@ == id@
                    &&& forall|u: int, m: int|
                        #![trigger self.tiers@[u].levels@[m]]
                        ((0 <= u < t && 0 <= m < self.tiers@[u].levels@.len()) || (u == t && 0
                            <= m < l)) ==> self.tiers@[u].levels@[m].id@ != id@
                },
                None => forall|u: int, m: int|
                    #![trigger self.tiers@[u].levels@[m]]
                    0 <= u < self.tiers@.len() && 0 <= m < self.tiers@[u].levels@.len()
                        ==> self.tiers@[u].levels@[m].id@ != id@,
            },
    {
        let mut t: usize = 0;
        while t < self.tiers.len()
            invariant
                t <= self.tiers@.len(),
                forall|u: int, m: int|
                    #![trigger self.tiers@[u].levels@[m]]
                    0 <= u < t && 0 <= m < self.tiers@[u].levels@.len()
                        ==> self.tiers@[u].levels@[m].id@ != id@,
            decreases self.tiers@.len() - t,
        {
            let levels = &self.tiers[t].levels;
            let mut l: usize = 0;
            while l < levels.len()
                invariant
                    t < self.tiers@.len(),
                    levels == self.tiers@[t as int].levels,
                    l <= levels@.len(),
                    forall|u: int, m: int|
                        #![trigger self.tiers@[u].levels@[m]]
                        ((0 <= u < t && 0 <= m < self.tiers@[u].levels@.len()) || (u == t && 0
                            <= m < l)) ==> self.tiers@[u].levels@[m].id@ != id@,
                decreases levels@.len() - l,
            {
                if str_eq(levels[l].id.as_str(), id) {
                    return Some((t, l, &levels[l]));
                }
                l += 1;
            }
            t += 1;
        }
        None
    }
}

proof fn lemma_total_levels_prefix(tiers: Seq<Tier>, t: int)
    requires
        0 <= t <= tiers.len(),
    ensures
        total_levels(tiers.take(t)) <= total_levels(tiers),
    decreases tiers.len() - t,
{
    if t < tiers.len() {
        lemma_total_levels_prefix(tiers, t + 1);
        assert(tiers.take(t + 1).drop_last() =~= tiers.take(t));
    } else {
        assert(tiers.take(t) =~= tiers);
    }
}

} // verus!
