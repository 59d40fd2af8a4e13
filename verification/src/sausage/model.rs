//! Coordinates, directions, entities and game states.

use vstd::prelude::*;
use vstd::string::*;

use crate::text::{
    chars_are, copy_chars, int_error_text, keep_nonempty, nonempty,
    char_views, parse_i32, parse_i32_spec, push_char, split_chars, split_spec, string_from_chars,
    text_with_int, to_chars, int_text,
};

verus! {

/// A cell of the three-dimensional grid.
#[derive(Clone, Copy, Debug, PartialEq, Eq, Hash, Structural)]
pub struct Coord {
    pub x: i32,
    pub y: i32,
    pub z: i32,
}

/// Whether adding `b` to `a` stays within `i32`.
pub open spec fn sum_fits(a: Coord, b: Coord) -> bool {
    &&& i32::MIN <= a.x + b.x <= i32::MAX
    &&& i32::MIN <= a.y + b.y <= i32::MAX
    &&& i32::MIN <= a.z + b.z <= i32::MAX
}

pub open spec fn diff_fits(a: Coord, b: Coord) -> bool {
    &&& i32::MIN <= a.x - b.x <= i32::MAX
    &&& i32::MIN <= a.y - b.y <= i32::MAX
    &&& i32::MIN <= a.z - b.z <= i32::MAX
}

pub open spec fn coord_sum(a: Coord, b: Coord) -> Coord {
    Coord { x: (a.x + b.x) as i32, y: (a.y + b.y) as i32, z: (a.z + b.z) as i32 }
}

pub open spec fn coord_diff(a: Coord, b: Coord) -> Coord {
    Coord { x: (a.x - b.x) as i32, y: (a.y - b.y) as i32, z: (a.z - b.z) as i32 }
}

/// The cell one step from `a` in direction `d`.
pub open spec fn coord_step(a: Coord, d: Direction) -> Coord {
    coord_sum(a, delta_spec(d))
}

pub open spec fn step_fits(a: Coord, d: Direction) -> bool {
    sum_fits(a, delta_spec(d))
}

impl Coord {
    pub fn zero() -> (r: Coord)
        ensures
            r == (Coord { x: 0, y: 0, z: 0 }),
    {
        Coord { x: 0, y: 0, z: 0 }
    }

    /// The marker for "no cell".
    pub fn invalid() -> (r: Coord)
        ensures
            r == (Coord { x: i32::MIN, y: i32::MIN, z: i32::MIN }),
    {
        Coord { x: i32::MIN, y: i32::MIN, z: i32::MIN }
    }

    pub fn new(x: i32, y: i32, z: i32) -> (r: Coord)
        ensures
            r == (Coord { x, y, z }),
    {
        Coord { x, y, z }
    }

    /// Each component multiplied by `factor`.
    pub fn scale(self, factor: i32) -> (r: Coord)
        requires
            i32::MIN <= self.x * factor <= i32::MAX,
            i32::MIN <= self.y * factor <= i32::MAX,
            i32::MIN <= self.z * factor <= i32::MAX,
        ensures
            r.x == self.x * factor,
            r.y == self.y * factor,
            r.z == self.z * factor,
    {
        Coord::new(self.x * factor, self.y * factor, self.z * factor)
    }

    /// Component-wise sum.
    pub fn plus(self, rhs: Coord) -> (r: Coord)
        requires
            sum_fits(self, rhs),
        ensures
            r == coord_sum(self, rhs),
    {
        Coord::new(self.x + rhs.x, self.y + rhs.y, self.z + rhs.z)
    }

    /// Component-wise difference.
    pub fn minus(self, rhs: Coord) -> (r: Coord)
        requires
            diff_fits(self, rhs),
        ensures
            r == coord_diff(self, rhs),
    {
        Coord::new(self.x - rhs.x, self.y - rhs.y, self.z - rhs.z)
    }

    /// The neighbouring cell in direction `d`.
    pub fn step(self, d: Direction) -> (r: Coord)
        requires
            step_fits(self, d),
        ensures
            r == coord_step(self, d),
    {
        self.plus(d.delta())
    }
}

/// The eight compass directions, no direction, and the two vertical ones,
/// in the order of the game's own numbering.
#[derive(Clone, Copy, Debug, PartialEq, Eq, Structural)]
pub enum Direction {
    North,
    South,
    West,
    East,
    NorthEast,
    SouthWest,
    NorthWest,
    SouthEast,
    NoDirection,
    Down,
    Up,
}

/// The game's own number for a direction.
pub open spec fn dir_value(d: Direction) -> int {
    match d {
        Direction::North => 0,
        Direction::South => 1,
        Direction::West => 2,
        Direction::East => 3,
        Direction::NorthEast => 4,
        Direction::SouthWest => 5,
        Direction::NorthWest => 6,
        Direction::SouthEast => 7,
        Direction::NoDirection => 8,
        Direction::Down => 9,
        Direction::Up => 10,
    }
}

pub open spec fn dir_of_value(v: int) -> Option<Direction> {
    if v == 0 {
        Some(Direction::North)
    } else if v == 1 {
        Some(Direction::South)
    } else if v == 2 {
        Some(Direction::West)
    } else if v == 3 {
        Some(Direction::East)
    } else if v == 4 {
        Some(Direction::NorthEast)
    } else if v == 5 {
        Some(Direction::SouthWest)
    } else if v == 6 {
        Some(Direction::NorthWest)
    } else if v == 7 {
        Some(Direction::SouthEast)
    } else if v == 8 {
        Some(Direction::NoDirection)
    } else if v == 9 {
        Some(Direction::Down)
    } else if v == 10 {
        Some(Direction::Up)
    } else {
        None
    }
}

pub open spec fn delta_spec(d: Direction) -> Coord {
    match d {
        Direction::North => Coord { x: 0i32, y: -1i32, z: 0i32 },
        Direction::South => Coord { x: 0i32, y: 1i32, z: 0i32 },
        Direction::West => Coord { x: -1i32, y: 0i32, z: 0i32 },
        Direction::East => Coord { x: 1i32, y: 0i32, z: 0i32 },
        Direction::NorthEast => Coord { x: 1i32, y: -1i32, z: 0i32 },
        Direction::SouthWest => Coord { x: -1i32, y: 1i32, z: 0i32 },
        Direction::NorthWest => Coord { x: -1i32, y: -1i32, z: 0i32 },
        Direction::SouthEast => Coord { x: 1i32, y: 1i32, z: 0i32 },
        Direction::NoDirection => Coord { x: 0i32, y: 0i32, z: 0i32 },
        Direction::Down => Coord { x: 0i32, y: 0i32, z: -1i32 },
        Direction::Up => Coord { x: 0i32, y: 0i32, z: 1i32 },
    }
}

pub open spec fn inverse_spec(d: Direction) -> Direction {
    match d {
        Direction::North => Direction::South,
        Direction::South => Direction::North,
        Direction::West => Direction::East,
        Direction::East => Direction::West,
        Direction::NorthEast => Direction::SouthWest,
        Direction::SouthWest => Direction::NorthEast,
        Direction::NorthWest => Direction::SouthEast,
        Direction::SouthEast => Direction::NorthWest,
        Direction::NoDirection => Direction::NoDirection,
        Direction::Down => Direction::Up,
        Direction::Up => Direction::Down,
    }
}

pub open spec fn is_cardinal_spec(d: Direction) -> bool {
    d is North || d is South || d is West || d is East
}

pub open spec fn is_diagonal_spec(d: Direction) -> bool {
    d is NorthEast || d is SouthWest || d is NorthWest || d is SouthEast
}

pub open spec fn parallel_spec(a: Direction, b: Direction) -> bool {
    a != Direction::NoDirection && b != Direction::NoDirection && (a == b || inverse_spec(a) == b)
}

pub open spec fn normal_spec(a: Direction, b: Direction) -> bool {
    a != Direction::NoDirection && b != Direction::NoDirection && !parallel_spec(a, b)
}

pub open spec fn cw90_spec(d: Direction) -> Direction {
    match d {
        Direction::North => Direction::East,
        Direction::South => Direction::West,
        Direction::West => Direction::North,
        Direction::East => Direction::South,
        Direction::NorthEast => Direction::SouthEast,
        Direction::SouthWest => Direction::NorthWest,
        Direction::NorthWest => Direction::NorthEast,
        Direction::SouthEast => Direction::SouthWest,
        other => other,
    }
}

pub open spec fn cw45_spec(d: Direction) -> Direction {
    match d {
        Direction::North => Direction::NorthEast,
        Direction::South => Direction::SouthWest,
        Direction::West => Direction::SouthEast,
        Direction::East => Direction::NorthWest,
        Direction::NorthEast => Direction::West,
        Direction::SouthWest => Direction::East,
        Direction::NorthWest => Direction::North,
        Direction::SouthEast => Direction::South,
        other => other,
    }
}

pub open spec fn ccw45_spec(d: Direction) -> Direction {
    match d {
        Direction::North => Direction::NorthWest,
        Direction::South => Direction::SouthEast,
        Direction::West => Direction::NorthEast,
        Direction::East => Direction::SouthWest,
        Direction::NorthEast => Direction::North,
        Direction::SouthWest => Direction::South,
        Direction::NorthWest => Direction::East,
        Direction::SouthEast => Direction::West,
        other => other,
    }
}

pub open spec fn rotate90_spec(d: Direction, clockwise: bool) -> Direction {
    if clockwise {
        cw90_spec(d)
    } else {
        inverse_spec(cw90_spec(d))
    }
}

/// The diagonal passed through when turning between two cardinal
/// directions a quarter turn apart.
pub open spec fn rotation_between_spec(from: Direction, to: Direction) -> Option<Direction> {
    match (from, to) {
        (Direction::North, Direction::West) => Some(Direction::NorthWest),
        (Direction::North, Direction::East) => Some(Direction::NorthEast),
        (Direction::South, Direction::West) => Some(Direction::SouthWest),
        (Direction::South, Direction::East) => Some(Direction::SouthEast),
        (Direction::West, Direction::North) => Some(Direction::NorthWest),
        (Direction::West, Direction::South) => Some(Direction::SouthWest),
        (Direction::East, Direction::North) => Some(Direction::NorthEast),
        (Direction::East, Direction::South) => Some(Direction::SouthEast),
        _ => None,
    }
}

/// Where a turn from `from` through `to` continues: the game's
/// rotation table, `None` where it has no entry.
pub open spec fn continue_rotation_spec(from: Direction, to: Direction) -> Direction {
    match (to, from) {
        (Direction::North, Direction::NorthEast) => Direction::NorthWest,
        (Direction::North, Direction::NorthWest) => Direction::NorthEast,
        (Direction::South, Direction::SouthWest) => Direction::SouthEast,
        (Direction::South, Direction::SouthEast) => Direction::SouthWest,
        (Direction::West, Direction::SouthWest) => Direction::NorthWest,
        (Direction::West, Direction::NorthWest) => Direction::SouthWest,
        (Direction::East, Direction::NorthEast) => Direction::SouthEast,
        (Direction::East, Direction::SouthEast) => Direction::NorthEast,
        (Direction::NorthEast, Direction::North) => Direction::East,
        (Direction::NorthEast, Direction::East) => Direction::North,
        (Direction::SouthWest, Direction::South) => Direction::West,
        (Direction::SouthWest, Direction::West) => Direction::South,
        (Direction::NorthWest, Direction::North) => Direction::West,
        (Direction::NorthWest, Direction::West) => Direction::North,
        (Direction::SouthEast, Direction::South) => Direction::East,
        (Direction::SouthEast, Direction::East) => Direction::South,
        _ => Direction::NoDirection,
    }
}

pub open spec fn is_orthogonal_spec(d: Direction) -> bool {
    dir_value(d) < 4
}

pub open spec fn left_of_spec(a: Direction, b: Direction) -> bool {
    if is_orthogonal_spec(a) && is_orthogonal_spec(b) {
        cw90_spec(a) == b
    } else {
        continue_rotation_spec(a, b) == cw90_spec(a)
    }
}

/// The directions a player may type: its lowercased, trimmed name.
pub open spec fn input_direction_named(name: Seq<char>) -> Option<Direction> {
    if name == "north"@ || name == "n"@ || name == "up"@ || name == "u"@ || name == "w"@ {
        Some(Direction::North)
    } else if name == "south"@ || name == "s"@ || name == "down"@ || name == "d"@ {
        Some(Direction::South)
    } else if name == "west"@ || name == "left"@ || name == "l"@ || name == "a"@ {
        Some(Direction::West)
    } else if name == "east"@ || name == "right"@ || name == "r"@ {
        Some(Direction::East)
    } else {
        None
    }
}

impl Direction {
    /// The game's own number for the direction.
    pub fn value(self) -> (r: i32)
        ensures
            r == dir_value(self),
    {
        match self {
            Direction::North => 0,
            Direction::South => 1,
            Direction::West => 2,
            Direction::East => 3,
            Direction::NorthEast => 4,
            Direction::SouthWest => 5,
            Direction::NorthWest => 6,
            Direction::SouthEast => 7,
            Direction::NoDirection => 8,
            Direction::Down => 9,
            Direction::Up => 10,
        }
    }

    /// The direction the game numbers `value` (0 to 10).
    pub fn from_i32(value: i32) -> (r: Result<Self, String>)
        ensures
            match r {
                Ok(d) => dir_of_value(value as int) == Some(d),
                Err(message) => dir_of_value(value as int) is None && message@
                    == "invalid direction value "@ + int_text(value as int),
            },
    {
        match value {
            0 => Ok(Direction::North),
            1 => Ok(Direction::South),
            2 => Ok(Direction::West),
            3 => Ok(Direction::East),
            4 => Ok(Direction::NorthEast),
            5 => Ok(Direction::SouthWest),
            6 => Ok(Direction::NorthWest),
            7 => Ok(Direction::SouthEast),
            8 => Ok(Direction::NoDirection),
            9 => Ok(Direction::Down),
            10 => Ok(Direction::Up),
            _ => Err(text_with_int("invalid direction value ", value as i64)),
        }
    }

    pub fn delta(self) -> (r: Coord)
        ensures
            r == delta_spec(self),
    {
        match self {
            Direction::North => Coord::new(0, -1, 0),
            Direction::South => Coord::new(0, 1, 0),
            Direction::West => Coord::new(-1, 0, 0),
            Direction::East => Coord::new(1, 0, 0),
            Direction::NorthEast => Coord::new(1, -1, 0),
            Direction::SouthWest => Coord::new(-1, 1, 0),
            Direction::NorthWest => Coord::new(-1, -1, 0),
            Direction::SouthEast => Coord::new(1, 1, 0),
            Direction::NoDirection => Coord::zero(),
            Direction::Down => Coord::new(0, 0, -1),
            Direction::Up => Coord::new(0, 0, 1),
        }
    }

    pub fn inverse(self) -> (r: Direction)
        ensures
            r == inverse_spec(self),
    {
        match self {
            Direction::North => Direction::South,
            Direction::South => Direction::North,
            Direction::West => Direction::East,
            Direction::East => Direction::West,
            Direction::NorthEast => Direction::SouthWest,
            Direction::SouthWest => Direction::NorthEast,
            Direction::NorthWest => Direction::SouthEast,
            Direction::SouthEast => Direction::NorthWest,
            Direction::NoDirection => Direction::NoDirection,
            Direction::Down => Direction::Up,
            Direction::Up => Direction::Down,
        }
    }

    pub fn is_cardinal(self) -> (r: bool)
        ensures
            r == is_cardinal_spec(self),
    {
        matches!(self, Direction::North | Direction::South | Direction::West | Direction::East)
    }

    /// In the horizontal plane or no direction at all.
    pub fn is_horizontal(self) -> (r: bool)
        ensures
            r == (dir_value(self) <= 8),
    {
        self.value() <= 8
    }

    /// In the horizontal plane.
    pub fn is_flat(self) -> (r: bool)
        ensures
            r == (dir_value(self) < 8),
    {
        self.value() < 8
    }

    pub fn is_vertical(self) -> (r: bool)
        ensures
            r == (dir_value(self) > 8),
    {
        self.value() > 8
    }

    pub fn is_diagonal(self) -> (r: bool)
        ensures
            r == is_diagonal_spec(self),
    {
        matches!(
            self,
            Direction::NorthEast | Direction::SouthWest | Direction::NorthWest | Direction::SouthEast
        )
    }

    /// One of the four compass directions (numbered below the diagonals).
    pub fn is_orthogonal(self) -> (r: bool)
        ensures
            r == is_orthogonal_spec(self),
    {
        self.value() < 4
    }

    pub fn is_valid(self) -> (r: bool)
        ensures
            r == (self != Direction::NoDirection),
    {
        !matches!(self, Direction::NoDirection)
    }

    pub fn parallel_to(self, other: Direction) -> (r: bool)
        ensures
            r == parallel_spec(self, other),
    {
        self.is_valid() && other.is_valid() && (self == other || self.inverse() == other)
    }

    pub fn normal_to(self, other: Direction) -> (r: bool)
        ensures
            r == normal_spec(self, other),
    {
        self != Direction::NoDirection && other != Direction::NoDirection && !self.parallel_to(other)
    }

    pub fn clockwise_90(self) -> (r: Direction)
        ensures
            r == cw90_spec(self),
    {
        match self {
            Direction::North => Direction::East,
            Direction::South => Direction::West,
            Direction::West => Direction::North,
            Direction::East => Direction::South,
            Direction::NorthEast => Direction::SouthEast,
            Direction::SouthWest => Direction::NorthWest,
            Direction::NorthWest => Direction::NorthEast,
            Direction::SouthEast => Direction::SouthWest,
            value => value,
        }
    }

    pub fn clockwise_45(self) -> (r: Direction)
        ensures
            r == cw45_spec(self),
    {
        match self {
            Direction::North => Direction::NorthEast,
            Direction::South => Direction::SouthWest,
            Direction::West => Direction::SouthEast,
            Direction::East => Direction::NorthWest,
            Direction::NorthEast => Direction::West,
            Direction::SouthWest => Direction::East,
            Direction::NorthWest => Direction::North,
            Direction::SouthEast => Direction::South,
            value => value,
        }
    }

    pub fn counterclockwise_45(self) -> (r: Direction)
        ensures
            r == ccw45_spec(self),
    {
        match self {
            Direction::North => Direction::NorthWest,
            Direction::South => Direction::SouthEast,
            Direction::West => Direction::NorthEast,
            Direction::East => Direction::SouthWest,
            Direction::NorthEast => Direction::North,
            Direction::SouthWest => Direction::South,
            Direction::NorthWest => Direction::East,
            Direction::SouthEast => Direction::West,
            value => value,
        }
    }

    pub fn rotate_90(self, clockwise: bool) -> (r: Direction)
        ensures
            r == rotate90_spec(self, clockwise),
    {
        if clockwise {
            self.clockwise_90()
        } else {
            self.clockwise_90().inverse()
        }
    }

    /// Whether turning from `self` towards `other` is a left turn.
    pub fn left_of(self, other: Direction) -> (r: bool)
        ensures
            r == left_of_spec(self, other),
    {
        if self.is_orthogonal() && other.is_orthogonal() {
            self.clockwise_90() == other
        } else {
            Direction::continue_rotation(self, other) == self.clockwise_90()
        }
    }

    pub fn rotation_between(from: Direction, to: Direction) -> (r: Option<Direction>)
        ensures
            r == rotation_between_spec(from, to),
    {
        match (from, to) {
            (Direction::North, Direction::West) => Some(Direction::NorthWest),
            (Direction::North, Direction::East) => Some(Direction::NorthEast),
            (Direction::South, Direction::West) => Some(Direction::SouthWest),
            (Direction::South, Direction::East) => Some(Direction::SouthEast),
            (Direction::West, Direction::North) => Some(Direction::NorthWest),
            (Direction::West, Direction::South) => Some(Direction::SouthWest),
            (Direction::East, Direction::North) => Some(Direction::NorthEast),
            (Direction::East, Direction::South) => Some(Direction::SouthEast),
            _ => None,
        }
    }

    pub fn continue_rotation(from: Direction, to: Direction) -> (r: Direction)
        ensures
            r == continue_rotation_spec(from, to),
    {
        match (to, from) {
            (Direction::North, Direction::NorthEast) => Direction::NorthWest,
            (Direction::North, Direction::NorthWest) => Direction::NorthEast,
            (Direction::South, Direction::SouthWest) => Direction::SouthEast,
            (Direction::South, Direction::SouthEast) => Direction::SouthWest,
            (Direction::West, Direction::SouthWest) => Direction::NorthWest,
            (Direction::West, Direction::NorthWest) => Direction::SouthWest,
            (Direction::East, Direction::NorthEast) => Direction::SouthEast,
            (Direction::East, Direction::SouthEast) => Direction::NorthEast,
            (Direction::NorthEast, Direction::North) => Direction::East,
            (Direction::NorthEast, Direction::East) => Direction::North,
            (Direction::SouthWest, Direction::South) => Direction::West,
            (Direction::SouthWest, Direction::West) => Direction::South,
            (Direction::NorthWest, Direction::North) => Direction::West,
            (Direction::NorthWest, Direction::West) => Direction::North,
            (Direction::SouthEast, Direction::South) => Direction::East,
            (Direction::SouthEast, Direction::East) => Direction::South,
            _ => Direction::NoDirection,
        }
    }

    /// Reads a typed direction: its trimmed name, ignoring ASCII case.
    pub fn parse(value: &str) -> (r: Result<Direction, String>)
        ensures
            match r {
                Ok(d) => input_direction_named(crate::text::ascii_lower(crate::text::trim_spec(value@))) == Some(d),
                Err(m) => input_direction_named(crate::text::ascii_lower(crate::text::trim_spec(value@))) is None
                    && m@ == "unknown direction "@ + crate::text::debug_str(value@),
            },
    {
        let lower = crate::text::trimmed_lower(value);
        match Direction::named(lower.as_slice()) {
            Some(d) => Ok(d),
            None => {
                let mut message = String::from_str("unknown direction ");
                crate::text::append_debug(&mut message, crate::text::to_chars(value).as_slice());
                Err(message)
            },
        }
    }

    /// The direction a lowercase name stands for; see
    /// [`input_direction_named`].
    pub fn named(s: &[char]) -> (r: Option<Direction>)
        ensures
            r == input_direction_named(s@),
    {
        if chars_are(s, "north") || chars_are(s, "n") || chars_are(s, "up") || chars_are(s, "u")
            || chars_are(s, "w") {
            Some(Direction::North)
        } else if chars_are(s, "south") || chars_are(s, "s") || chars_are(s, "down") || chars_are(
            s,
            "d",
        ) {
            Some(Direction::South)
        } else if chars_are(s, "west") || chars_are(s, "left") || chars_are(s, "l") || chars_are(
            s,
            "a",
        ) {
            Some(Direction::West)
        } else if chars_are(s, "east") || chars_are(s, "right") || chars_are(s, "r") {
            Some(Direction::East)
        } else {
            None
        }
    }
}

/// Turning back undoes a turn: the inverse of the inverse is the direction.
pub proof fn law_inverse_is_involutive(d: Direction)
    ensures
        inverse_spec(inverse_spec(d)) == d,
        delta_spec(inverse_spec(d)) == (Coord {
            x: (-delta_spec(d).x) as i32,
            y: (-delta_spec(d).y) as i32,
            z: (-delta_spec(d).z) as i32,
        }),
{
}

/// Four quarter turns clockwise come back to the start, and in the plane a
/// quarter turn clockwise then counter-clockwise changes nothing.
pub proof fn law_quarter_turns(d: Direction)
    ensures
        dir_value(d) < 8 ==> rotate90_spec(rotate90_spec(d, true), false) == d,
        dir_value(d) < 8 ==> rotate90_spec(rotate90_spec(d, false), true) == d,
        cw90_spec(cw90_spec(cw90_spec(cw90_spec(d)))) == d,
{
}

/// The eighth turns undo each other.
pub proof fn law_eighth_turns_undo(d: Direction)
    ensures
        ccw45_spec(cw45_spec(d)) == d,
        cw45_spec(ccw45_spec(d)) == d,
{
}

/// Being parallel is symmetric, and every valid pair of directions is
/// either parallel or normal.
pub proof fn law_parallel_symmetric(a: Direction, b: Direction)
    ensures
        parallel_spec(a, b) == parallel_spec(b, a),
        a != Direction::NoDirection && b != Direction::NoDirection ==> (parallel_spec(a, b) != normal_spec(a, b)),
{
}

/// The diagonal between two cardinal directions continues the turn to its
/// target: turning from `from` through the diagonal leads to `to`.
pub proof fn law_rotation_continues(from: Direction, to: Direction)
    requires
        rotation_between_spec(from, to) is Some,
    ensures
        continue_rotation_spec(from, rotation_between_spec(from, to)->0) == to,
{
}


#[derive(Clone, Copy, Debug, PartialEq, Eq, Structural)]
pub enum EntityType {
    Ground,
    Bbq,
    Player,
    Sausage,
    Ladder,
    SpectralSausage,
    Barrier,
    Fork,
    Island,
}

pub open spec fn entity_type_of(v: int) -> Option<EntityType> {
    if v == 0 {
        Some(EntityType::Ground)
    } else if v == 1 {
        Some(EntityType::Bbq)
    } else if v == 2 {
        Some(EntityType::Player)
    } else if v == 3 {
        Some(EntityType::Sausage)
    } else if v == 4 {
        Some(EntityType::Ladder)
    } else if v == 5 {
        Some(EntityType::SpectralSausage)
    } else if v == 6 {
        Some(EntityType::Barrier)
    } else if v == 7 {
        Some(EntityType::Fork)
    } else if v == 8 {
        Some(EntityType::Island)
    } else {
        None
    }
}

/// Entities that never move: ground, grills, ladders and spectral sausages.
pub open spec fn is_static_spec(t: EntityType) -> bool {
    !(t is Player || t is Sausage || t is Barrier || t is Fork || t is Island)
}

/// Entities that span two cells (sausages) or a whole mask (islands).
pub open spec fn is_extended_spec(t: EntityType) -> bool {
    t is Sausage || t is Island
}

impl EntityType {
    /// The entity type the game numbers `value` (0 to 8).
    pub fn from_i32(value: i32) -> (r: Result<EntityType, String>)
        ensures
            match r {
                Ok(t) => entity_type_of(value as int) == Some(t),
                Err(message) => entity_type_of(value as int) is None && message@
                    == "invalid entity type "@ + int_text(value as int),
            },
    {
        match value {
            0 => Ok(EntityType::Ground),
            1 => Ok(EntityType::Bbq),
            2 => Ok(EntityType::Player),
            3 => Ok(EntityType::Sausage),
            4 => Ok(EntityType::Ladder),
            5 => Ok(EntityType::SpectralSausage),
            6 => Ok(EntityType::Barrier),
            7 => Ok(EntityType::Fork),
            8 => Ok(EntityType::Island),
            _ => Err(text_with_int("invalid entity type ", value as i64)),
        }
    }

    pub fn is_static(self) -> (r: bool)
        ensures
            r == is_static_spec(self),
    {
        !matches!(
            self,
            EntityType::Player | EntityType::Sausage | EntityType::Barrier | EntityType::Fork
                | EntityType::Island
        )
    }

    pub fn is_extended(self) -> (r: bool)
        ensures
            r == is_extended_spec(self),
    {
        matches!(self, EntityType::Sausage | EntityType::Island)
    }
}

#[derive(Clone, Debug, PartialEq, Eq)]
pub struct Entity {
    pub pos: Coord,
    pub entity_type: EntityType,
    pub id: i32,
    pub direction: Direction,
    pub data: String,
    pub stuck_to: i32,
    pub rotation: i32,
    pub cook_data: i32,
    pub turn_direction: Direction,
    pub tile_number: i32,
    pub tile_set: i32,
    pub pivot: i32,
}

/// Whether the entity spans two cells: sausages and islands always, the
/// player while holding the fork.
pub open spec fn spans_two(e: Entity, player_has_fork: bool) -> bool {
    is_extended_spec(e.entity_type) || (e.entity_type == EntityType::Player && player_has_fork)
}

/// The cells an entity occupies: its position, and for a two-cell entity
/// also the cell its direction points to.
pub open spec fn footprint_spec(e: Entity, player_has_fork: bool) -> Seq<Coord> {
    if spans_two(e, player_has_fork) {
        seq![e.pos, coord_step(e.pos, e.direction)]
    } else {
        seq![e.pos]
    }
}

pub open spec fn footprint_fits(e: Entity, player_has_fork: bool) -> bool {
    spans_two(e, player_has_fork) ==> step_fits(e.pos, e.direction)
}

/// Rust's `%` on integers: the remainder of division rounded toward zero.
pub open spec fn trunc_rem(a: int, b: int) -> int {
    if a >= 0 {
        a % b
    } else {
        -((-a) % b)
    }
}

/// Rust's `/` on integers: division rounded toward zero.
pub open spec fn trunc_div(a: int, b: int) -> int {
    if a >= 0 {
        a / b
    } else {
        -((-a) / b)
    }
}

/// The four 2-bit cooking faces of a sausage's cook data, lowest first.
pub open spec fn face(cook: int, k: nat) -> int {
    if k == 0 {
        trunc_rem(cook, 4)
    } else if k == 1 {
        trunc_rem(trunc_div(cook, 4), 4)
    } else if k == 2 {
        trunc_rem(trunc_div(cook, 16), 4)
    } else {
        trunc_rem(trunc_div(cook, 64), 4)
    }
}

/// The cook data with its faces in reverse order.
pub open spec fn reversed_faces(cook: int) -> int {
    face(cook, 3) + 4 * face(cook, 2) + 16 * face(cook, 1) + 64 * face(cook, 0)
}

/// Data of the form `a;b;c` with its last two fields swapped; other data
/// is kept.
pub open spec fn swapped_endpoints(data: Seq<char>) -> Seq<char> {
    let f = split_spec(data, ';');
    if f.len() == 3 {
        f[0] + seq![';'] + f[2] + seq![';'] + f[1]
    } else {
        data
    }
}

proof fn lemma_rem_bounds(a: i32)
    ensures
        -3 <= trunc_rem(a as int, 4) <= 3,
        a as int % 4 == trunc_rem(a as int, 4) || a < 0,
{
}

impl Entity {
    /// A copy with the same fields.
    pub fn duplicate(&self) -> (r: Entity)
        ensures
            r == *self,
    {
        Entity {
            pos: self.pos,
            entity_type: self.entity_type,
            id: self.id,
            direction: self.direction,
            data: self.data.clone(),
            stuck_to: self.stuck_to,
            rotation: self.rotation,
            cook_data: self.cook_data,
            turn_direction: self.turn_direction,
            tile_number: self.tile_number,
            tile_set: self.tile_set,
            pivot: self.pivot,
        }
    }

    /// The occupied cells; see [`footprint_spec`].
    pub fn footprint(&self, player_has_fork: bool) -> (r: Vec<Coord>)
        requires
            footprint_fits(*self, player_has_fork),
        ensures
            r@ == footprint_spec(*self, player_has_fork),
    {
        let extended = self.entity_type.is_extended() || (self.entity_type == EntityType::Player
            && player_has_fork);
        let mut v: Vec<Coord> = Vec::new();
        v.push(self.pos);
        if extended {
            v.push(self.pos.step(self.direction));
        }
        v
    }

    /// The cells directly below the occupied ones.
    pub fn lower_footprint(&self, player_has_fork: bool) -> (r: Vec<Coord>)
        requires
            footprint_fits(*self, player_has_fork),
            forall|i: int|
                0 <= i < footprint_spec(*self, player_has_fork).len() ==> step_fits(
                    #[trigger] footprint_spec(*self, player_has_fork)[i],
                    Direction::Down,
                ),
        ensures
            r@ == footprint_spec(*self, player_has_fork).map_values(
                |c: Coord| coord_step(c, Direction::Down),
            ),
    {
        let cells = self.footprint(player_has_fork);
        let mut out: Vec<Coord> = Vec::new();
        let mut i: usize = 0;
        while i < cells.len()
            invariant
                cells@ == footprint_spec(*self, player_has_fork),
                forall|j: int|
                    0 <= j < cells@.len() ==> step_fits(#[trigger] cells@[j], Direction::Down),
                i <= cells@.len(),
                out@ == cells@.take(i as int).map_values(|c: Coord| coord_step(c, Direction::Down)),
            decreases cells@.len() - i,
        {
            out.push(cells[i].step(Direction::Down));
            assert(out@ =~= cells@.take(i + 1).map_values(
                |c: Coord| coord_step(c, Direction::Down),
            ));
            i += 1;
        }
        assert(cells@.take(i as int) =~= cells@);
        out
    }

    /// The cells the entity would newly enter moving in `movement`: its
    /// cells shifted one step, without those it already occupies.
    pub fn border(&self, movement: Direction, player_has_fork: bool) -> (r: Vec<Coord>)
        requires
            footprint_fits(*self, player_has_fork),
            forall|i: int|
                0 <= i < footprint_spec(*self, player_has_fork).len() ==> step_fits(
                    #[trigger] footprint_spec(*self, player_has_fork)[i],
                    movement,
                ),
        ensures
            r@ == footprint_spec(*self, player_has_fork).map_values(
                |c: Coord| coord_step(c, movement),
            ).filter(|c: Coord| !footprint_spec(*self, player_has_fork).contains(c)),
    {
        let cells = self.footprint(player_has_fork);
        let ghost fp = cells@;
        let ghost moved = fp.map_values(|c: Coord| coord_step(c, movement));
        let mut out: Vec<Coord> = Vec::new();
        let mut i: usize = 0;
        while i < cells.len()
            invariant
                cells@ == fp,
                fp == footprint_spec(*self, player_has_fork),
                moved == fp.map_values(|c: Coord| coord_step(c, movement)),
                forall|j: int| 0 <= j < fp.len() ==> step_fits(#[trigger] fp[j], movement),
                i <= fp.len(),
                out@ == moved.take(i as int).filter(|c: Coord| !fp.contains(c)),
            decreases fp.len() - i,
        {
            let target = cells[i].step(movement);
            let mut inside = false;
            let mut j: usize = 0;
            while j < cells.len()
                invariant
                    cells@ == fp,
                    j <= fp.len(),
                    inside == fp.take(j as int).contains(target),
                decreases fp.len() - j,
            {
                if cells[j] == target {
                    inside = true;
                    assert(fp.take(j + 1)[j as int] == target);
                } else {
                    assert(fp.take(j + 1) =~= fp.take(j as int).push(fp[j as int]));
                }
                proof {
                    if inside && !fp.take(j as int).contains(target) {
                    }
                    assert(fp.take(j + 1) =~= fp.take(j as int).push(fp[j as int]));
                }
                j += 1;
            }
            assert(fp.take(j as int) =~= fp);
            proof {
                assert(moved.take(i + 1) =~= moved.take(i as int).push(target));
                reveal(Seq::filter);
                assert(moved.take(i + 1).drop_last() =~= moved.take(i as int));
                assert(inside == fp.contains(target));
            }
            if !inside {
                out.push(target);
            }
            i += 1;
        }
        assert(moved.take(i as int) =~= moved);
        out
    }

    /// Makes the other end of a sausage its anchor without moving it: the
    /// position steps to the other cell, the direction reverses, the pivot
    /// flag flips, the endpoint data `a;b;c` becomes `a;c;b` and the four
    /// cooking faces are listed in reverse. Other entities are unchanged.
    pub fn pivot_in_place(&mut self)
        requires
            old(self).entity_type == EntityType::Sausage ==> step_fits(
                old(self).pos,
                old(self).direction,
            ) && old(self).pivot > i32::MIN + 1,
        ensures
            old(self).entity_type != EntityType::Sausage ==> *final(self) == *old(self),
            old(self).entity_type == EntityType::Sausage ==> {
                &&& final(self).pos == coord_step(old(self).pos, old(self).direction)
                &&& final(self).direction == inverse_spec(old(self).direction)
                &&& final(self).pivot == 1 - old(self).pivot
                &&& final(self).data@ == swapped_endpoints(old(self).data@)
                &&& final(self).cook_data == reversed_faces(old(self).cook_data as int)
                &&& final(self).entity_type == old(self).entity_type
                &&& final(self).id == old(self).id
                &&& final(self).stuck_to == old(self).stuck_to
                &&& final(self).rotation == old(self).rotation
                &&& final(self).turn_direction == old(self).turn_direction
                &&& final(self).tile_number == old(self).tile_number
                &&& final(self).tile_set == old(self).tile_set
            },
    {
        if self.entity_type != EntityType::Sausage {
            return;
        }
        self.pos = self.pos.step(self.direction);
        self.direction = self.direction.inverse();
        self.pivot = 1 - self.pivot;
        let chars = to_chars(self.data.as_str());
        let fields = split_chars(chars.as_slice(), ';');
        if fields.len() == 3 {
            let mut out: Vec<char> = copy_chars(&fields[0]);
            out.push(';');
            let mut k: usize = 0;
            let ghost a = out@;
            while k < fields[2].len()
                invariant
                    fields@.len() == 3,
                    k <= fields@[2]@.len(),
                    out@ == a + fields@[2]@.take(k as int),
                decreases fields@[2]@.len() - k,
            {
                out.push(fields[2][k]);
                assert(out@ =~= a + fields@[2]@.take(k + 1));
                k += 1;
            }
            out.push(';');
            let ghost b = out@;
            let mut k: usize = 0;
            while k < fields[1].len()
                invariant
                    fields@.len() == 3,
                    k <= fields@[1]@.len(),
                    out@ == b + fields@[1]@.take(k as int),
                decreases fields@[1]@.len() - k,
            {
                out.push(fields[1][k]);
                assert(out@ =~= b + fields@[1]@.take(k + 1));
                k += 1;
            }
            proof {
                assert(fields@[2]@.take(fields@[2]@.len() as int) =~= fields@[2]@);
                assert(fields@[1]@.take(fields@[1]@.len() as int) =~= fields@[1]@);
                assert(char_views(fields@)[0] == fields@[0]@);
                assert(char_views(fields@)[1] == fields@[1]@);
                assert(char_views(fields@)[2] == fields@[2]@);
                assert(out@ =~= swapped_endpoints(chars@));
            }
            self.data = string_from_chars(out.as_slice());
        }
        let c = self.cook_data;
        let f0 = c % 4;
        let f1 = c / 4 % 4;
        let f2 = c / 16 % 4;
        let f3 = c / 64 % 4;
        self.cook_data = f3 + 4 * f2 + 16 * f1 + 64 * f0;
    }
}


/// Pivoting a sausage in place keeps the two cells it occupies.
pub proof fn law_pivot_keeps_cells(before: Entity, after: Entity, player_has_fork: bool)
    requires
        before.entity_type == EntityType::Sausage,
        step_fits(before.pos, before.direction),
        after.entity_type == before.entity_type,
        after.pos == coord_step(before.pos, before.direction),
        after.direction == inverse_spec(before.direction),
    ensures
        footprint_spec(after, player_has_fork).to_set() == footprint_spec(
            before,
            player_has_fork,
        ).to_set(),
{
    let a = footprint_spec(after, player_has_fork);
    let b = footprint_spec(before, player_has_fork);
    assert(coord_step(after.pos, after.direction) == before.pos);
    assert(a.to_set() =~= b.to_set()) by {
        assert forall|c: Coord| a.to_set().contains(c) <==> b.to_set().contains(c) by {
            assert(a.contains(c) <==> (c == after.pos || c == before.pos)) by {
                if a.contains(c) {
                    let i = choose|i: int| 0 <= i < a.len() && a[i] == c;
                }
                if c == after.pos {
                    assert(a[0] == c);
                }
                if c == before.pos {
                    assert(a[1] == c);
                }
            }
            assert(b.contains(c) <==> (c == after.pos || c == before.pos)) by {
                if b.contains(c) {
                    let i = choose|i: int| 0 <= i < b.len() && b[i] == c;
                }
                if c == before.pos {
                    assert(b[0] == c);
                }
                if c == after.pos {
                    assert(b[1] == c);
                }
            }
        }
    }
}


/// The integer in field `i` of a record.
pub open spec fn fint(f: Seq<Seq<char>>, i: int) -> Option<i32> {
    parse_i32_spec(f[i])
}

/// Whether the comma-separated fields of an entity record can be read:
/// at least 15 fields, integers where integers belong (the legacy rotation
/// field 9 is only read when field 8 is not 1), and known type and
/// direction numbers.
pub open spec fn entity_fields_ok(f: Seq<Seq<char>>) -> bool {
    &&& f.len() >= 15
    &&& fint(f, 0) is Some
    &&& fint(f, 1) is Some
    &&& fint(f, 2) is Some
    &&& fint(f, 3) is Some
    &&& entity_type_of(fint(f, 3)->0 as int) is Some
    &&& fint(f, 4) is Some
    &&& fint(f, 5) is Some
    &&& dir_of_value(fint(f, 5)->0 as int) is Some
    &&& fint(f, 7) is Some
    &&& fint(f, 8) is Some
    &&& (fint(f, 8)->0 == 1 || fint(f, 9) is Some)
    &&& fint(f, 10) is Some
    &&& fint(f, 11) is Some
    &&& dir_of_value(fint(f, 11)->0 as int) is Some
    &&& fint(f, 12) is Some
    &&& fint(f, 13) is Some
    &&& fint(f, 14) is Some
}

/// The entity that readable fields describe. Empty ground data reads as
/// `0`; the rotation is 1 when either rotation field is 1.
pub open spec fn entity_of_fields(f: Seq<Seq<char>>, e: Entity) -> bool {
    &&& e.pos == Coord { x: fint(f, 0)->0, y: fint(f, 1)->0, z: fint(f, 2)->0 }
    &&& Some(e.entity_type) == entity_type_of(fint(f, 3)->0 as int)
    &&& e.id == fint(f, 4)->0
    &&& Some(e.direction) == dir_of_value(fint(f, 5)->0 as int)
    &&& e.data@ == if f[6].len() == 0 && fint(f, 3)->0 == 0 {
        seq!['0']
    } else {
        f[6]
    }
    &&& e.stuck_to == fint(f, 7)->0
    &&& e.rotation == if fint(f, 8)->0 == 1 || fint(f, 9)->0 == 1 {
        1i32
    } else {
        0i32
    }
    &&& e.cook_data == fint(f, 10)->0
    &&& Some(e.turn_direction) == dir_of_value(fint(f, 11)->0 as int)
    &&& e.tile_number == fint(f, 12)->0
    &&& e.tile_set == fint(f, 13)->0
    &&& e.pivot == fint(f, 14)->0
}

/// An entity record and the entity it describes.
pub open spec fn entity_record(src: Seq<char>, e: Entity) -> bool {
    entity_fields_ok(split_spec(src, ',')) && entity_of_fields(split_spec(src, ','), e)
}

/// The error for an entity field that is not a 32-bit number.
pub open spec fn field_error(field: Seq<char>, name: Seq<char>) -> Seq<char> {
    "invalid entity "@ + name + ": "@ + crate::text::int_error_spec(field, true, 2147483648, 2147483647)
}

/// The error reading entity fields stops at: too few fields, or the first
/// field, in order, that does not read.
pub open spec fn entity_error(f: Seq<Seq<char>>) -> Seq<char> {
    if f.len() < 15 {
        "entity requires at least 15 comma-separated fields, got "@ + int_text(f.len() as int)
    } else if fint(f, 0) is None {
        field_error(f[0], "x"@)
    } else if fint(f, 1) is None {
        field_error(f[1], "y"@)
    } else if fint(f, 2) is None {
        field_error(f[2], "z"@)
    } else if fint(f, 3) is None {
        field_error(f[3], "type"@)
    } else if entity_type_of(fint(f, 3)->0 as int) is None {
        "invalid entity type "@ + int_text(fint(f, 3)->0 as int)
    } else if fint(f, 4) is None {
        field_error(f[4], "id"@)
    } else if fint(f, 5) is None {
        field_error(f[5], "direction"@)
    } else if dir_of_value(fint(f, 5)->0 as int) is None {
        "invalid direction value "@ + int_text(fint(f, 5)->0 as int)
    } else if fint(f, 7) is None {
        field_error(f[7], "stuck_to"@)
    } else if fint(f, 8) is None {
        field_error(f[8], "rotation"@)
    } else if fint(f, 8)->0 != 1 && fint(f, 9) is None {
        field_error(f[9], "legacy_rotation"@)
    } else if fint(f, 10) is None {
        field_error(f[10], "cook_data"@)
    } else if fint(f, 11) is None {
        field_error(f[11], "turn_direction"@)
    } else if dir_of_value(fint(f, 11)->0 as int) is None {
        "invalid direction value "@ + int_text(fint(f, 11)->0 as int)
    } else if fint(f, 12) is None {
        field_error(f[12], "tile_number"@)
    } else if fint(f, 13) is None {
        field_error(f[13], "tile_set"@)
    } else {
        field_error(f[14], "pivot"@)
    }
}

fn int_field(fields: &Vec<Vec<char>>, index: usize, name: &str) -> (r: Result<i32, String>)
    requires
        index < fields@.len(),
    ensures
        match r {
            Ok(v) => parse_i32_spec(fields@[index as int]@) == Some(v),
            Err(m) => parse_i32_spec(fields@[index as int]@) is None && m@ == field_error(fields@[index as int]@, name@),
        },
{
    match parse_i32(fields[index].as_slice()) {
        Some(v) => Ok(v),
        None => {
            let mut message = String::from_str("invalid entity ");
            message.append(name);
            message.append(": ");
            message.append(int_error_text(fields[index].as_slice(), true, 2147483648, 2147483647));
            Err(message)
        },
    }
}

impl Entity {
    /// Reads an entity record as the game writes it: comma-separated
    /// position, type, id, direction, data, attachment, rotation, cooking,
    /// turn direction, tile number, tile set and pivot.
    pub fn parse(value: &str) -> (r: Result<Entity, String>)
        ensures
            match r {
                Ok(e) => entity_record(value@, e),
                Err(m) => !entity_fields_ok(split_spec(value@, ',')) && m@ == entity_error(split_spec(value@, ',')),
            },
    {
        let chars = to_chars(value);
        Entity::parse_chars(chars.as_slice())
    }

    /// [`Entity::parse`] on the record's characters.
    pub fn parse_chars(value: &[char]) -> (r: Result<Entity, String>)
        ensures
            match r {
                Ok(e) => entity_record(value@, e),
                Err(m) => !entity_fields_ok(split_spec(value@, ',')) && m@ == entity_error(split_spec(value@, ',')),
            },
    {
        let fields = split_chars(value, ',');
        let ghost f = split_spec(value@, ',');
        proof {
            assert forall|i: int| 0 <= i < fields@.len() implies #[trigger] fields@[i]@ == f[i] by {
                assert(char_views(fields@)[i] == fields@[i]@);
            }
        }
        if fields.len() < 15 {
            return Err(text_with_int(
                "entity requires at least 15 comma-separated fields, got ",
                fields.len() as i64,
            ));
        }
        let x = int_field(&fields, 0, "x")?;
        let y = int_field(&fields, 1, "y")?;
        let z = int_field(&fields, 2, "z")?;
        let type_value = int_field(&fields, 3, "type")?;
        let entity_type = EntityType::from_i32(type_value)?;
        let id = int_field(&fields, 4, "id")?;
        let direction = Direction::from_i32(int_field(&fields, 5, "direction")?)?;
        let data = if fields[6].len() == 0 && type_value == 0 {
            let mut d = String::new();
            push_char(&mut d, '0');
            assert(d@ =~= seq!['0']);
            d
        } else {
            string_from_chars(fields[6].as_slice())
        };
        let stuck_to = int_field(&fields, 7, "stuck_to")?;
        let rotation_value = int_field(&fields, 8, "rotation")?;
        let rotation = if rotation_value == 1 {
            1
        } else if int_field(&fields, 9, "legacy_rotation")? == 1 {
            1
        } else {
            0
        };
        let cook_data = int_field(&fields, 10, "cook_data")?;
        let turn_direction = Direction::from_i32(int_field(&fields, 11, "turn_direction")?)?;
        let tile_number = int_field(&fields, 12, "tile_number")?;
        let tile_set = int_field(&fields, 13, "tile_set")?;
        let pivot = int_field(&fields, 14, "pivot")?;
        Ok(
            Entity {
                pos: Coord::new(x, y, z),
                entity_type,
                id,
                direction,
                data,
                stuck_to,
                rotation,
                cook_data,
                turn_direction,
                tile_number,
                tile_set,
                pivot,
            },
        )
    }
}


/// A game state as the game saves it.
#[derive(Clone, Debug, PartialEq, Eq)]
pub struct GameState {
    pub overworld: bool,
    pub push_target_level: String,
    pub entities: Vec<Entity>,
    pub level_completed: Vec<String>,
    pub world_sausages_issued: Vec<String>,
    pub tile_set: i32,
    pub display_name: String,
    pub sausages_cooked: i32,
    pub music_seed: i32,
}

pub open spec fn string_views(v: Seq<String>) -> Seq<Seq<char>> {
    v.map_values(|s: String| s@)
}

/// Section `i` of a saved state (sections are separated by `*`); a
/// missing section is empty.
pub open spec fn section(v: Seq<char>, i: int) -> Seq<char> {
    let s = split_spec(v, '*');
    if 0 <= i < s.len() {
        s[i]
    } else {
        Seq::empty()
    }
}

/// The non-empty `|`-separated records of the first section.
pub open spec fn raw_records(v: Seq<char>) -> Seq<Seq<char>> {
    nonempty(split_spec(section(v, 0), '|'))
}

/// Whether the first record is an `I` (in a level) or `F` header.
pub open spec fn has_header(v: Seq<char>) -> bool {
    let r = raw_records(v);
    r.len() > 0 && (r[0][0] == 'I' || r[0][0] == 'F')
}

/// The entity records: the records after the header, if there is one.
pub open spec fn entity_records(v: Seq<char>) -> Seq<Seq<char>> {
    if has_header(v) {
        raw_records(v).drop_first()
    } else {
        raw_records(v)
    }
}

/// In a level exactly when the header is `I<level>`.
pub open spec fn in_level(v: Seq<char>) -> bool {
    has_header(v) && raw_records(v)[0][0] == 'I'
}

/// Section `i` as a number; an empty section reads as 0.
pub open spec fn state_number(v: Seq<char>, i: int) -> Option<i32> {
    let s = section(v, i);
    parse_i32_spec(
        if s.len() == 0 {
            seq!['0']
        } else {
            s
        },
    )
}

/// Section `i` as a list of its non-empty comma-separated items.
pub open spec fn state_list(v: Seq<char>, i: int) -> Seq<Seq<char>> {
    nonempty(split_spec(section(v, i), ','))
}

/// Whether a saved state can be read: every entity record and the three
/// number sections.
pub open spec fn state_ok(v: Seq<char>) -> bool {
    &&& forall|k: int|
        0 <= k < entity_records(v).len() ==> entity_fields_ok(
            split_spec(#[trigger] entity_records(v)[k], ','),
        )
    &&& state_number(v, 3) is Some
    &&& state_number(v, 5) is Some
    &&& state_number(v, 6) is Some
}

/// The game state a saved state describes.
pub open spec fn state_of(v: Seq<char>, g: GameState) -> bool {
    &&& g.overworld == !in_level(v)
    &&& g.push_target_level@ == if in_level(v) {
        raw_records(v)[0].drop_first()
    } else {
        Seq::empty()
    }
    &&& g.entities@.len() == entity_records(v).len()
    &&& forall|k: int|
        0 <= k < g.entities@.len() ==> entity_record(entity_records(v)[k], #[trigger] g.entities@[k])
    &&& string_views(g.level_completed@) == state_list(v, 1)
    &&& string_views(g.world_sausages_issued@) == state_list(v, 2)
    &&& g.tile_set == state_number(v, 3)->0
    &&& g.display_name@ == section(v, 4)
    &&& g.sausages_cooked == state_number(v, 5)->0
    &&& g.music_seed == state_number(v, 6)->0
}

fn section_of(sections: &Vec<Vec<char>>, i: usize) -> (r: Vec<char>)
    ensures
        r@ == if i < sections@.len() {
            sections@[i as int]@
        } else {
            Seq::<char>::empty()
        },
{
    if i < sections.len() {
        copy_chars(&sections[i])
    } else {
        Vec::new()
    }
}

fn strings_of(pieces: &Vec<Vec<char>>) -> (r: Vec<String>)
    ensures
        string_views(r@) == char_views(pieces@),
{
    let mut out: Vec<String> = Vec::new();
    let mut i: usize = 0;
    while i < pieces.len()
        invariant
            i <= pieces@.len(),
            string_views(out@) == char_views(pieces@).take(i as int),
        decreases pieces@.len() - i,
    {
        let st = string_from_chars(pieces[i].as_slice());
        assert(st@ == pieces@[i as int]@);
        let ghost before = out@;
        out.push(st);
        assert(char_views(pieces@)[i as int] == pieces@[i as int]@);
        assert(string_views(out@) =~= string_views(before).push(st@));
        assert(string_views(out@) =~= char_views(pieces@).take(i + 1));
        i += 1;
    }
    assert(char_views(pieces@).take(i as int) =~= char_views(pieces@));
    out
}

fn number_section(sections: &Vec<Vec<char>>, i: usize, v: Ghost<Seq<char>>) -> (r: Result<i32, String>)
    requires
        char_views(sections@) == split_spec(v@, '*'),
    ensures
        match r {
            Ok(n) => state_number(v@, i as int) == Some(n),
            Err(_) => state_number(v@, i as int) is None,
        },
{
    let s = section_of(sections, i);
    proof {
        if i < sections@.len() {
            assert(char_views(sections@)[i as int] == sections@[i as int]@);
        }
    }
    let text = if s.len() == 0 {
        let mut z: Vec<char> = Vec::new();
        z.push('0');
        assert(z@ =~= seq!['0']);
        z
    } else {
        s
    };
    match parse_i32(text.as_slice()) {
        Some(n) => Ok(n),
        None => {
            let mut message = text_with_int("invalid state metadata field ", i as i64);
            message.append(": ");
            message.append(int_error_text(text.as_slice(), true, 2147483648, 2147483647));
            Err(message)
        },
    }
}

impl GameState {
    /// Reads a saved state: `|`-separated entity records (after an optional
    /// `I<level>` or `F` header), then `*`-separated completed levels,
    /// issued sausages, tile set, display name, cooked count and music seed.
    pub fn parse(value: &str) -> (r: Result<GameState, String>)
        ensures
            match r {
                Ok(g) => state_ok(value@) && state_of(value@, g),
                Err(_) => !state_ok(value@),
            },
    {
        let chars = to_chars(value);
        let ghost v = value@;
        let sections = split_chars(chars.as_slice(), '*');
        let first = section_of(&sections, 0);
        proof {
            assert(char_views(sections@)[0] == sections@[0]@);
        }
        let pieces = split_chars(first.as_slice(), '|');
        let records = keep_nonempty(&pieces);
        assert(char_views(records@) == raw_records(v));
        let mut overworld = true;
        let mut target: Vec<char> = Vec::new();
        let mut start: usize = 0;
        if records.len() > 0 {
            proof {
                assert(char_views(records@)[0] == records@[0]@);
                lemma_nonempty_items(char_views(pieces@), 0);
            }
            let head = &records[0];
            if head[0] == 'I' {
                overworld = false;
                let mut k: usize = 1;
                while k < head.len()
                    invariant
                        1 <= k <= head@.len(),
                        target@ == head@.subrange(1, k as int),
                    decreases head@.len() - k,
                {
                    target.push(head[k]);
                    assert(target@ =~= head@.subrange(1, k + 1));
                    k += 1;
                }
                assert(target@ =~= head@.drop_first());
                start = 1;
            } else if head[0] == 'F' {
                start = 1;
            }
        }
        proof {
            if start == 1 {
                assert(char_views(records@).drop_first() =~= char_views(records@).skip(1));
            } else {
                assert(char_views(records@) =~= char_views(records@).skip(0));
            }
        }
        let ghost recs = entity_records(v);
        assert(recs =~= char_views(records@).skip(start as int));
        let mut entities: Vec<Entity> = Vec::new();
        let mut k: usize = start;
        while k < records.len()
            invariant
                start <= k <= records@.len(),
                recs == char_views(records@).skip(start as int),
                recs == entity_records(v),
                v == value@,
                entities@.len() == k - start,
                forall|j: int|
                    0 <= j < entities@.len() ==> entity_record(recs[j], #[trigger] entities@[j]),
                forall|j: int|
                    0 <= j < entities@.len() ==> entity_fields_ok(split_spec(#[trigger] recs[j], ',')),
            decreases records@.len() - k,
        {
            assert(recs[k - start] == records@[k as int]@);
            match Entity::parse_chars(records[k].as_slice()) {
                Ok(e) => {
                    entities.push(e);
                },
                Err(message) => {
                    assert(!state_ok(v)) by {
                        assert(!entity_fields_ok(split_spec(entity_records(v)[k - start], ',')));
                    }
                    assert(!state_ok(value@));
                    return Err(message);
                },
            }
            k += 1;
        }
        let completed_pieces = split_chars(section_of(&sections, 1).as_slice(), ',');
        let issued_pieces = split_chars(section_of(&sections, 2).as_slice(), ',');
        proof {
            if 1 < sections@.len() {
                assert(char_views(sections@)[1] == sections@[1]@);
            }
            if 2 < sections@.len() {
                assert(char_views(sections@)[2] == sections@[2]@);
            }
            if 4 < sections@.len() {
                assert(char_views(sections@)[4] == sections@[4]@);
            }
        }
        let level_completed = strings_of(&keep_nonempty(&completed_pieces));
        let world_sausages_issued = strings_of(&keep_nonempty(&issued_pieces));
        let tile_set = number_section(&sections, 3, Ghost(v))?;
        let display_name = string_from_chars(section_of(&sections, 4).as_slice());
        let sausages_cooked = number_section(&sections, 5, Ghost(v))?;
        let music_seed = number_section(&sections, 6, Ghost(v))?;
        Ok(
            GameState {
                overworld,
                push_target_level: string_from_chars(target.as_slice()),
                entities,
                level_completed,
                world_sausages_issued,
                tile_set,
                display_name,
                sausages_cooked,
                music_seed,
            },
        )
    }
}

proof fn lemma_nonempty_items(pieces: Seq<Seq<char>>, i: int)
    requires
        0 <= i < nonempty(pieces).len(),
    ensures
        nonempty(pieces)[i].len() > 0,
    decreases pieces.len(),
{
    if pieces.len() > 0 {
        if pieces.last().len() > 0 && i == nonempty(pieces).len() - 1 {
        } else {
            lemma_nonempty_items(pieces.drop_last(), i);
        }
    }
}


/// The first entity of the given type, by index.
pub open spec fn first_of_type(es: Seq<Entity>, t: EntityType) -> Option<int> {
    if exists|i: int| 0 <= i < es.len() && (#[trigger] es[i]).entity_type == t {
        Some(
            choose|i: int|
                0 <= i < es.len() && (#[trigger] es[i]).entity_type == t && forall|j: int|
                    0 <= j < i ==> es[j].entity_type != t,
        )
    } else {
        None
    }
}

fn find_type(es: &Vec<Entity>, t: EntityType) -> (r: Option<usize>)
    ensures
        match r {
            Some(i) => i < es@.len() && es@[i as int].entity_type == t && forall|j: int|
                0 <= j < i ==> es@[j].entity_type != t,
            None => forall|j: int| 0 <= j < es@.len() ==> es@[j].entity_type != t,
        },
{
    let mut i: usize = 0;
    while i < es.len()
        invariant
            i <= es@.len(),
            forall|j: int| 0 <= j < i ==> es@[j].entity_type != t,
        decreases es@.len() - i,
    {
        if es[i].entity_type == t {
            return Some(i);
        }
        i += 1;
    }
    None
}

/// The player holds the fork exactly when no detached fork exists.
pub open spec fn player_holds_fork(g: GameState) -> bool {
    !exists|j: int| 0 <= j < g.entities@.len() && g.entities@[j].entity_type == EntityType::Fork
}

/// Every entity's footprint fits the grid.
pub open spec fn state_cells_fit(g: GameState) -> bool {
    forall|i: int|
        0 <= i < g.entities@.len() ==> footprint_fits(#[trigger] g.entities@[i], player_holds_fork(g))
}

/// The set of cells with `c` added, keeping the cells distinct.
fn insert_distinct(out: &mut Vec<Coord>, c: Coord)
    requires
        old(out)@.no_duplicates(),
    ensures
        final(out)@.no_duplicates(),
        forall|x: Coord| final(out)@.contains(x) <==> (old(out)@.contains(x) || x == c),
{
    let mut k: usize = 0;
    while k < out.len()
        invariant
            k <= out@.len(),
            out@ == old(out)@,
            out@.no_duplicates(),
            forall|j: int| 0 <= j < k ==> out@[j] != c,
        decreases out@.len() - k,
    {
        if out[k] == c {
            assert(out@[k as int] == c);
            return;
        }
        k += 1;
    }
    let ghost mid = out@;
    out.push(c);
    proof {
        assert forall|x: int, y: int|
            0 <= x < out@.len() && 0 <= y < out@.len() && x != y implies out@[x] != out@[y] by {
            if x == mid.len() as int {
                assert(out@[y] == mid[y]);
            } else if y == mid.len() as int {
                assert(out@[x] == mid[x]);
            }
        }
        assert forall|x: Coord| out@.contains(x) <==> (mid.contains(x) || x == c) by {
            if out@.contains(x) {
                let w = choose|w: int| 0 <= w < out@.len() && out@[w] == x;
                if w < mid.len() {
                    assert(mid[w] == x);
                }
            }
            if mid.contains(x) {
                let w = choose|w: int| 0 <= w < mid.len() && mid[w] == x;
                assert(out@[w] == x);
            }
            if x == c {
                assert(out@[mid.len() as int] == c);
            }
        }
    }
}

impl GameState {
    /// The first player entity.
    pub fn player(&self) -> (r: Option<&Entity>)
        ensures
            match r {
                Some(e) => exists|i: int|
                    0 <= i < self.entities@.len() && *e == self.entities@[i] && e.entity_type
                        == EntityType::Player && forall|j: int|
                        0 <= j < i ==> self.entities@[j].entity_type != EntityType::Player,
                None => forall|j: int|
                    0 <= j < self.entities@.len() ==> self.entities@[j].entity_type
                        != EntityType::Player,
            },
    {
        match find_type(&self.entities, EntityType::Player) {
            Some(i) => Some(&self.entities[i]),
            None => None,
        }
    }

    /// The first detached fork; none while the player holds it.
    pub fn fork(&self) -> (r: Option<&Entity>)
        ensures
            match r {
                Some(e) => exists|i: int|
                    0 <= i < self.entities@.len() && *e == self.entities@[i] && e.entity_type
                        == EntityType::Fork && forall|j: int|
                        0 <= j < i ==> self.entities@[j].entity_type != EntityType::Fork,
                None => forall|j: int|
                    0 <= j < self.entities@.len() ==> self.entities@[j].entity_type
                        != EntityType::Fork,
            },
    {
        match find_type(&self.entities, EntityType::Fork) {
            Some(i) => Some(&self.entities[i]),
            None => None,
        }
    }

    /// The sausages, in order.
    pub fn sausages(&self) -> (r: Vec<&Entity>)
        ensures
            r@.map_values(|e: &Entity| *e) == self.entities@.filter(
                |e: Entity| e.entity_type == EntityType::Sausage,
            ),
    {
        let ghost es = self.entities@;
        let mut out: Vec<&Entity> = Vec::new();
        let mut i: usize = 0;
        while i < self.entities.len()
            invariant
                es == self.entities@,
                i <= es.len(),
                out@.map_values(|e: &Entity| *e) == es.take(i as int).filter(
                    |e: Entity| e.entity_type == EntityType::Sausage,
                ),
            decreases es.len() - i,
        {
            proof {
                reveal(Seq::filter);
                assert(es.take(i + 1).drop_last() =~= es.take(i as int));
            }
            if self.entities[i].entity_type == EntityType::Sausage {
                let ghost before = out@;
                out.push(&self.entities[i]);
                assert(out@.map_values(|e: &Entity| *e) =~= before.map_values(|e: &Entity| *e).push(
                    es[i as int],
                ));
            }
            i += 1;
        }
        assert(es.take(i as int) =~= es);
        out
    }

    /// The distinct cells occupied by every entity but the islands, with
    /// the player holding the fork exactly when no detached fork exists.
    pub fn occupied_cells(&self) -> (r: Vec<Coord>)
        requires
            state_cells_fit(*self),
        ensures
            r@.no_duplicates(),
            forall|c: Coord|
                r@.contains(c) <==> exists|i: int|
                    0 <= i < self.entities@.len() && self.entities@[i].entity_type
                        != EntityType::Island && footprint_spec(
                        #[trigger] self.entities@[i],
                        player_holds_fork(*self),
                    ).contains(c),
    {
        let player_has_fork = self.fork().is_none();
        let ghost has = player_holds_fork(*self);
        assert(player_has_fork == has) by {
            if !player_has_fork {
                let j = choose|j: int|
                    0 <= j < self.entities@.len() && self.entities@[j].entity_type
                        == EntityType::Fork;
            }
        }
        let mut out: Vec<Coord> = Vec::new();
        let mut i: usize = 0;
        while i < self.entities.len()
            invariant
                state_cells_fit(*self),
                has == player_holds_fork(*self),
                player_has_fork == has,
                i <= self.entities@.len(),
                out@.no_duplicates(),
                forall|c: Coord|
                    out@.contains(c) <==> exists|k: int|
                        0 <= k < i && self.entities@[k].entity_type != EntityType::Island
                            && footprint_spec(#[trigger] self.entities@[k], has).contains(c),
            decreases self.entities@.len() - i,
        {
            let entity = &self.entities[i];
            let ghost before = out@;
            if entity.entity_type != EntityType::Island {
                assert(footprint_fits(self.entities@[i as int], has));
                let cells = entity.footprint(player_has_fork);
                let mut j: usize = 0;
                while j < cells.len()
                    invariant
                        cells@ == footprint_spec(*entity, has),
                        j <= cells@.len(),
                        out@.no_duplicates(),
                        forall|c: Coord|
                            #[trigger] out@.contains(c) <==> (before.contains(c) || cells@.take(
                                j as int,
                            ).contains(c)),
                    decreases cells@.len() - j,
                {
                    let ghost prev = out@;
                    assert(forall|x: Coord| prev.contains(x) == (before.contains(x) || cells@.take(j as int).contains(x)));
                    insert_distinct(&mut out, cells[j]);
                    proof {
                        assert(cells@.take(j + 1) =~= cells@.take(j as int).push(cells@[j as int]));
                        assert forall|x: Coord| out@.contains(x) <==> (before.contains(x)
                            || cells@.take(j + 1).contains(x)) by {
                            assert(out@.contains(x) == (prev.contains(x) || x == cells@[j as int]));
                            assert(prev.contains(x) == (before.contains(x) || cells@.take(
                                j as int,
                            ).contains(x)));
                            if cells@.take(j + 1).contains(x) && x != cells@[j as int] {
                                let w = choose|w: int|
                                    0 <= w < j + 1 && #[trigger] cells@.take(j + 1)[w] == x;
                                assert(cells@.take(j as int)[w] == x);
                            }
                            if cells@.take(j as int).contains(x) {
                                let w = choose|w: int|
                                    0 <= w < j && #[trigger] cells@.take(j as int)[w] == x;
                                assert(cells@.take(j + 1)[w] == x);
                            }
                            if x == cells@[j as int] {
                                assert(cells@.take(j + 1)[j as int] == x);
                            }
                        }
                    }
                    j += 1;
                }
                proof {
                    assert(cells@.take(j as int) =~= cells@);
                    assert(forall|x: Coord| #[trigger] out@.contains(x) == (before.contains(x) || cells@.contains(x)));
                }
            }
            proof {
                assert forall|c: Coord| out@.contains(c) <==> exists|k: int|
                    0 <= k < i + 1 && self.entities@[k].entity_type != EntityType::Island
                        && footprint_spec(#[trigger] self.entities@[k], has).contains(c) by {
                    if entity.entity_type != EntityType::Island {
                        assert(out@.contains(c) == (before.contains(c) || footprint_spec(
                            self.entities@[i as int],
                            has,
                        ).contains(c)));
                    } else {
                        assert(out@ == before);
                    }
                    assert(before.contains(c) == exists|k: int|
                        0 <= k < i && self.entities@[k].entity_type != EntityType::Island
                            && footprint_spec(#[trigger] self.entities@[k], has).contains(c));
                    if exists|k: int|
                        0 <= k < i + 1 && self.entities@[k].entity_type != EntityType::Island
                            && footprint_spec(#[trigger] self.entities@[k], has).contains(c) {
                        let k = choose|k: int|
                            0 <= k < i + 1 && self.entities@[k].entity_type != EntityType::Island
                                && footprint_spec(#[trigger] self.entities@[k], has).contains(c);
                        if k < i {
                            assert(before.contains(c));
                        }
                    }
                    if out@.contains(c) && !before.contains(c) {
                        assert(footprint_spec(self.entities@[i as int], has).contains(c));
                    }
                }
            }
            i += 1;
        }
        out
    }
}

} // verus!
