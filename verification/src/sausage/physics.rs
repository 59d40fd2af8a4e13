//! Exact discrete-time primitives of the three-dimensional engine.
//!
//! Several entities move at once, so a cell is not simply occupied or
//! empty: an entity can be leaving it while another enters it at a
//! compatible speed. These types keep that timing model exactly.

use core::cmp::Ordering;
use vstd::arithmetic::power2::pow2;
use vstd::bits::{lemma_u32_pow2_no_overflow, lemma_u32_shl_is_mul};
use vstd::prelude::*;
use vstd::std_specs::cmp::{PartialEqSpecImpl, PartialOrdSpecImpl};

use crate::sausage::model::{
    coord_step, continue_rotation_spec, inverse_spec, left_of_spec, parallel_spec, rotation_between_spec,
    step_fits, footprint_spec, footprint_fits, Coord, Direction, Entity, EntityType, is_orthogonal_spec,
    trunc_div, coord_sum, coord_diff, delta_spec,
};

verus! {

/// An exact rational number; fractions are compared by value and only
/// reduced once the denominator grows past 10000.
#[derive(Clone, Copy, Debug)]
pub struct Fraction {
    pub numerator: i64,
    pub denominator: i64,
}

/// Euclid's algorithm.
pub open spec fn euclid(a: nat, b: nat) -> nat
    decreases b,
{
    if b == 0 {
        a
    } else {
        euclid(b, a % b)
    }
}

/// The divisor the reduction uses: Euclid's algorithm on the smaller and
/// larger argument, at least 1.
pub open spec fn gcd_spec(left: nat, right: nat) -> nat {
    let g = if left > right {
        euclid(right, left)
    } else {
        euclid(left, right)
    };
    if g >= 1 {
        g
    } else {
        1
    }
}

pub open spec fn abs(n: int) -> nat {
    if n < 0 {
        (-n) as nat
    } else {
        n as nat
    }
}

/// The fraction `numerator / denominator` with a positive denominator,
/// reduced when the denominator exceeds 10000.
pub open spec fn new_spec(numerator: int, denominator: int) -> Fraction {
    let n = if denominator < 0 {
        -numerator
    } else {
        numerator
    };
    let d = if denominator < 0 {
        -denominator
    } else {
        denominator
    };
    if d > 10000 {
        let g = gcd_spec(abs(n), d as nat) as int;
        Fraction { numerator: trunc_div(n, g) as i64, denominator: (d / g) as i64 }
    } else {
        Fraction { numerator: n as i64, denominator: d as i64 }
    }
}

/// The arguments `Fraction::new` accepts without overflow.
pub open spec fn new_ok(numerator: int, denominator: int) -> bool {
    &&& denominator != 0
    &&& i64::MIN <= numerator <= i64::MAX
    &&& i64::MIN <= denominator <= i64::MAX
    &&& denominator < 0 ==> numerator != i64::MIN && denominator != i64::MIN
}

/// Whether two fractions have the same value.
pub open spec fn same_value(a: Fraction, b: Fraction) -> bool {
    a.numerator * b.denominator == b.numerator * a.denominator
}

/// `a <= b` as the engine compares fractions (cross-multiplied).
pub open spec fn frac_le(a: Fraction, b: Fraction) -> bool {
    a.numerator * b.denominator <= b.numerator * a.denominator
}

pub open spec fn frac_lt(a: Fraction, b: Fraction) -> bool {
    a.numerator * b.denominator < b.numerator * a.denominator
}

pub open spec fn add_spec(a: Fraction, b: Fraction) -> Fraction {
    new_spec(a.numerator * b.denominator + b.numerator * a.denominator, a.denominator * b.denominator)
}

pub open spec fn sub_spec(a: Fraction, b: Fraction) -> Fraction {
    new_spec(a.numerator * b.denominator - b.numerator * a.denominator, a.denominator * b.denominator)
}

pub open spec fn mul_spec(a: Fraction, b: Fraction) -> Fraction {
    new_spec(a.numerator * b.numerator, a.denominator * b.denominator)
}

pub open spec fn div_spec(a: Fraction, b: Fraction) -> Fraction {
    new_spec(a.numerator * b.denominator, a.denominator * b.numerator)
}

pub open spec fn add_ok(a: Fraction, b: Fraction) -> bool {
    new_ok(a.numerator * b.denominator + b.numerator * a.denominator, a.denominator * b.denominator)
        && i64::MIN <= a.numerator * b.denominator <= i64::MAX && i64::MIN <= b.numerator
        * a.denominator <= i64::MAX
}

pub open spec fn sub_ok(a: Fraction, b: Fraction) -> bool {
    new_ok(a.numerator * b.denominator - b.numerator * a.denominator, a.denominator * b.denominator)
        && i64::MIN <= a.numerator * b.denominator <= i64::MAX && i64::MIN <= b.numerator
        * a.denominator <= i64::MAX
}

pub open spec fn mul_ok(a: Fraction, b: Fraction) -> bool {
    new_ok(a.numerator * b.numerator, a.denominator * b.denominator)
}

pub open spec fn div_ok(a: Fraction, b: Fraction) -> bool {
    new_ok(a.numerator * b.denominator, a.denominator * b.numerator)
}

proof fn lemma_euclid_bound(a: nat, b: nat)
    requires
        b > 0,
    ensures
        1 <= euclid(a, b) <= b,
    decreases b,
{
    if a % b == 0 {
        assert(euclid(b, 0) == b);
    } else {
        lemma_euclid_bound(b, a % b);
    }
}

/// The divisor for reducing: Euclid's algorithm, at least 1.
pub fn gcd(left: u64, right: u64) -> (r: u64)
    ensures
        r == gcd_spec(left as nat, right as nat),
{
    let mut l = left;
    let mut rr = right;
    if l > rr {
        let t = l;
        l = rr;
        rr = t;
    }
    let ghost (a0, b0) = if left > right {
        (right as nat, left as nat)
    } else {
        (left as nat, right as nat)
    };
    while rr != 0
        invariant
            euclid(l as nat, rr as nat) == euclid(a0, b0),
        decreases rr,
    {
        let remainder = l % rr;
        l = rr;
        rr = remainder;
    }
    if l >= 1 {
        l
    } else {
        1
    }
}

proof fn lemma_gcd_fits(n: nat, d: nat)
    requires
        d > 0,
    ensures
        1 <= gcd_spec(n, d) <= d,
{
    if n > d {
        assert(d % n == d) by (nonlinear_arith)
            requires
                0 < d < n,
        ;
        assert(euclid(d, n) == euclid(n, d));
        lemma_euclid_bound(n, d);
    } else if n == 0 {
        assert(euclid(0, d) == euclid(d, 0));
    } else {
        if n == d {
            assert(euclid(n, d) == euclid(d, 0));
        } else {
            assert(n % d == n) by (nonlinear_arith)
                requires
                    0 < n < d,
            ;
            assert(euclid(n, d) == euclid(d, n));
            lemma_euclid_bound(d, n);
        }
    }
}

/// Products of two `i64` values fit comfortably in an `i128`.
proof fn lemma_product_fits(a: i64, b: i64)
    ensures
        -0x4000_0000_0000_0000_0000_0000_0000_0000 <= (a as int) * (b as int)
            <= 0x4000_0000_0000_0000_0000_0000_0000_0000,
{
    let x = a as int;
    let y = b as int;
    let bound = 0x8000_0000_0000_0000int;
    assert(x * y <= bound * bound) by (nonlinear_arith)
        requires
            -bound <= x <= bound,
            -bound <= y <= bound,
            bound > 0,
    {
        if x >= 0 && y >= 0 {
            assert(x * y <= bound * y);
            assert(bound * y <= bound * bound);
        } else if x < 0 && y < 0 {
            assert(x * y == (-x) * (-y));
            assert((-x) * (-y) <= bound * (-y));
        } else if x < 0 {
            assert(x * y <= 0);
        } else {
            assert(x * y <= 0);
        }
    }
    assert(-(bound * bound) <= x * y) by (nonlinear_arith)
        requires
            -bound <= x <= bound,
            -bound <= y <= bound,
            bound > 0,
    {
        if x >= 0 && y < 0 {
            assert(x * (-y) <= bound * (-y));
            assert(bound * (-y) <= bound * bound);
        } else if x < 0 && y >= 0 {
            assert((-x) * y <= bound * y);
            assert(bound * y <= bound * bound);
        } else {
            assert(x * y >= 0);
        }
    }
    assert(bound * bound == 0x4000_0000_0000_0000_0000_0000_0000_0000);
}

impl Fraction {
    pub fn zero() -> (r: Fraction)
        ensures
            r == (Fraction { numerator: 0, denominator: 1 }),
    {
        Fraction { numerator: 0, denominator: 1 }
    }

    pub fn one() -> (r: Fraction)
        ensures
            r == (Fraction { numerator: 1, denominator: 1 }),
    {
        Fraction { numerator: 1, denominator: 1 }
    }

    /// The fraction with exactly these parts.
    pub fn new_unchecked(numerator: i64, denominator: i64) -> (r: Fraction)
        ensures
            r == (Fraction { numerator, denominator }),
    {
        Fraction { numerator, denominator }
    }

    /// `numerator / denominator` with the sign moved to the numerator,
    /// reduced when the denominator exceeds 10000 (see [`new_spec`]).
    pub fn new(numerator: i64, denominator: i64) -> (r: Fraction)
        requires
            new_ok(numerator as int, denominator as int),
        ensures
            r == new_spec(numerator as int, denominator as int),
            r.denominator > 0,
    {
        let mut n = numerator;
        let mut d = denominator;
        if d < 0 {
            n = -n;
            d = -d;
        }
        if d > 10_000 {
            let magnitude: u64 = if n < 0 {
                if n == i64::MIN {
                    9223372036854775808u64
                } else {
                    (-n) as u64
                }
            } else {
                n as u64
            };
            proof {
                lemma_gcd_fits(abs(n as int), d as nat);
            }
            let divisor = gcd(magnitude, d as u64) as i64;
            assert(divisor as int == gcd_spec(abs(n as int), d as nat));
            let rn = n / divisor;
            let rd = d / divisor;
            assert(rd >= 1) by (nonlinear_arith)
                requires
                    rd == d / divisor,
                    d >= divisor >= 1,
            ;
            Fraction { numerator: rn, denominator: rd }
        } else {
            Fraction { numerator: n, denominator: d }
        }
    }

    /// The reciprocal.
    pub fn inverse(self) -> (r: Fraction)
        requires
            new_ok(self.denominator as int, self.numerator as int),
        ensures
            r == new_spec(self.denominator as int, self.numerator as int),
    {
        Fraction::new(self.denominator, self.numerator)
    }

    /// The integer as a fraction.
    pub fn from_i32(value: i32) -> (r: Fraction)
        ensures
            r == new_spec(value as int, 1),
            r == (Fraction { numerator: value as i64, denominator: 1 }),
    {
        Fraction::new(value as i64, 1)
    }

    pub fn plus(self, rhs: Fraction) -> (r: Fraction)
        requires
            add_ok(self, rhs),
        ensures
            r == add_spec(self, rhs),
    {
        Fraction::new(
            self.numerator * rhs.denominator + rhs.numerator * self.denominator,
            self.denominator * rhs.denominator,
        )
    }

    pub fn minus(self, rhs: Fraction) -> (r: Fraction)
        requires
            sub_ok(self, rhs),
        ensures
            r == sub_spec(self, rhs),
    {
        Fraction::new(
            self.numerator * rhs.denominator - rhs.numerator * self.denominator,
            self.denominator * rhs.denominator,
        )
    }

    pub fn times(self, rhs: Fraction) -> (r: Fraction)
        requires
            mul_ok(self, rhs),
        ensures
            r == mul_spec(self, rhs),
    {
        Fraction::new(self.numerator * rhs.numerator, self.denominator * rhs.denominator)
    }

    pub fn divided_by(self, rhs: Fraction) -> (r: Fraction)
        requires
            div_ok(self, rhs),
        ensures
            r == div_spec(self, rhs),
    {
        Fraction::new(self.numerator * rhs.denominator, self.denominator * rhs.numerator)
    }

    /// Whether the two fractions have the same value.
    pub fn same(self, other: Fraction) -> (r: bool)
        ensures
            r == same_value(self, other),
    {
        proof {
            lemma_product_fits(self.numerator, other.denominator);
            lemma_product_fits(other.numerator, self.denominator);
        }
        (self.numerator as i128) * (other.denominator as i128) == (other.numerator as i128) * (
        self.denominator as i128)
    }

    /// `self <= other`, cross-multiplied.
    pub fn at_most(self, other: Fraction) -> (r: bool)
        ensures
            r == frac_le(self, other),
    {
        proof {
            lemma_product_fits(self.numerator, other.denominator);
            lemma_product_fits(other.numerator, self.denominator);
        }
        (self.numerator as i128) * (other.denominator as i128) <= (other.numerator as i128) * (
        self.denominator as i128)
    }

    /// `self < other`, cross-multiplied.
    pub fn less_than(self, other: Fraction) -> (r: bool)
        ensures
            r == frac_lt(self, other),
    {
        proof {
            lemma_product_fits(self.numerator, other.denominator);
            lemma_product_fits(other.numerator, self.denominator);
        }
        (self.numerator as i128) * (other.denominator as i128) < (other.numerator as i128) * (
        self.denominator as i128)
    }
}

impl PartialEq for Fraction {
    fn eq(&self, other: &Self) -> (r: bool) {
        self.same(*other)
    }
}

impl Eq for Fraction {}

impl PartialOrd for Fraction {
    fn partial_cmp(&self, other: &Self) -> (r: Option<Ordering>) {
        if self.less_than(*other) {
            Some(Ordering::Less)
        } else if self.same(*other) {
            Some(Ordering::Equal)
        } else {
            Some(Ordering::Greater)
        }
    }
}

impl PartialOrdSpecImpl for Fraction {
    open spec fn obeys_partial_cmp_spec() -> bool {
        true
    }

    open spec fn partial_cmp_spec(&self, other: &Self) -> Option<Ordering> {
        if frac_lt(*self, *other) {
            Some(Ordering::Less)
        } else if same_value(*self, *other) {
            Some(Ordering::Equal)
        } else {
            Some(Ordering::Greater)
        }
    }
}

impl PartialEqSpecImpl for Fraction {
    open spec fn obeys_eq_spec() -> bool {
        true
    }

    open spec fn eq_spec(&self, other: &Self) -> bool {
        same_value(*self, *other)
    }
}


/// The integer `value` as a fraction over one.
pub open spec fn int_frac(value: int) -> Fraction {
    Fraction { numerator: value as i64, denominator: 1 }
}

pub open spec fn one_frac() -> Fraction {
    Fraction { numerator: 1, denominator: 1 }
}

pub open spec fn zero_frac() -> Fraction {
    Fraction { numerator: 0, denominator: 1 }
}

/// What an entity claims of a cell: the direction it moves through it,
/// whether it is entering or leaving, how far along it is, and its speed
/// (zero for an entity that stays put).
#[derive(Clone, Copy, Debug, PartialEq, Eq)]
pub struct Occupancy {
    pub pos: Coord,
    pub direction: Direction,
    pub entering: bool,
    pub position: Fraction,
    pub speed: i32,
}

/// The time an entity needs to clear the cell: `(1 - position) / speed`.
pub open spec fn leave_time(o: Occupancy) -> Fraction {
    div_spec(sub_spec(one_frac(), o.position), int_frac(o.speed as int))
}

/// Whether `leave_time` can be computed without overflow.
pub open spec fn leave_ok(o: Occupancy) -> bool {
    sub_ok(one_frac(), o.position) && div_ok(sub_spec(one_frac(), o.position), int_frac(o.speed as int))
}

/// The occupancy of the two that enters the cell, and the one that leaves.
pub open spec fn entering_of(a: Occupancy, b: Occupancy) -> Occupancy {
    if a.entering {
        a
    } else {
        b
    }
}

pub open spec fn leaving_of(a: Occupancy, b: Occupancy) -> Occupancy {
    if a.entering {
        b
    } else {
        a
    }
}

/// Two claims on one cell are a hand-off when both move the same way at
/// speed, one leaving and one entering, and the entering one is no
/// further along than the leaving one.
pub open spec fn handoff_candidates(a: Occupancy, b: Occupancy) -> bool {
    &&& a.pos == b.pos
    &&& a.speed != 0
    &&& b.speed != 0
    &&& a.direction == b.direction
    &&& a.entering != b.entering
    &&& !frac_lt(leaving_of(a, b).position, entering_of(a, b).position)
}

/// Whether two claims can coexist: different cells, or a hand-off in which
/// the leaving entity clears the cell no later than the entering one
/// would.
pub open spec fn compatible_spec(a: Occupancy, b: Occupancy) -> bool {
    if a.pos != b.pos {
        true
    } else if handoff_candidates(a, b) {
        frac_le(leave_time(leaving_of(a, b)), leave_time(entering_of(a, b)))
    } else {
        false
    }
}

/// What `compatible_with` computes is free of overflow.
pub open spec fn compatible_ok(a: Occupancy, b: Occupancy) -> bool {
    handoff_candidates(a, b) ==> leave_ok(a) && leave_ok(b)
}

impl Occupancy {
    pub fn new(pos: Coord, direction: Direction, entering: bool, position: Fraction, speed: i32) -> (r:
        Occupancy)
        ensures
            r == (Occupancy { pos, direction, entering, position, speed }),
    {
        Occupancy { pos, direction, entering, position, speed }
    }

    /// The two claims conflict.
    pub fn overlaps(self, other: Occupancy) -> (r: bool)
        requires
            compatible_ok(self, other),
        ensures
            r == !compatible_spec(self, other),
    {
        !self.compatible_with(other)
    }

    /// See [`compatible_spec`].
    pub fn compatible_with(self, other: Occupancy) -> (r: bool)
        requires
            compatible_ok(self, other),
        ensures
            r == compatible_spec(self, other),
    {
        if self.pos != other.pos {
            return true;
        }
        if self.is_static() || other.is_static() {
            return false;
        }
        if self.direction != other.direction || self.entering == other.entering {
            return false;
        }
        let (entering, leaving) = if self.entering {
            (self, other)
        } else {
            (other, self)
        };
        if leaving.position.less_than(entering.position) {
            return false;
        }
        leaving.time_until_leave().at_most(entering.time_until_leave())
    }

    /// The claim belongs to an entity that stays put.
    pub fn is_static(self) -> (r: bool)
        ensures
            r == (self.speed == 0),
    {
        self.speed == 0
    }

    /// The claim belongs to an entity turning in place.
    pub fn is_rotating(self) -> (r: bool)
        ensures
            r == (self.direction == Direction::NoDirection && self.speed > 0),
    {
        self.direction == Direction::NoDirection && self.speed > 0
    }

    fn time_until_leave(self) -> (r: Fraction)
        requires
            leave_ok(self),
        ensures
            r == leave_time(self),
    {
        Fraction::one().minus(self.position).divided_by(Fraction::from_i32(self.speed))
    }
}


/// What kind of change a movement makes when it resolves.
#[derive(Clone, Copy, Debug, PartialEq, Eq, Structural)]
pub enum MovementKind {
    NoMovement,
    Translation,
    Rotation,
    Pivot,
}

/// The animation a movement plays.
#[derive(Clone, Copy, Debug, PartialEq, Eq, Structural)]
pub enum Animation {
    Idle,
    WalkForward,
    ForwardPedal,
    Backpedal,
    TurnIn,
    TurnOut,
    TurnBackout,
    StrafeLeft,
    StrafeRight,
    ClimbUpInit,
    ClimbUpLoop,
    ClimbUpEnd1,
    ClimbUpEnd2,
    ClimbDownInit1,
    ClimbDownInit2,
    ClimbDownLoop,
    ClimbDownEnd,
    Fall,
    NoCanDo,
    SurpriseChasm,
    PivotIn,
    PivotOut,
    Fixed,
}

/// A change in progress: which entity, of what kind, in which direction,
/// how much of it remains and at what speed.
#[derive(Clone, Copy, Debug, PartialEq, Eq)]
pub struct Movement {
    pub target_id: i32,
    pub kind: MovementKind,
    pub direction: Direction,
    pub torsion: i32,
    pub remaining: Fraction,
    pub speed: i32,
    pub from: Direction,
    pub to: Direction,
    pub animation: Animation,
    pub left: bool,
    pub tower_level: i32,
    pub pure_direct_force: bool,
}

/// The number of ticks a move at `speed` lasts, as the engine computes it:
/// `1 << (speed - 1)` in 32 bits, so speed 32 gives `i32::MIN`.
pub open spec fn ticks(speed: int) -> int {
    if speed == 32 {
        i32::MIN as int
    } else {
        pow2((speed - 1) as nat) as int
    }
}

/// The time a whole move at `speed` takes: `1 / ticks(speed)`.
pub open spec fn duration_spec(speed: int) -> Fraction {
    new_spec(1, ticks(speed))
}

pub open spec fn speed_ok(speed: int) -> bool {
    1 <= speed <= 32
}

proof fn lemma_gcd_one(m: nat)
    requires
        m >= 1,
    ensures
        gcd_spec(1, m) == 1,
{
    if m == 1 {
        assert(euclid(1, 0) == 1);
        assert(euclid(1, 1) == euclid(1, 0));
    } else {
        assert(1nat % m == 1) by (nonlinear_arith)
            requires
                m > 1,
        ;
        assert(m % 1nat == 0) by (nonlinear_arith);
        assert(euclid(1, 0) == 1);
        assert(euclid(m, 1) == euclid(1, 0));
        assert(euclid(1, m) == euclid(m, 1));
    }
}

/// A whole move at speed `s` lasts `1 / 2^(s - 1)`; at speed 32 the 32-bit
/// tick count wraps and the fraction is `-1 / 2^31`.
pub proof fn lemma_duration_value(speed: int)
    requires
        speed_ok(speed),
    ensures
        speed < 32 ==> duration_spec(speed) == (Fraction {
            numerator: 1,
            denominator: pow2((speed - 1) as nat) as i64,
        }),
        speed == 32 ==> duration_spec(speed) == (Fraction {
            numerator: -1i64,
            denominator: 0x8000_0000,
        }),
{
    if speed < 32 {
        let m = pow2((speed - 1) as nat);
        lemma_u32_pow2_no_overflow((speed - 1) as nat);
        vstd::arithmetic::power2::lemma_pow2_pos((speed - 1) as nat);
        lemma_gcd_one(m);
        assert(ticks(speed) == m);
        assert(abs(1) == 1);
        assert(trunc_div(1, 1) == 1);
        assert(m as int / 1 == m);
    } else {
        lemma_gcd_one(0x8000_0000);
        assert(ticks(32) == -0x8000_0000);
        assert(abs(-1) == 1);
        assert(gcd_spec(abs(-1), 0x8000_0000nat) == 1);
        assert(trunc_div(-1, 1) == -1);
        assert(0x8000_0000int / 1 == 0x8000_0000);
    }
}

pub(crate) fn tick_count(speed: i32) -> (r: i32)
    requires
        speed_ok(speed as int),
    ensures
        r == ticks(speed as int),
{
    let shift: u32 = (speed - 1) as u32;
    proof {
        lemma_u32_pow2_no_overflow(shift as nat);
        lemma_u32_shl_is_mul(1, shift);
    }
    let wide: u32 = 1u32 << shift;
    assert(wide == 0x8000_0000u32 ==> wide as i32 == -0x8000_0000i32) by (bit_vector);
    proof {
        vstd::arithmetic::power2::lemma2_to64();
        if shift < 31 {
            vstd::arithmetic::power2::lemma_pow2_strictly_increases(shift as nat, 31);
            assert(wide < 0x8000_0000u32);
        }
    }
    wide as i32
}

/// The time a whole move at `speed` takes.
fn duration(speed: i32) -> (r: Fraction)
    requires
        speed_ok(speed as int),
    ensures
        r == duration_spec(speed as int),
{
    let t = tick_count(speed);
    proof {
        if speed < 32 {
            lemma_u32_pow2_no_overflow((speed - 1) as nat);
        }
    }
    Fraction::new(1, t as i64)
}

/// How far through its move the entity is: `1 - remaining * speed`.
pub open spec fn position_spec(m: Movement) -> Fraction {
    new_spec(
        m.remaining.denominator - m.remaining.numerator * m.speed,
        m.remaining.denominator as int,
    )
}

pub open spec fn position_ok(m: Movement) -> bool {
    &&& i64::MIN <= m.remaining.numerator * m.speed <= i64::MAX
    &&& i64::MIN <= m.remaining.denominator - m.remaining.numerator * m.speed <= i64::MAX
    &&& new_ok(
        m.remaining.denominator - m.remaining.numerator * m.speed,
        m.remaining.denominator as int,
    )
}

/// The direction a movement carries its entity towards.
pub open spec fn effective_direction_spec(m: Movement) -> Direction {
    match m.kind {
        MovementKind::NoMovement => Direction::NoDirection,
        MovementKind::Rotation => continue_rotation_spec(m.from, m.to),
        _ => m.direction,
    }
}

/// The entity once the movement has taken effect.
pub open spec fn resolved(e: Entity, m: Movement) -> Entity {
    match m.kind {
        MovementKind::NoMovement => e,
        MovementKind::Translation => Entity { pos: coord_step(e.pos, m.direction), ..e },
        MovementKind::Rotation => Entity { direction: m.to, ..e },
        MovementKind::Pivot => Entity { pos: coord_step(e.pos, m.direction), direction: m.to, ..e },
    }
}

pub open spec fn resolve_ok(e: Entity, m: Movement) -> bool {
    (m.kind == MovementKind::Translation || m.kind == MovementKind::Pivot) ==> step_fits(
        e.pos,
        m.direction,
    )
}

impl Movement {
    /// A step of `target` in `direction`; the torsion is dropped when the
    /// step runs along the target's own axis.
    pub fn translation(
        target: &Entity,
        direction: Direction,
        torsion: i32,
        speed: i32,
        animation: Animation,
        left: bool,
        tower_level: i32,
    ) -> (r: Movement)
        requires
            speed_ok(speed as int),
        ensures
            r == (Movement {
                target_id: target.id,
                kind: MovementKind::Translation,
                direction,
                torsion: if parallel_spec(direction, target.direction) {
                    0
                } else {
                    torsion
                },
                remaining: duration_spec(speed as int),
                speed,
                from: Direction::NoDirection,
                to: Direction::NoDirection,
                animation,
                left,
                tower_level,
                pure_direct_force: false,
            }),
    {
        Movement {
            target_id: target.id,
            kind: MovementKind::Translation,
            direction,
            torsion: if direction.parallel_to(target.direction) {
                0
            } else {
                torsion
            },
            remaining: duration(speed),
            speed,
            from: Direction::NoDirection,
            to: Direction::NoDirection,
            animation,
            left,
            tower_level,
            pure_direct_force: false,
        }
    }

    /// A turn of `target` in place from one direction to another.
    pub fn rotation(target: &Entity, from: Direction, to: Direction, animation: Animation, speed: i32) -> (r:
        Movement)
        requires
            speed_ok(speed as int),
        ensures
            r == (Movement {
                target_id: target.id,
                kind: MovementKind::Rotation,
                direction: Direction::NoDirection,
                torsion: 0,
                remaining: duration_spec(speed as int),
                speed,
                from,
                to,
                animation,
                left: left_of_spec(to, from),
                tower_level: -1i32,
                pure_direct_force: false,
            }),
    {
        Movement {
            target_id: target.id,
            kind: MovementKind::Rotation,
            direction: Direction::NoDirection,
            torsion: 0,
            remaining: duration(speed),
            speed,
            from,
            to,
            animation,
            left: to.left_of(from),
            tower_level: -1,
            pure_direct_force: false,
        }
    }

    /// A step of `target` in `direction` while it turns from one direction
    /// to another.
    pub fn pivot(
        target: &Entity,
        direction: Direction,
        from: Direction,
        to: Direction,
        animation: Animation,
        speed: i32,
    ) -> (r: Movement)
        requires
            speed_ok(speed as int),
        ensures
            r == (Movement {
                target_id: target.id,
                kind: MovementKind::Pivot,
                direction,
                torsion: 0,
                remaining: duration_spec(speed as int),
                speed,
                from,
                to,
                animation,
                left: left_of_spec(to, from),
                tower_level: -1i32,
                pure_direct_force: false,
            }),
    {
        Movement {
            target_id: target.id,
            kind: MovementKind::Pivot,
            direction,
            torsion: 0,
            remaining: duration(speed),
            speed,
            from,
            to,
            animation,
            left: to.left_of(from),
            tower_level: -1,
            pure_direct_force: false,
        }
    }

    /// A wait of `target` in place.
    pub fn fixed(target: &Entity, speed: i32) -> (r: Movement)
        requires
            speed_ok(speed as int),
        ensures
            r == (Movement {
                target_id: target.id,
                kind: MovementKind::NoMovement,
                direction: Direction::NoDirection,
                torsion: 0,
                remaining: duration_spec(speed as int),
                speed,
                from: Direction::NoDirection,
                to: Direction::NoDirection,
                animation: Animation::Fixed,
                left: false,
                tower_level: -1i32,
                pure_direct_force: false,
            }),
    {
        Movement {
            target_id: target.id,
            kind: MovementKind::NoMovement,
            direction: Direction::NoDirection,
            torsion: 0,
            remaining: duration(speed),
            speed,
            from: Direction::NoDirection,
            to: Direction::NoDirection,
            animation: Animation::Fixed,
            left: false,
            tower_level: -1,
            pure_direct_force: false,
        }
    }

    /// Restarts the movement at a new speed.
    pub fn set_speed(&mut self, speed: i32)
        requires
            speed_ok(speed as int),
        ensures
            *final(self) == (Movement { speed, remaining: duration_spec(speed as int), ..*old(self) }),
    {
        self.speed = speed;
        self.remaining = duration(speed);
    }

    /// Lets `elapsed` time pass.
    pub fn tick(&mut self, elapsed: Fraction)
        requires
            sub_ok(old(self).remaining, elapsed),
        ensures
            *final(self) == (Movement {
                remaining: sub_spec(old(self).remaining, elapsed),
                ..*old(self)
            }),
    {
        self.remaining = self.remaining.minus(elapsed);
    }

    /// No time remains.
    pub fn done(self) -> (r: bool)
        ensures
            r == same_value(self.remaining, zero_frac()),
            r == (self.remaining.numerator == 0),
    {
        self.remaining.same(Fraction::zero())
    }

    /// The whole duration remains: `remaining * ticks(speed) == 1`.
    pub fn starting(self) -> (r: bool)
        requires
            speed_ok(self.speed as int),
            i64::MIN <= self.remaining.numerator * ticks(self.speed as int) <= i64::MAX,
        ensures
            r == (self.remaining.numerator * ticks(self.speed as int) == self.remaining.denominator),
    {
        let t = tick_count(self.speed) as i64;
        self.remaining.numerator * t == self.remaining.denominator
    }

    /// See [`effective_direction_spec`].
    pub fn effective_direction(self) -> (r: Direction)
        ensures
            r == effective_direction_spec(self),
    {
        match self.kind {
            MovementKind::NoMovement => Direction::NoDirection,
            MovementKind::Rotation => Direction::continue_rotation(self.from, self.to),
            MovementKind::Translation | MovementKind::Pivot => self.direction,
        }
    }

    /// How far through the move the entity is; see [`position_spec`].
    pub fn position(self) -> (r: Fraction)
        requires
            position_ok(self),
        ensures
            r == position_spec(self),
    {
        Fraction::new(
            self.remaining.denominator - self.remaining.numerator * (self.speed as i64),
            self.remaining.denominator,
        )
    }

    /// Applies the movement to its entity; see [`resolved`].
    pub fn resolve(self, target: &mut Entity)
        requires
            self.target_id == old(target).id,
            resolve_ok(*old(target), self),
        ensures
            *final(target) == resolved(*old(target), self),
    {
        match self.kind {
            MovementKind::NoMovement => {},
            MovementKind::Translation => {
                target.pos = target.pos.step(self.direction);
            },
            MovementKind::Rotation => {
                target.direction = self.to;
            },
            MovementKind::Pivot => {
                target.pos = target.pos.step(self.direction);
                target.direction = self.to;
            },
        }
    }
}

/// Turning a movement's target flips its rolling parity unless it is pushed
/// along its own axis.
pub open spec fn rotation_flips(e: Entity, force: Direction) -> bool {
    e.direction == Direction::NoDirection || !parallel_spec(force, e.direction)
}

/// Flips the entity's rolling parity when a force turns it; see
/// [`rotation_flips`].
pub fn try_rotate(entity: &mut Entity, force_direction: Direction)
    requires
        rotation_flips(*old(entity), force_direction) ==> old(entity).rotation > i32::MIN + 1,
    ensures
        rotation_flips(*old(entity), force_direction) ==> *final(entity) == (Entity {
            rotation: (1 - old(entity).rotation) as i32,
            ..*old(entity)
        }),
        !rotation_flips(*old(entity), force_direction) ==> *final(entity) == *old(entity),
{
    if !entity.direction.is_valid() || !force_direction.parallel_to(entity.direction) {
        entity.rotation = 1 - entity.rotation;
    }
}

/// Only sausages roll.
pub fn can_roll(entity_type: EntityType) -> (r: bool)
    ensures
        r == (entity_type == EntityType::Sausage),
{
    entity_type == EntityType::Sausage
}


/// A claim of a moving entity.
pub open spec fn claim(pos: Coord, direction: Direction, entering: bool, position: Fraction, speed: int) -> Occupancy {
    Occupancy { pos, direction, entering, position, speed: speed as i32 }
}

/// The claim of an entity that stays put.
pub open spec fn still_claim(pos: Coord) -> Occupancy {
    claim(pos, Direction::NoDirection, true, zero_frac(), 0)
}

/// `c` doubled, component-wise.
pub open spec fn coord_twice(c: Coord) -> Coord {
    Coord { x: (c.x * 2) as i32, y: (c.y * 2) as i32, z: (c.z * 2) as i32 }
}

/// The direction in which the far end of a turning two-cell entity sweeps.
pub open spec fn arc_direction(m: Movement) -> Direction {
    if is_orthogonal_spec(m.from) {
        continue_rotation_spec(m.from, m.to)
    } else {
        continue_rotation_spec(m.to, continue_rotation_spec(m.from, m.to))
    }
}

/// A translation leaves each occupied cell and enters its neighbour.
pub open spec fn translation_claims(cells: Seq<Coord>, m: Movement, p: Fraction) -> Seq<Occupancy> {
    Seq::new(
        2 * cells.len(),
        |i: int|
            if i % 2 == 0 {
                claim(cells[i / 2], m.direction, false, p, m.speed as int)
            } else {
                claim(coord_step(cells[i / 2], m.direction), m.direction, true, p, m.speed as int)
            },
    )
}

/// A two-cell entity turning in place keeps its anchor, leaves the cell it
/// pointed to and enters the one it will point to.
pub open spec fn rotation_claims(e: Entity, m: Movement, p: Fraction) -> Seq<Occupancy> {
    seq![
        claim(e.pos, Direction::NoDirection, false, p, m.speed as int),
        claim(coord_step(e.pos, m.from), arc_direction(m), false, p, m.speed as int),
        claim(coord_step(e.pos, m.to), arc_direction(m), true, p, m.speed as int),
    ]
}

/// The cells a two-cell entity sweeps while it steps and turns at once,
/// by the shape of the turn.
pub open spec fn pivot_claims(e: Entity, m: Movement, p: Fraction) -> Seq<Occupancy> {
    let s = m.speed as int;
    let dir = m.direction;
    if m.animation == Animation::TurnIn {
        if m.from == dir {
            seq![
                still_claim(coord_step(e.pos, dir)),
                claim(e.pos, inverse_spec(dir), false, p, s),
                claim(coord_step(coord_step(e.pos, dir), m.to), dir, true, p, s),
            ]
        } else if m.from == inverse_spec(dir) {
            let turn = continue_rotation_spec(m.from, m.to);
            seq![
                claim(e.pos, turn, false, p, s),
                claim(coord_step(e.pos, m.from), dir, false, p, s),
                claim(coord_step(e.pos, turn), dir, true, p, s),
                claim(coord_step(e.pos, dir), dir, true, p, s),
            ]
        } else if rotation_between_spec(m.from, dir) == Some(m.to) {
            seq![
                claim(e.pos, dir, false, p, s),
                claim(coord_step(e.pos, dir), dir, true, p, s),
                claim(coord_step(e.pos, m.to), m.from, true, p, s + 1),
                claim(coord_step(coord_step(e.pos, m.to), dir), dir, true, p, s),
            ]
        } else {
            seq![
                still_claim(coord_step(e.pos, e.direction)),
                claim(e.pos, dir, false, p, s),
                claim(coord_step(e.pos, dir), dir, true, p, s),
            ]
        }
    } else if m.to == dir {
        let turn = inverse_spec(continue_rotation_spec(m.to, m.from));
        let back = coord_diff(e.pos, delta_spec(turn));
        seq![
            claim(e.pos, dir, false, p, s),
            claim(coord_step(e.pos, dir), turn, true, p, s),
            claim(coord_sum(e.pos, coord_twice(delta_spec(dir))), dir, true, p, s),
            claim(coord_sum(back, delta_spec(dir)), dir, false, p, s),
            claim(coord_sum(back, coord_twice(delta_spec(dir))), turn, false, p, s),
        ]
    } else if m.to == inverse_spec(dir) {
        seq![
            still_claim(e.pos),
            claim(coord_step(e.pos, dir), dir, true, p, s),
            claim(coord_step(e.pos, m.from), dir, false, p, s),
        ]
    } else if continue_rotation_spec(m.to, m.from) == dir {
        seq![
            still_claim(coord_step(e.pos, e.direction)),
            claim(e.pos, dir, false, p, s),
            claim(coord_step(e.pos, dir), dir, true, p, s),
        ]
    } else {
        seq![
            claim(e.pos, dir, false, p, s),
            claim(coord_step(e.pos, m.to), m.to, true, p, s + 1),
            claim(coord_step(e.pos, dir), dir, true, p, s),
            claim(coord_step(coord_step(e.pos, dir), m.to), dir, true, p, s),
        ]
    }
}

/// The claims of a movement that changes something.
pub open spec fn moving_claims(e: Entity, m: Movement, cells: Seq<Coord>) -> Seq<Occupancy> {
    let p = position_spec(m);
    match m.kind {
        MovementKind::Translation => translation_claims(cells, m, p),
        MovementKind::Rotation => if cells.len() == 2 {
            rotation_claims(e, m, p)
        } else {
            seq![still_claim(e.pos)]
        },
        MovementKind::Pivot => if cells.len() == 2 {
            pivot_claims(e, m, p)
        } else {
            seq![still_claim(e.pos)]
        },
        MovementKind::NoMovement => seq![still_claim(e.pos)],
    }
}

/// Every claim an entity makes on the grid, given its movement if any.
pub open spec fn claims_spec(e: Entity, movement: Option<Movement>, player_has_fork: bool) -> Seq<
    Occupancy,
> {
    let cells = footprint_spec(e, player_has_fork);
    match movement {
        Some(m) => if m.kind == MovementKind::NoMovement {
            cells.map_values(|c: Coord| still_claim(c))
        } else {
            moving_claims(e, m, cells)
        },
        None => cells.map_values(|c: Coord| still_claim(c)),
    }
}

/// `c` lies at least `margin` cells inside the 32-bit grid.
pub open spec fn within(c: Coord, margin: int) -> bool {
    &&& i32::MIN + margin <= c.x <= i32::MAX - margin
    &&& i32::MIN + margin <= c.y <= i32::MAX - margin
    &&& i32::MIN + margin <= c.z <= i32::MAX - margin
}

/// What `occupancy_for` computes is free of overflow: the entity's cells
/// fit, and a moving entity stays three cells inside the grid with a
/// position that can be computed.
pub open spec fn claims_ok(e: Entity, movement: Option<Movement>, player_has_fork: bool) -> bool {
    &&& footprint_fits(e, player_has_fork)
    &&& match movement {
        Some(m) => m.kind != MovementKind::NoMovement ==> {
            &&& position_ok(m)
            &&& within(e.pos, 3)
            &&& m.kind == MovementKind::Pivot ==> m.speed < i32::MAX
        },
        None => true,
    }
}

/// Each component of a direction's step is -1, 0 or 1.
pub proof fn lemma_delta_bounds(d: Direction)
    ensures
        -1 <= delta_spec(d).x <= 1,
        -1 <= delta_spec(d).y <= 1,
        -1 <= delta_spec(d).z <= 1,
{
}

proof fn lemma_step_within(c: Coord, d: Direction, margin: int)
    requires
        within(c, margin),
        margin >= 1,
    ensures
        step_fits(c, d),
        within(coord_step(c, d), margin - 1),
{
    lemma_delta_bounds(d);
}

/// Every claim an entity makes on the grid; see [`claims_spec`].
pub fn occupancy_for(entity: &Entity, movement: Option<Movement>, player_has_fork: bool) -> (r: Vec<
    Occupancy,
>)
    requires
        claims_ok(*entity, movement, player_has_fork),
    ensures
        r@ == claims_spec(*entity, movement, player_has_fork),
{
    let footprint = entity.footprint(player_has_fork);
    let m = match movement {
        Some(m) => m,
        None => {
            return still_claims(&footprint);
        },
    };
    if m.kind == MovementKind::NoMovement {
        return still_claims(&footprint);
    }
    let position = m.position();
    proof {
        lemma_step_within(entity.pos, m.direction, 3);
        lemma_step_within(entity.pos, entity.direction, 3);
    }
    match m.kind {
        MovementKind::Translation => {
            let mut out: Vec<Occupancy> = Vec::new();
            let mut i: usize = 0;
            while i < footprint.len()
                invariant
                    footprint@ == footprint_spec(*entity, player_has_fork),
                    footprint@.len() <= 2,
                    within(entity.pos, 3),
                    footprint@.len() == 2 ==> footprint@[1] == coord_step(entity.pos, entity.direction),
                    footprint@[0] == entity.pos,
                    i <= footprint@.len(),
                    out@ == translation_claims(footprint@.take(i as int), m, position),
                decreases footprint@.len() - i,
            {
                let cell = footprint[i];
                proof {
                    lemma_step_within(entity.pos, entity.direction, 3);
                    lemma_step_within(coord_step(entity.pos, entity.direction), m.direction, 2);
                    lemma_step_within(entity.pos, m.direction, 3);
                }
                out.push(Occupancy::new(cell, m.direction, false, position, m.speed));
                out.push(Occupancy::new(cell.step(m.direction), m.direction, true, position, m.speed));
                assert(out@ =~= translation_claims(footprint@.take(i + 1), m, position));
                i += 1;
            }
            assert(footprint@.take(i as int) =~= footprint@);
            out
        },
        MovementKind::Rotation => {
            let mut out: Vec<Occupancy> = Vec::new();
            if footprint.len() == 2 {
                proof {
                    lemma_step_within(entity.pos, m.from, 3);
                    lemma_step_within(entity.pos, m.to, 3);
                }
                let arc = if m.from.is_orthogonal() {
                    Direction::continue_rotation(m.from, m.to)
                } else {
                    Direction::continue_rotation(m.to, Direction::continue_rotation(m.from, m.to))
                };
                out.push(Occupancy::new(entity.pos, Direction::NoDirection, false, position, m.speed));
                out.push(Occupancy::new(entity.pos.step(m.from), arc, false, position, m.speed));
                out.push(Occupancy::new(entity.pos.step(m.to), arc, true, position, m.speed));
            } else {
                out.push(Occupancy::new(entity.pos, Direction::NoDirection, true, Fraction::zero(), 0));
            }
            assert(out@ =~= claims_spec(*entity, movement, player_has_fork));
            out
        },
        MovementKind::Pivot => {
            if footprint.len() == 2 {
                pivot_occupancy(entity, m, position)
            } else {
                let mut out: Vec<Occupancy> = Vec::new();
                out.push(Occupancy::new(entity.pos, Direction::NoDirection, true, Fraction::zero(), 0));
                assert(out@ =~= claims_spec(*entity, movement, player_has_fork));
                out
            }
        },
        MovementKind::NoMovement => {
            let mut out: Vec<Occupancy> = Vec::new();
            out.push(Occupancy::new(entity.pos, Direction::NoDirection, true, Fraction::zero(), 0));
            assert(out@ =~= claims_spec(*entity, movement, player_has_fork));
            out
        },
    }
}

/// Claims of an entity standing on each of the cells.
fn still_claims(cells: &Vec<Coord>) -> (r: Vec<Occupancy>)
    ensures
        r@ == cells@.map_values(|c: Coord| still_claim(c)),
{
    let mut out: Vec<Occupancy> = Vec::new();
    let mut i: usize = 0;
    while i < cells.len()
        invariant
            i <= cells@.len(),
            out@ == cells@.take(i as int).map_values(|c: Coord| still_claim(c)),
        decreases cells@.len() - i,
    {
        out.push(Occupancy::new(cells[i], Direction::NoDirection, true, Fraction::zero(), 0));
        assert(out@ =~= cells@.take(i + 1).map_values(|c: Coord| still_claim(c)));
        i += 1;
    }
    assert(cells@.take(i as int) =~= cells@);
    out
}

/// The claims of a two-cell entity that steps and turns at once; see
/// [`pivot_claims`].
fn pivot_occupancy(entity: &Entity, movement: Movement, position: Fraction) -> (r: Vec<Occupancy>)
    requires
        within(entity.pos, 3),
        movement.speed < i32::MAX,
    ensures
        r@ == pivot_claims(*entity, movement, position),
{
    let m = movement;
    let dir = m.direction;
    let s = m.speed;
    let pos = entity.pos;
    proof {
        lemma_step_within(pos, dir, 3);
        lemma_step_within(pos, m.to, 3);
        lemma_step_within(pos, m.from, 3);
        lemma_step_within(pos, entity.direction, 3);
        lemma_step_within(coord_step(pos, dir), m.to, 2);
        lemma_step_within(coord_step(pos, m.to), dir, 2);
    }
    let mut out: Vec<Occupancy> = Vec::new();
    if m.animation == Animation::TurnIn {
        if m.from == dir {
            out.push(Occupancy::new(pos.step(dir), Direction::NoDirection, true, Fraction::zero(), 0));
            out.push(Occupancy::new(pos, dir.inverse(), false, position, s));
            out.push(Occupancy::new(pos.step(dir).step(m.to), dir, true, position, s));
        } else if m.from == dir.inverse() {
            let turn = Direction::continue_rotation(m.from, m.to);
            proof {
                lemma_step_within(pos, turn, 3);
            }
            out.push(Occupancy::new(pos, turn, false, position, s));
            out.push(Occupancy::new(pos.step(m.from), dir, false, position, s));
            out.push(Occupancy::new(pos.step(turn), dir, true, position, s));
            out.push(Occupancy::new(pos.step(dir), dir, true, position, s));
        } else if Direction::rotation_between(m.from, dir) == Some(m.to) {
            out.push(Occupancy::new(pos, dir, false, position, s));
            out.push(Occupancy::new(pos.step(dir), dir, true, position, s));
            out.push(Occupancy::new(pos.step(m.to), m.from, true, position, s + 1));
            out.push(Occupancy::new(pos.step(m.to).step(dir), dir, true, position, s));
        } else {
            out.push(
                Occupancy::new(pos.step(entity.direction), Direction::NoDirection, true, Fraction::zero(), 0),
            );
            out.push(Occupancy::new(pos, dir, false, position, s));
            out.push(Occupancy::new(pos.step(dir), dir, true, position, s));
        }
    } else if m.to == dir {
        let turn = Direction::continue_rotation(m.to, m.from).inverse();
        proof {
            lemma_delta_bounds(turn);
            lemma_delta_bounds(dir);
        }
        let twice = dir.delta().scale(2);
        let back = pos.minus(turn.delta());
        out.push(Occupancy::new(pos, dir, false, position, s));
        out.push(Occupancy::new(pos.step(dir), turn, true, position, s));
        out.push(Occupancy::new(pos.plus(twice), dir, true, position, s));
        out.push(Occupancy::new(back.plus(dir.delta()), dir, false, position, s));
        out.push(Occupancy::new(back.plus(twice), turn, false, position, s));
    } else if m.to == dir.inverse() {
        out.push(Occupancy::new(pos, Direction::NoDirection, true, Fraction::zero(), 0));
        out.push(Occupancy::new(pos.step(dir), dir, true, position, s));
        out.push(Occupancy::new(pos.step(m.from), dir, false, position, s));
    } else if Direction::continue_rotation(m.to, m.from) == dir {
        out.push(
            Occupancy::new(pos.step(entity.direction), Direction::NoDirection, true, Fraction::zero(), 0),
        );
        out.push(Occupancy::new(pos, dir, false, position, s));
        out.push(Occupancy::new(pos.step(dir), dir, true, position, s));
    } else {
        out.push(Occupancy::new(pos, dir, false, position, s));
        out.push(Occupancy::new(pos.step(m.to), m.to, true, position, s + 1));
        out.push(Occupancy::new(pos.step(dir), dir, true, position, s));
        out.push(Occupancy::new(pos.step(dir).step(m.to), dir, true, position, s));
    }
    assert(out@ =~= pivot_claims(*entity, movement, position));
    out
}

/// Euclid's result divides both arguments; the factors are returned.
proof fn lemma_euclid_divides(a: nat, b: nat) -> (factors: (int, int))
    ensures
        a == euclid(a, b) * factors.0,
        b == euclid(a, b) * factors.1,
    decreases b,
{
    if b == 0 {
        assert(a == euclid(a, b) * 1);
        (1, 0)
    } else {
        let g = euclid(a, b);
        let (k1, k2) = lemma_euclid_divides(b, a % b);
        vstd::arithmetic::div_mod::lemma_fundamental_div_mod(a as int, b as int);
        let q = (a / b) as int;
        assert(a == g * (k1 * q + k2)) by (nonlinear_arith)
            requires
                b == g * k1,
                (a % b) as int == g * k2,
                a == b * q + (a % b) as int,
        ;
        (k1 * q + k2, k1)
    }
}

/// Reducing a fraction keeps its value.
pub proof fn law_new_keeps_value(numerator: int, denominator: int)
    requires
        new_ok(numerator, denominator),
    ensures
        same_value(new_spec(numerator, denominator), Fraction {
            numerator: numerator as i64,
            denominator: denominator as i64,
        }),
        new_spec(numerator, denominator).denominator > 0,
{
    let n = if denominator < 0 {
        -numerator
    } else {
        numerator
    };
    let d = if denominator < 0 {
        -denominator
    } else {
        denominator
    };
    let r = new_spec(numerator, denominator);
    if d > 10000 {
        let a = abs(n);
        let (g, kn, kd) = if a > d as nat {
            let (x, y) = lemma_euclid_divides(d as nat, a);
            (euclid(d as nat, a) as int, y, x)
        } else {
            let (x, y) = lemma_euclid_divides(a, d as nat);
            (euclid(a, d as nat) as int, x, y)
        };
        lemma_gcd_fits(a, d as nat);
        assert(g >= 1) by (nonlinear_arith)
            requires
                d == g * kd,
                d > 0,
                g >= 0,
        ;
        assert(gcd_spec(a, d as nat) == g);
        assert(kd > 0) by (nonlinear_arith)
            requires
                d == g * kd,
                d > 0,
                g >= 1,
        ;
        vstd::arithmetic::div_mod::lemma_div_multiples_vanish(kd, g);
        vstd::arithmetic::div_mod::lemma_div_multiples_vanish(kn, g);
        assert(d / g == kd) by {
            assert(g * kd == d);
        }
        if n >= 0 {
            assert(n == g * kn);
            assert(trunc_div(n, g) == kn);
        } else {
            assert(-n == g * kn);
            assert(trunc_div(n, g) == -kn);
        }
        assert(r.denominator == kd);
        assert(n * kd == trunc_div(n, g) * d) by (nonlinear_arith)
            requires
                d == g * kd,
                n >= 0 ==> (n == g * kn && trunc_div(n, g) == kn),
                n < 0 ==> (-n == g * kn && trunc_div(n, g) == -kn),
        ;
        assert(r.numerator == trunc_div(n, g));
        assert(r.numerator * denominator == numerator * r.denominator) by (nonlinear_arith)
            requires
                n * kd == r.numerator * d,
                r.denominator == kd,
                denominator < 0 ==> n == -numerator && d == -denominator,
                denominator >= 0 ==> n == numerator && d == denominator,
        ;
    } else {
        assert(r.numerator * denominator == numerator * r.denominator) by (nonlinear_arith)
            requires
                r.numerator == n,
                r.denominator == d,
                denominator < 0 ==> n == -numerator && d == -denominator,
                denominator >= 0 ==> n == numerator && d == denominator,
        ;
    }
}

/// A movement that has just been created has its whole duration ahead.
pub proof fn law_fresh_movement_is_starting(speed: int)
    requires
        speed_ok(speed),
    ensures
        duration_spec(speed).numerator * ticks(speed) == duration_spec(speed).denominator,
{
    lemma_duration_value(speed);
    if speed < 32 {
        lemma_u32_pow2_no_overflow((speed - 1) as nat);
    }
}

/// Letting a movement's whole remaining time pass finishes it.
pub proof fn law_ticking_the_rest_finishes(m: Movement)
    requires
        sub_ok(m.remaining, m.remaining),
    ensures
        sub_spec(m.remaining, m.remaining).numerator == 0,
{
    let r = m.remaining;
    assert(r.numerator * r.denominator - r.numerator * r.denominator == 0);
    let d = r.denominator * r.denominator;
    if d < 0 {
        assert(-0int == 0);
    }
}

/// Whether two claims can coexist does not depend on their order.
pub proof fn law_compatibility_is_symmetric(a: Occupancy, b: Occupancy)
    ensures
        compatible_spec(a, b) == compatible_spec(b, a),
{
}

/// A claim of an entity that stays put excludes every other claim on its
/// cell.
pub proof fn law_static_claims_exclude(a: Occupancy, b: Occupancy)
    requires
        a.pos == b.pos,
        a.speed == 0 || b.speed == 0,
    ensures
        !compatible_spec(a, b),
{
}

/// The exact product of two 64-bit integers.
pub(crate) fn wide_product(a: i64, b: i64) -> (r: i128)
    ensures
        r == a * b,
{
    proof {
        assert(-0x8000_0000_0000_0000int * 0x8000_0000_0000_0000int <= a * b <= 0x8000_0000_0000_0000int
            * 0x8000_0000_0000_0000int) by (nonlinear_arith)
            requires
                -0x8000_0000_0000_0000int <= a <= 0x7fff_ffff_ffff_ffffint,
                -0x8000_0000_0000_0000int <= b <= 0x7fff_ffff_ffff_ffffint,
        ;
    }
    (a as i128) * (b as i128)
}

/// Whether a fraction with these parts can be made; see [`new_ok`].
fn parts_fit(numerator: i128, denominator: i128) -> (r: bool)
    ensures
        r == new_ok(numerator as int, denominator as int),
{
    denominator != 0 && i64::MIN as i128 <= numerator && numerator <= i64::MAX as i128 && i64::MIN as i128
        <= denominator && denominator <= i64::MAX as i128 && (denominator >= 0 || (numerator != i64::MIN as i128
        && denominator != i64::MIN as i128))
}

/// Whether the time a claim needs to clear its cell can be computed; see
/// [`leave_ok`].
pub fn leave_fits(o: Occupancy) -> (r: bool)
    ensures
        r == leave_ok(o),
{
    let p = o.position;
    let rest: i128 = p.denominator as i128 - p.numerator as i128;
    if !parts_fit(rest, p.denominator as i128) {
        return false;
    }
    let left = Fraction::new(rest as i64, p.denominator);
    assert(left == sub_spec(one_frac(), p));
    let scaled = wide_product(left.denominator, o.speed as i64);
    parts_fit(left.numerator as i128, scaled)
}

/// Whether two claims can be compared without overflow; see
/// [`compatible_ok`].
pub fn comparable(a: Occupancy, b: Occupancy) -> (r: bool)
    ensures
        r == compatible_ok(a, b),
{
    if a.pos != b.pos || a.speed == 0 || b.speed == 0 || a.direction != b.direction || a.entering == b.entering {
        return true;
    }
    let (leaving, entering) = if a.entering {
        (b, a)
    } else {
        (a, b)
    };
    let lhs = wide_product(leaving.position.numerator, entering.position.denominator);
    let rhs = wide_product(entering.position.numerator, leaving.position.denominator);
    if lhs < rhs {
        return true;
    }
    leave_fits(a) && leave_fits(b)
}

/// Whether a movement's position can be computed and a pivot's second
/// speed fits, as [`motions_ok`](crate::sausage::world::motions_ok) asks
/// of every movement.
pub fn motion_fits(m: Movement) -> (r: bool)
    ensures
        r == (position_ok(m) && (m.kind == MovementKind::Pivot ==> m.speed < i32::MAX)),
{
    let moved = wide_product(m.remaining.numerator, m.speed as i64);
    if moved < i64::MIN as i128 || moved > i64::MAX as i128 {
        return false;
    }
    let rest: i128 = m.remaining.denominator as i128 - moved;
    if !parts_fit(rest, m.remaining.denominator as i128) {
        return false;
    }
    match m.kind {
        MovementKind::Pivot => m.speed < i32::MAX,
        _ => true,
    }
}

} // verus!
