use vstd::prelude::*;

verus! {

/// Ticks per unit of length.
pub const SCALE: i64 = 1000;
/// Half the container's width, in ticks.
pub const HALF_WIDTH: i64 = 640_000;
/// Half the container's height, in ticks.
pub const HALF_HEIGHT: i64 = 340_000;
/// Nominal diameter of a spawned ball, in ticks.
pub const BALL_SIZE: i64 = 10_000;
/// Downward acceleration, in ticks per second squared.
pub const GRAVITY: i64 = 98_000;
/// Elasticity of 1, in thousandths.
pub const ELASTICITY_ONE: i64 = 1000;
/// Elasticity given to spawned balls, in thousandths.
pub const SPAWN_ELASTICITY: i64 = 300;
/// Largest radius a ball may have: it still fits the container.
pub const MAX_RADIUS: i64 = 340_000;
/// Positions are held within plus or minus this many ticks.
pub const POSITION_LIMIT: i64 = 1_000_000_000_000;
/// Velocities are held within plus or minus this many ticks per second.
pub const VELOCITY_LIMIT: i64 = 1_000_000_000_000;
/// The pressure statistic saturates at this value.
pub const PRESSURE_LIMIT: i64 = 1_000_000_000_000_000_000;

/// A 2D vector of ticks (or ticks per second).
#[derive(Clone, Copy, Debug, PartialEq, Eq, Structural)]
pub struct Vector2 {
    pub x: i64,
    pub y: i64,
}

/// A circular body.
#[derive(Clone, Copy, Debug, PartialEq, Eq, Structural)]
pub struct Ball {
    /// Radius, in ticks.
    pub size: i64,
    pub pos: Vector2,
    pub velocity: Vector2,
    /// Restitution, in thousandths: 0 ..= 1000.
    pub elasticity: i64,
    pub id: i32,
    /// Sum over the current frame of the squared half penetrations of the
    /// ball with its neighbours, in squared ticks.
    pub pressure_stat: i64,
}

pub open spec fn abs_int(v: int) -> int {
    if v < 0 { -v } else { v }
}

/// `v` held into `lo ..= hi`.
pub open spec fn clamp_int(v: int, lo: int, hi: int) -> int {
    if v < lo { lo } else if v > hi { hi } else { v }
}

/// Division of `a` by a positive `b`, rounding toward zero.
pub open spec fn tdiv(a: int, b: int) -> int {
    if a >= 0 { a / b } else { -((-a) / b) }
}

pub open spec fn clamp_pos(v: int) -> int {
    clamp_int(v, -POSITION_LIMIT as int, POSITION_LIMIT as int)
}

pub open spec fn clamp_vel(v: int) -> int {
    clamp_int(v, -VELOCITY_LIMIT as int, VELOCITY_LIMIT as int)
}

impl Vector2 {
    pub open spec fn within(self, limit: int) -> bool {
        -limit <= self.x <= limit && -limit <= self.y <= limit
    }
}

impl Ball {
    /// The invariant every ball keeps.
    pub open spec fn wf(self) -> bool {
        &&& 0 < self.size <= MAX_RADIUS
        &&& 0 <= self.elasticity <= ELASTICITY_ONE
        &&& self.pos.within(POSITION_LIMIT as int)
        &&& self.velocity.within(VELOCITY_LIMIT as int)
        &&& 0 <= self.pressure_stat <= PRESSURE_LIMIT
    }

    /// Whether the ball keeps the invariant.
    pub fn is_valid(&self) -> (r: bool)
        ensures
            r == self.wf(),
    {
        0 < self.size && self.size <= MAX_RADIUS && 0 <= self.elasticity && self.elasticity
            <= ELASTICITY_ONE && -POSITION_LIMIT <= self.pos.x && self.pos.x <= POSITION_LIMIT
            && -POSITION_LIMIT <= self.pos.y && self.pos.y <= POSITION_LIMIT && -VELOCITY_LIMIT
            <= self.velocity.x && self.velocity.x <= VELOCITY_LIMIT && -VELOCITY_LIMIT
            <= self.velocity.y && self.velocity.y <= VELOCITY_LIMIT && 0 <= self.pressure_stat
            && self.pressure_stat <= PRESSURE_LIMIT
    }

    /// A ball at `pos` moving at `velocity`, with the spawn radius and elasticity.
    pub fn new(pos: Vector2, velocity: Vector2, id: i32) -> (r: Ball)
        requires
            pos.within(POSITION_LIMIT as int),
            velocity.within(VELOCITY_LIMIT as int),
        ensures
            r.wf(),
            r == (Ball {
                size: (BALL_SIZE / 2) as i64,
                pos,
                velocity,
                elasticity: SPAWN_ELASTICITY,
                id,
                pressure_stat: 0,
            }),
    {
        Ball { size: BALL_SIZE / 2, pos, velocity, elasticity: SPAWN_ELASTICITY, id, pressure_stat: 0 }
    }
}

pub open spec fn all_wf(s: Seq<Ball>) -> bool {
    forall|i: int| 0 <= i < s.len() ==> (#[trigger] s[i]).wf()
}

/// `v` held into `lo ..= hi`.
pub fn clamp_wide(v: i128, lo: i64, hi: i64) -> (r: i64)
    requires
        lo <= hi,
    ensures
        r == clamp_int(v as int, lo as int, hi as int),
{
    if v < lo as i128 {
        lo
    } else if v > hi as i128 {
        hi
    } else {
        v as i64
    }
}

/// Division of `a` by a positive `b`, rounding toward zero, as Rust's `/` does.
pub fn trunc_div(a: i128, b: i128) -> (r: i128)
    requires
        b > 0,
        a > i128::MIN,
    ensures
        r == tdiv(a as int, b as int),
        abs_int(r as int) <= abs_int(a as int),
{
    if a >= 0 {
        a / b
    } else {
        let n: i128 = -a;
        -(n / b)
    }
}

} // verus!
