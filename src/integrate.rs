use vstd::prelude::*;

use crate::body::{
    all_wf, clamp_pos, clamp_vel, clamp_wide, tdiv, trunc_div, Ball, GRAVITY, POSITION_LIMIT,
    VELOCITY_LIMIT,
};

verus! {

/// Each sub-step advances positions by this fraction of a frame: one over it.
pub const ITERATION_DIVISOR: i64 = 10;
/// Milliseconds per second.
pub const MILLIS: i64 = 1000;

/// The ball after gravity has acted for `dt` milliseconds.
pub open spec fn gravity_step(b: Ball, dt: int) -> Ball {
    Ball {
        velocity: crate::body::Vector2 {
            y: clamp_vel(b.velocity.y - tdiv(GRAVITY * dt, MILLIS as int)) as i64,
            ..b.velocity
        },
        ..b
    }
}

/// Displacement over one sub-step of a frame of `dt` milliseconds at velocity `v`.
pub open spec fn displacement(v: int, dt: int) -> int {
    tdiv(v * dt, MILLIS * ITERATION_DIVISOR)
}

/// The ball after one sub-step of motion in a frame of `dt` milliseconds.
pub open spec fn advance(b: Ball, dt: int) -> Ball {
    Ball {
        pos: crate::body::Vector2 {
            x: clamp_pos(b.pos.x + displacement(b.velocity.x as int, dt)) as i64,
            y: clamp_pos(b.pos.y + displacement(b.velocity.y as int, dt)) as i64,
        },
        ..b
    }
}

/// Decreases every vertical velocity by gravity times the frame time.
pub fn update_gravity_velocity(bodies: &mut Vec<Ball>, dt_ms: u32)
    requires
        all_wf(old(bodies)@),
    ensures
        final(bodies)@.len() == old(bodies)@.len(),
        forall|i: int|
            0 <= i < final(bodies)@.len() ==> #[trigger] final(bodies)@[i] == gravity_step(
                old(bodies)@[i],
                dt_ms as int,
            ),
        all_wf(final(bodies)@),
{
    let n = bodies.len();
    let mut i: usize = 0;
    while i < n
        invariant
            n == bodies@.len(),
            n == old(bodies)@.len(),
            i <= n,
            all_wf(old(bodies)@),
            forall|j: int|
                0 <= j < i ==> #[trigger] bodies@[j] == gravity_step(old(bodies)@[j], dt_ms as int),
            forall|j: int| 0 <= j < i ==> (#[trigger] bodies@[j]).wf(),
            forall|j: int| i <= j < n ==> #[trigger] bodies@[j] == old(bodies)@[j],
        decreases n - i,
    {
        let mut b = bodies[i];
        assert(GRAVITY * (dt_ms as int) <= GRAVITY * 0x1_0000_0000) by (nonlinear_arith)
            requires
                0 <= dt_ms < 0x1_0000_0000,
        ;
        let dv: i128 = trunc_div(GRAVITY as i128 * dt_ms as i128, MILLIS as i128);
        b.velocity.y = clamp_wide(b.velocity.y as i128 - dv, -VELOCITY_LIMIT, VELOCITY_LIMIT);
        bodies.set(i, b);
        i += 1;
    }
}

fn step_coordinate(p: i64, v: i64, dt_ms: u32) -> (r: i64)
    requires
        -VELOCITY_LIMIT <= v <= VELOCITY_LIMIT,
        -POSITION_LIMIT <= p <= POSITION_LIMIT,
    ensures
        r == clamp_pos(p + displacement(v as int, dt_ms as int)),
{
    proof {
        assert(-VELOCITY_LIMIT * 0x1_0000_0000 <= (v as int) * (dt_ms as int)
            <= VELOCITY_LIMIT * 0x1_0000_0000) by (nonlinear_arith)
            requires
                -VELOCITY_LIMIT <= v <= VELOCITY_LIMIT,
                0 <= dt_ms < 0x1_0000_0000,
        ;
    }
    let d: i128 = trunc_div(v as i128 * dt_ms as i128, (MILLIS * ITERATION_DIVISOR) as i128);
    clamp_wide(p as i128 + d, -POSITION_LIMIT, POSITION_LIMIT)
}

/// Advances every position by its velocity over one sub-step of the frame.
pub fn update_ball_position(bodies: &mut Vec<Ball>, dt_ms: u32)
    requires
        all_wf(old(bodies)@),
    ensures
        final(bodies)@.len() == old(bodies)@.len(),
        forall|i: int|
            0 <= i < final(bodies)@.len() ==> #[trigger] final(bodies)@[i] == advance(
                old(bodies)@[i],
                dt_ms as int,
            ),
        all_wf(final(bodies)@),
{
    let n = bodies.len();
    let mut i: usize = 0;
    while i < n
        invariant
            n == bodies@.len(),
            n == old(bodies)@.len(),
            i <= n,
            all_wf(old(bodies)@),
            forall|j: int|
                0 <= j < i ==> #[trigger] bodies@[j] == advance(old(bodies)@[j], dt_ms as int),
            forall|j: int| 0 <= j < i ==> (#[trigger] bodies@[j]).wf(),
            forall|j: int| i <= j < n ==> #[trigger] bodies@[j] == old(bodies)@[j],
        decreases n - i,
    {
        let mut b = bodies[i];
        assert(b.wf());
        b.pos.x = step_coordinate(b.pos.x, b.velocity.x, dt_ms);
        b.pos.y = step_coordinate(b.pos.y, b.velocity.y, dt_ms);
        bodies.set(i, b);
        i += 1;
    }
}

} // verus!
