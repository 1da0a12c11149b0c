use vstd::prelude::*;

use crate::body::{
    abs_int, all_wf, clamp_vel, clamp_wide, tdiv, trunc_div, Ball, ELASTICITY_ONE, HALF_HEIGHT,
    HALF_WIDTH, VELOCITY_LIMIT,
};

verus! {

/// Horizontal velocity added away from a side wall on each bounce, in ticks per second.
pub const WALL_BIAS: i64 = 100;

/// Velocity `v` reversed and scaled by elasticity `e` (in thousandths).
pub open spec fn reflect(v: int, e: int) -> int {
    tdiv(-v * e, ELASTICITY_ONE as int)
}

/// The ball after the vertical walls: clamped above the floor or below the
/// ceiling, with its vertical velocity reflected.
pub open spec fn bounce_vertical(b: Ball) -> Ball {
    if b.pos.y - b.size < -HALF_HEIGHT {
        Ball {
            pos: crate::body::Vector2 { y: (-HALF_HEIGHT + b.size) as i64, ..b.pos },
            velocity: crate::body::Vector2 {
                y: reflect(b.velocity.y as int, b.elasticity as int) as i64,
                ..b.velocity
            },
            ..b
        }
    } else if b.pos.y + b.size > HALF_HEIGHT {
        Ball {
            pos: crate::body::Vector2 { y: (HALF_HEIGHT - b.size) as i64, ..b.pos },
            velocity: crate::body::Vector2 {
                y: reflect(b.velocity.y as int, b.elasticity as int) as i64,
                ..b.velocity
            },
            ..b
        }
    } else {
        b
    }
}

/// The ball after the side walls: clamped inside, with its horizontal
/// velocity reflected and nudged away from the wall.
pub open spec fn bounce_horizontal(b: Ball) -> Ball {
    if b.pos.x + b.size > HALF_WIDTH {
        Ball {
            pos: crate::body::Vector2 { x: (HALF_WIDTH - b.size) as i64, ..b.pos },
            velocity: crate::body::Vector2 {
                x: clamp_vel(reflect(b.velocity.x as int, b.elasticity as int) - WALL_BIAS) as i64,
                ..b.velocity
            },
            ..b
        }
    } else if b.pos.x - b.size < -HALF_WIDTH {
        Ball {
            pos: crate::body::Vector2 { x: (-HALF_WIDTH + b.size) as i64, ..b.pos },
            velocity: crate::body::Vector2 {
                x: clamp_vel(reflect(b.velocity.x as int, b.elasticity as int) + WALL_BIAS) as i64,
                ..b.velocity
            },
            ..b
        }
    } else {
        b
    }
}

/// One container collision of a ball: both axes, each at most once.
pub open spec fn bounce(b: Ball) -> Ball {
    bounce_horizontal(bounce_vertical(b))
}

/// The ball's centre lies inside the container, edge included.
pub open spec fn centre_inside(b: Ball) -> bool {
    &&& -HALF_HEIGHT <= b.pos.y <= HALF_HEIGHT
    &&& -HALF_WIDTH <= b.pos.x <= HALF_WIDTH
}

/// The ball lies inside the container, edge included.
pub open spec fn in_container(b: Ball) -> bool {
    &&& -HALF_HEIGHT + b.size <= b.pos.y <= HALF_HEIGHT - b.size
    &&& -HALF_WIDTH + b.size <= b.pos.x <= HALF_WIDTH - b.size
}

proof fn lemma_reflect_bound(v: int, e: int)
    requires
        0 <= e <= ELASTICITY_ONE,
    ensures
        abs_int(reflect(v, e)) <= abs_int(v),
{
    let p = -v * e;
    assert(abs_int(p) <= abs_int(v) * ELASTICITY_ONE) by (nonlinear_arith)
        requires
            0 <= e <= ELASTICITY_ONE,
            p == -v * e,
    ;
    assert(abs_int(p) / 1000 <= abs_int(v)) by (nonlinear_arith)
        requires
            0 <= abs_int(p) <= abs_int(v) * 1000,
    ;
}

/// Velocity `v` reversed and scaled by elasticity `e`.
fn reflect_velocity(v: i64, e: i64) -> (r: i64)
    requires
        -VELOCITY_LIMIT <= v <= VELOCITY_LIMIT,
        0 <= e <= ELASTICITY_ONE,
    ensures
        r == reflect(v as int, e as int),
        -VELOCITY_LIMIT <= r <= VELOCITY_LIMIT,
{
    proof {
        lemma_reflect_bound(v as int, e as int);
        assert(-(v as int) * (e as int) <= VELOCITY_LIMIT * ELASTICITY_ONE) by (nonlinear_arith)
            requires
                -VELOCITY_LIMIT <= v <= VELOCITY_LIMIT,
                0 <= e <= ELASTICITY_ONE,
        ;
        assert(-(v as int) * (e as int) >= -VELOCITY_LIMIT * ELASTICITY_ONE) by (nonlinear_arith)
            requires
                -VELOCITY_LIMIT <= v <= VELOCITY_LIMIT,
                0 <= e <= ELASTICITY_ONE,
        ;
    }
    let p: i128 = -(v as i128) * (e as i128);
    trunc_div(p, ELASTICITY_ONE as i128) as i64
}

/// Clamps one ball into the container and reflects its velocity on each
/// axis whose wall it crossed.
pub fn bounce_ball(b: &mut Ball)
    requires
        old(b).wf(),
    ensures
        *final(b) == bounce(*old(b)),
        final(b).wf(),
        in_container(*final(b)),
{
    if b.pos.y - b.size < -HALF_HEIGHT {
        b.pos.y = -HALF_HEIGHT + b.size;
        b.velocity.y = reflect_velocity(b.velocity.y, b.elasticity);
    } else if b.pos.y + b.size > HALF_HEIGHT {
        b.pos.y = HALF_HEIGHT - b.size;
        b.velocity.y = reflect_velocity(b.velocity.y, b.elasticity);
    }
    if b.pos.x + b.size > HALF_WIDTH {
        b.pos.x = HALF_WIDTH - b.size;
        let v: i64 = reflect_velocity(b.velocity.x, b.elasticity);
        b.velocity.x = clamp_wide(v as i128 - WALL_BIAS as i128, -VELOCITY_LIMIT, VELOCITY_LIMIT);
    } else if b.pos.x - b.size < -HALF_WIDTH {
        b.pos.x = -HALF_WIDTH + b.size;
        let v: i64 = reflect_velocity(b.velocity.x, b.elasticity);
        b.velocity.x = clamp_wide(v as i128 + WALL_BIAS as i128, -VELOCITY_LIMIT, VELOCITY_LIMIT);
    }
}

/// Applies the container collision to every ball.
pub fn container_collision(bodies: &mut Vec<Ball>)
    requires
        all_wf(old(bodies)@),
    ensures
        final(bodies)@.len() == old(bodies)@.len(),
        forall|i: int|
            0 <= i < final(bodies)@.len() ==> #[trigger] final(bodies)@[i] == bounce(old(bodies)@[i]),
        all_wf(final(bodies)@),
        forall|i: int| 0 <= i < final(bodies)@.len() ==> in_container(#[trigger] final(bodies)@[i]),
{
    let n = bodies.len();
    let mut i: usize = 0;
    while i < n
        invariant
            n == bodies@.len(),
            n == old(bodies)@.len(),
            i <= n,
            all_wf(old(bodies)@),
            forall|j: int| 0 <= j < i ==> #[trigger] bodies@[j] == bounce(old(bodies)@[j]),
            forall|j: int| 0 <= j < i ==> (#[trigger] bodies@[j]).wf() && in_container(bodies@[j]),
            forall|j: int| i <= j < n ==> #[trigger] bodies@[j] == old(bodies)@[j],
        decreases n - i,
    {
        let mut b = bodies[i];
        bounce_ball(&mut b);
        bodies.set(i, b);
        i += 1;
    }
}

/// A ball already inside the container is left as it is.
pub proof fn lemma_bounce_in_container_unchanged(b: Ball)
    requires
        in_container(b),
        b.wf(),
    ensures
        bounce(b) == b,
{
}

/// Running the container collision twice gives what running it once gives.
pub proof fn lemma_bounce_idempotent(b: Ball)
    requires
        b.wf(),
    ensures
        bounce(bounce(b)) == bounce(b),
{
    lemma_bounce_lands_inside(b);
}

/// After the container collision a ball lies inside the container and
/// keeps the invariant.
pub proof fn lemma_bounce_lands_inside(b: Ball)
    requires
        b.wf(),
    ensures
        in_container(bounce(b)),
        bounce(b).wf(),
{
    lemma_reflect_bound(b.velocity.y as int, b.elasticity as int);
    lemma_reflect_bound(b.velocity.x as int, b.elasticity as int);
    let v = bounce_vertical(b);
    assert(v.velocity.x == b.velocity.x);
}

} // verus!
