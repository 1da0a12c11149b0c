use vstd::prelude::*;

use crate::body::{
    all_wf, clamp_vel, clamp_wide, tdiv, trunc_div, Ball, Vector2, VELOCITY_LIMIT,
};
use crate::collision::{csqrt_of, dist_sq, is_isqrt, isqrt, isqrt_of};
use crate::collision::SUBTICKS;
use crate::integrate::MILLIS;

verus! {

/// Squared reach of removal around a point, in squared ticks.
pub const REMOVE_RADIUS_SQUARED: i128 = 2_500_000_000;
/// Acceleration toward the pointer, in ticks per second squared.
pub const MOUSE_STRENGTH: i64 = 400_000;
/// A pointer or cluster centre lies within plus or minus this many ticks.
pub const POINTER_LIMIT: i64 = 1_000_000_000;

/// The balls of `s` farther than the removal reach from `p`, in order.
pub open spec fn kept(s: Seq<Ball>, p: Vector2) -> Seq<Ball>
    decreases s.len(),
{
    if s.len() == 0 {
        Seq::empty()
    } else if dist_sq(s.last().pos, p) <= REMOVE_RADIUS_SQUARED {
        kept(s.drop_last(), p)
    } else {
        kept(s.drop_last(), p).push(s.last())
    }
}

/// Removes every ball whose centre lies within the removal reach of `point`.
pub fn remove_near(bodies: &mut Vec<Ball>, point: Vector2)
    requires
        all_wf(old(bodies)@),
        point.within(POINTER_LIMIT as int),
    ensures
        final(bodies)@ == kept(old(bodies)@, point),
        all_wf(final(bodies)@),
{
    let mut out: Vec<Ball> = Vec::new();
    let n = bodies.len();
    let mut i: usize = 0;
    while i < n
        invariant
            n == bodies@.len(),
            bodies@ == old(bodies)@,
            i <= n,
            all_wf(bodies@),
            point.within(POINTER_LIMIT as int),
            out@ == kept(bodies@.take(i as int), point),
            all_wf(out@),
        decreases n - i,
    {
        let b = bodies[i];
        assert(b.wf());
        let dx: i128 = b.pos.x as i128 - point.x as i128;
        let dy: i128 = b.pos.y as i128 - point.y as i128;
        assert(0 <= dx * dx <= 0x10_0000_0000_0000_0000_0000_0000) by (nonlinear_arith)
            requires
                -0x4_0000_0000_0000 <= dx <= 0x4_0000_0000_0000,
        ;
        assert(0 <= dy * dy <= 0x10_0000_0000_0000_0000_0000_0000) by (nonlinear_arith)
            requires
                -0x4_0000_0000_0000 <= dy <= 0x4_0000_0000_0000,
        ;
        proof {
            assert(bodies@.take(i as int + 1).drop_last() =~= bodies@.take(i as int));
        }
        if dx * dx + dy * dy > REMOVE_RADIUS_SQUARED {
            out.push(b);
        }
        i += 1;
    }
    proof {
        assert(bodies@.take(n as int) =~= bodies@);
    }
    *bodies = out;
}

/// Removes every ball.
pub fn remove_all(bodies: &mut Vec<Ball>)
    ensures
        final(bodies)@ == Seq::<Ball>::empty(),
{
    bodies.clear();
}

/// The ball after being pulled toward `p` for `dt` milliseconds: its
/// velocity gains `MOUSE_STRENGTH * dt` along the direction to `p`, the
/// distance taken in subticks and rounded up so that the direction is at
/// most a unit. A
/// ball exactly on `p` has no direction and is left as it is.
pub open spec fn pulled(b: Ball, p: Vector2, dt: int) -> Ball {
    let n = dist_sq(p, b.pos);
    if n == 0 {
        b
    } else {
        let len = csqrt_of(n * (SUBTICKS * SUBTICKS));
        Ball {
            velocity: Vector2 {
                x: clamp_vel(
                    b.velocity.x + tdiv(
                        (p.x - b.pos.x) * SUBTICKS * (MOUSE_STRENGTH * dt),
                        MILLIS * len,
                    ),
                ) as i64,
                y: clamp_vel(
                    b.velocity.y + tdiv(
                        (p.y - b.pos.y) * SUBTICKS * (MOUSE_STRENGTH * dt),
                        MILLIS * len,
                    ),
                ) as i64,
            },
            ..b
        }
    }
}

/// Pulls every ball toward `point` for `dt_ms` milliseconds.
pub fn pull_towards(bodies: &mut Vec<Ball>, point: Vector2, dt_ms: u32)
    requires
        all_wf(old(bodies)@),
        point.within(POINTER_LIMIT as int),
    ensures
        final(bodies)@.len() == old(bodies)@.len(),
        forall|i: int|
            0 <= i < final(bodies)@.len() ==> #[trigger] final(bodies)@[i] == pulled(
                old(bodies)@[i],
                point,
                dt_ms as int,
            ),
        all_wf(final(bodies)@),
{
    let n = bodies.len();
    let mut i: usize = 0;
    while i < n
        invariant
            n == bodies@.len(),
            n == old(bodies)@.len(),
            i <= n,
            all_wf(old(bodies)@),
            point.within(POINTER_LIMIT as int),
            forall|j: int|
                0 <= j < i ==> #[trigger] bodies@[j] == pulled(old(bodies)@[j], point, dt_ms as int),
            forall|j: int| 0 <= j < i ==> (#[trigger] bodies@[j]).wf(),
            forall|j: int| i <= j < n ==> #[trigger] bodies@[j] == old(bodies)@[j],
        decreases n - i,
    {
        let mut b = bodies[i];
        assert(b.wf());
        let dx: i128 = point.x as i128 - b.pos.x as i128;
        let dy: i128 = point.y as i128 - b.pos.y as i128;
        assert(0 <= dx * dx <= 0x10_0000_0000_0000_0000_0000_0000) by (nonlinear_arith)
            requires
                -0x4_0000_0000_0000 <= dx <= 0x4_0000_0000_0000,
        ;
        assert(0 <= dy * dy <= 0x10_0000_0000_0000_0000_0000_0000) by (nonlinear_arith)
            requires
                -0x4_0000_0000_0000 <= dy <= 0x4_0000_0000_0000,
        ;
        let d2: i128 = dx * dx + dy * dy;
        if d2 != 0 {
            let nf: i128 = d2 * (SUBTICKS as i128 * SUBTICKS as i128);
            assert(1 <= nf <= 0x20_0000_0000_0000_0000_0000_0000 * 0x10_0000) by (nonlinear_arith)
                requires
                    1 <= d2 <= 0x20_0000_0000_0000_0000_0000_0000,
                    nf == d2 * (SUBTICKS * SUBTICKS),
            ;
            let fl: i128 = isqrt(nf as u128) as i128;
            proof {
                lemma_isqrt_positive(nf as int, fl as int);
                crate::collision::lemma_isqrt_unique(nf as int, fl as int);
            }
            let len: i128 = if fl * fl == nf { fl } else { fl + 1 };
            let f: i128 = MOUSE_STRENGTH as i128 * dt_ms as i128;
            assert(0 <= f <= 0x40_0000_0000_0000) by (nonlinear_arith)
                requires
                    f == MOUSE_STRENGTH * dt_ms,
                    0 <= dt_ms < 0x1_0000_0000,
            ;
            let sx: i128 = dx * SUBTICKS as i128;
            let sy: i128 = dy * SUBTICKS as i128;
            assert(-0x4_0000_0000_0000 * 0x400 * 0x40_0000_0000_0000 <= sx * f <= 0x4_0000_0000_0000 * 0x400 * 0x40_0000_0000_0000)
                by (nonlinear_arith)
                requires
                    -0x4_0000_0000_0000 * 0x400 <= sx <= 0x4_0000_0000_0000 * 0x400,
                    0 <= f <= 0x40_0000_0000_0000,
            ;
            assert(-0x4_0000_0000_0000 * 0x400 * 0x40_0000_0000_0000 <= sy * f <= 0x4_0000_0000_0000 * 0x400 * 0x40_0000_0000_0000)
                by (nonlinear_arith)
                requires
                    -0x4_0000_0000_0000 * 0x400 <= sy <= 0x4_0000_0000_0000 * 0x400,
                    0 <= f <= 0x40_0000_0000_0000,
            ;
            assert(0 < MILLIS * len <= MILLIS * 0x1_0000_0000_0000_0000) by (nonlinear_arith)
                requires
                    1 <= len <= 0x1_0000_0000_0000_0000,
            ;
            let den: i128 = MILLIS as i128 * len;
            let vx: i128 = trunc_div(sx * f, den);
            let vy: i128 = trunc_div(sy * f, den);
            b.velocity.x = clamp_wide(b.velocity.x as i128 + vx, -VELOCITY_LIMIT, VELOCITY_LIMIT);
            b.velocity.y = clamp_wide(b.velocity.y as i128 + vy, -VELOCITY_LIMIT, VELOCITY_LIMIT);
        }
        bodies.set(i, b);
        i += 1;
    }
}

proof fn lemma_isqrt_positive(n: int, r: int)
    requires
        is_isqrt(n, r),
        n >= 1,
    ensures
        r >= 1,
{
    if r == 0 {
        assert((r + 1) * (r + 1) == 1) by (nonlinear_arith)
            requires
                r == 0,
        ;
    }
}

} // verus!
