use vstd::prelude::*;

use crate::body::{
    abs_int, all_wf, clamp_int, clamp_pos, clamp_vel, clamp_wide, tdiv, trunc_div, Ball, Vector2,
    ELASTICITY_ONE, HALF_HEIGHT, HALF_WIDTH, MAX_RADIUS, POSITION_LIMIT, PRESSURE_LIMIT, VELOCITY_LIMIT,
};
use crate::grid::{
    bucket, build_grid, chunk_of, chunk_x, chunk_y, grid_index, in_bounds, in_grid, is_grid_of,
    vec2d_to_index,
};
use crate::boundary::centre_inside;
use crate::random::random_in;

verus! {

/// Largest offset by which a ball on another's exact centre is moved aside, in ticks.
pub const NUDGE_MAX: i64 = 1000;
/// Distances and penetrations in a pair correction are measured in this
/// many parts of a tick.
pub const SUBTICKS: i64 = 1000;
/// Velocity correction per tick of penetration, at elasticity one.
pub const VELOCITY_GAIN: i64 = 10;

/// The integer square root: the largest `r` with `r * r <= n`.
pub open spec fn is_isqrt(n: int, r: int) -> bool {
    0 <= r && r * r <= n < (r + 1) * (r + 1)
}

/// The integer square root of `n`.
pub open spec fn isqrt_of(n: int) -> int {
    choose|r: int| is_isqrt(n, r)
}

/// Integer square root, by bisection.
pub fn isqrt(n: u128) -> (r: u128)
    ensures
        is_isqrt(n as int, r as int),
        r < 0x1_0000_0000_0000_0000,
{
    let mut lo: u128 = 0;
    let mut hi: u128 = 0x1_0000_0000_0000_0000;
    assert(n < 0x1_0000_0000_0000_0000 * 0x1_0000_0000_0000_0000) by (nonlinear_arith)
        requires
            n <= u128::MAX,
    ;
    while hi - lo > 1
        invariant
            lo < hi <= 0x1_0000_0000_0000_0000,
            lo * lo <= n,
            n < hi * hi,
        decreases hi - lo,
    {
        let mid: u128 = lo + (hi - lo) / 2;
        assert(mid * mid < 0x1_0000_0000_0000_0000 * 0x1_0000_0000_0000_0000) by (nonlinear_arith)
            requires
                mid < 0x1_0000_0000_0000_0000,
        ;
        if mid * mid <= n {
            lo = mid;
        } else {
            hi = mid;
        }
    }
    assert(hi == lo + 1);
    lo
}

/// The state of one ball's scan over its neighbours: the ball as it is
/// compared (position nudged, pressure accumulated), and the corrected
/// position and velocity gathered so far.
#[derive(Clone, Copy, Debug, PartialEq, Eq, Structural)]
pub struct Scan {
    pub live: Ball,
    pub pos: Vector2,
    pub vel: Vector2,
}

impl Scan {
    pub open spec fn wf(self) -> bool {
        &&& self.live.wf()
        &&& self.pos.within(POSITION_LIMIT as int)
        &&& self.vel.within(VELOCITY_LIMIT as int)
    }
}

/// The scan before any neighbour is looked at.
pub open spec fn scan_start(b: Ball) -> Scan {
    Scan { live: b, pos: b.pos, vel: b.velocity }
}

/// The ball once its scan is over.
pub open spec fn scan_finish(st: Scan) -> Ball {
    Ball { pos: st.pos, velocity: st.vel, ..st.live }
}

pub open spec fn dist_sq(a: Vector2, b: Vector2) -> int {
    (a.x - b.x) * (a.x - b.x) + (a.y - b.y) * (a.y - b.y)
}

/// Two balls touch or overlap: the squared distance of the centres is at
/// most the squared sum of the radii.
pub open spec fn overlaps(a: Ball, b: Ball) -> bool {
    dist_sq(a.pos, b.pos) <= (a.size + b.size) * (a.size + b.size)
}

/// The ceiling square root of `n`: the least `r` with `n <= r * r`.
pub open spec fn csqrt_of(n: int) -> int {
    if isqrt_of(n) * isqrt_of(n) == n {
        isqrt_of(n)
    } else {
        isqrt_of(n) + 1
    }
}

pub open spec fn sign_int(v: int) -> int {
    if v > 0 {
        1
    } else if v < 0 {
        -1
    } else {
        0
    }
}

/// Half the penetration `pen` along offset `d` over distance `dist`,
/// rounded toward zero.
pub open spec fn push_of(d: int, pen: int, dist: int) -> int {
    tdiv(d * pen, 2 * dist)
}

/// The position correction on x for offset `(dx, dy)` in ticks, with the
/// distance `dist` in subticks rounded up and the penetration `pen` in
/// subticks taken against it: half the penetration along the unit
/// direction, rounded toward zero. Where both axes round to zero and the
/// penetration is two ticks or more, one tick along the larger axis (x on
/// a tie) instead.
pub open spec fn push_x(dx: int, dy: int, pen: int, dist: int) -> int {
    if push_of(dx, pen, dist) == 0 && push_of(dy, pen, dist) == 0 && pen >= 2 * SUBTICKS && abs_int(dx)
        >= abs_int(dy) {
        sign_int(dx)
    } else {
        push_of(dx, pen, dist)
    }
}

/// The position correction on y; see `push_x`.
pub open spec fn push_y(dx: int, dy: int, pen: int, dist: int) -> int {
    if push_of(dx, pen, dist) == 0 && push_of(dy, pen, dist) == 0 && pen >= 2 * SUBTICKS
        && abs_int(dx) < abs_int(dy) {
        sign_int(dy)
    } else {
        push_of(dy, pen, dist)
    }
}

/// Velocity correction along relative offset `d`: penetration times the
/// mean elasticity `(e1 + e2) / 2` times the gain, along the unit direction.
pub open spec fn kick_of(d: int, pen: int, esum: int, dist: int) -> int {
    tdiv(d * pen * esum * VELOCITY_GAIN, 2 * ELASTICITY_ONE * dist)
}

/// Pressure added for a penetration of `depth` subticks: the square of
/// half of it in ticks, rounded up.
pub open spec fn pressure_of(depth: int) -> int {
    (depth * depth + 4 * SUBTICKS * SUBTICKS - 1) / (4 * SUBTICKS * SUBTICKS)
}

/// One neighbour `c` looked at in a scan. A ball with the scanned ball's id
/// is skipped, as is one that does not overlap it. On an exact common centre
/// the scanned ball is moved `nudge` ticks along x. Otherwise the position
/// and velocity corrections are gathered, with the distance in subticks
/// rounded up so that the direction is at most a unit; the penetration,
/// rounded up to a subtick, gives the pressure added.
pub open spec fn pair_step(st: Scan, c: Ball, nudge: int) -> Scan {
    let b = st.live;
    if c.id == b.id || !overlaps(b, c) {
        st
    } else if dist_sq(b.pos, c.pos) == 0 {
        Scan {
            live: Ball {
                pos: Vector2 { x: clamp_pos(b.pos.x + nudge) as i64, ..b.pos },
                ..b
            },
            pos: Vector2 { x: clamp_pos(st.pos.x + nudge) as i64, ..st.pos },
            ..st
        }
    } else {
        let dx = b.pos.x - c.pos.x;
        let dy = b.pos.y - c.pos.y;
        let n = dist_sq(b.pos, c.pos) * (SUBTICKS * SUBTICKS);
        let dist = csqrt_of(n);
        let pen = (b.size + c.size) * SUBTICKS - dist;
        let depth = (b.size + c.size) * SUBTICKS - isqrt_of(n);
        let esum = b.elasticity + c.elasticity;
        let px = push_x(dx, dy, pen, dist);
        let py = push_y(dx, dy, pen, dist);
        Scan {
            live: Ball {
                pressure_stat: clamp_int(
                    b.pressure_stat + pressure_of(depth),
                    0,
                    PRESSURE_LIMIT as int,
                ) as i64,
                ..b
            },
            pos: Vector2 {
                x: clamp_pos(st.pos.x + px) as i64,
                y: clamp_pos(st.pos.y + py) as i64,
            },
            vel: Vector2 {
                x: clamp_vel(st.vel.x + kick_of(dx, pen, esum, dist)) as i64,
                y: clamp_vel(st.vel.y + kick_of(dy, pen, esum, dist)) as i64,
            },
        }
    }
}

pub(crate) proof fn lemma_isqrt_unique(n: int, r: int)
    requires
        is_isqrt(n, r),
    ensures
        isqrt_of(n) == r,
{
    let q = choose|q: int| is_isqrt(n, q);
    assert(is_isqrt(n, q));
    if q < r {
        assert((q + 1) * (q + 1) <= r * r) by (nonlinear_arith)
            requires
                0 <= q < r,
        ;
    } else if r < q {
        assert((r + 1) * (r + 1) <= q * q) by (nonlinear_arith)
            requires
                0 <= r < q,
        ;
    }
}

proof fn lemma_isqrt_range(n: int, r: int, rs: int)
    requires
        is_isqrt(n, r),
        1 <= n <= rs * rs,
        rs > 0,
    ensures
        1 <= r <= rs,
{
    if r == 0 {
        assert((r + 1) * (r + 1) == 1) by (nonlinear_arith)
            requires
                r == 0,
        ;
    }
    if r > rs {
        assert(r * r > rs * rs) by (nonlinear_arith)
            requires
                r > rs > 0,
        ;
    }
}

/// The ceiling square root of a positive `n` at most `rs * rs` lies in
/// `1 ..= rs`, is the least `r` with `n <= r * r`, and is at least the floor one.
pub(crate) proof fn lemma_csqrt_range(n: int, rs: int)
    requires
        1 <= n <= rs * rs,
        rs > 0,
    ensures
        1 <= csqrt_of(n) <= rs,
        n <= csqrt_of(n) * csqrt_of(n),
        (csqrt_of(n) - 1) * (csqrt_of(n) - 1) < n,
        isqrt_of(n) <= csqrt_of(n),
{
    lemma_isqrt_exists(n);
    let f = isqrt_of(n);
    lemma_isqrt_range(n, f, rs);
    if f * f != n {
        assert(f * f < n);
        if f >= rs {
            assert(f * f >= rs * rs) by (nonlinear_arith)
                requires
                    f >= rs > 0,
            ;
        }
        assert(n <= (f + 1) * (f + 1));
    } else {
        assert((f - 1) * (f - 1) < f * f) by (nonlinear_arith)
            requires
                f >= 1,
        ;
    }
}

proof fn lemma_square_bound(d: int, rs: int)
    requires
        d * d <= rs * rs,
        rs > 0,
    ensures
        -rs <= d <= rs,
{
    if d > rs {
        assert(d * d > rs * rs) by (nonlinear_arith)
            requires
                d > rs > 0,
        ;
    } else if d < -rs {
        assert(d * d > rs * rs) by (nonlinear_arith)
            requires
                -d > rs > 0,
        ;
    }
}

/// Looks at one neighbour `c` in a scan.
pub fn collide_pair(st: &mut Scan, c: &Ball, nudge: i64)
    requires
        old(st).wf(),
        c.wf(),
        1 <= nudge <= NUDGE_MAX,
    ensures
        *final(st) == pair_step(*old(st), *c, nudge as int),
        final(st).wf(),
{
    let b = st.live;
    if c.id == b.id {
        return;
    }
    let dx: i128 = b.pos.x as i128 - c.pos.x as i128;
    let dy: i128 = b.pos.y as i128 - c.pos.y as i128;
    assert(0 <= dx * dx <= 0x10_0000_0000_0000_0000_0000_0000) by (nonlinear_arith)
        requires
            -0x4_0000_0000_0000 <= dx <= 0x4_0000_0000_0000,
    ;
    assert(0 <= dy * dy <= 0x10_0000_0000_0000_0000_0000_0000) by (nonlinear_arith)
        requires
            -0x4_0000_0000_0000 <= dy <= 0x4_0000_0000_0000,
    ;
    let d2: i128 = dx * dx + dy * dy;
    let rs: i128 = b.size as i128 + c.size as i128;
    assert(rs * rs <= 0x1_0000_0000_0000) by (nonlinear_arith)
        requires
            0 < rs <= 2 * MAX_RADIUS,
    ;
    if d2 > rs * rs {
        return;
    }
    if d2 == 0 {
        st.live.pos.x = clamp_wide(b.pos.x as i128 + nudge as i128, -POSITION_LIMIT, POSITION_LIMIT);
        st.pos.x = clamp_wide(st.pos.x as i128 + nudge as i128, -POSITION_LIMIT, POSITION_LIMIT);
        return;
    }
    assert(dx * dx >= 0 && dy * dy >= 0) by (nonlinear_arith);
    proof {
        lemma_square_bound(dx as int, rs as int);
        lemma_square_bound(dy as int, rs as int);
    }
    let big: i128 = rs * SUBTICKS as i128;
    let nf: i128 = d2 * (SUBTICKS as i128 * SUBTICKS as i128);
    assert(1 <= nf <= big * big) by (nonlinear_arith)
        requires
            1 <= d2 <= rs * rs,
            nf == d2 * (SUBTICKS * SUBTICKS),
            big == rs * SUBTICKS,
            rs > 0,
    ;
    assert(big <= 680_000_000 && big * big <= 462_400_000_000_000_000) by (nonlinear_arith)
        requires
            big == rs * SUBTICKS,
            0 < rs <= 680_000,
    ;
    let fl: i128 = isqrt(nf as u128) as i128;
    proof {
        assert(is_isqrt(nf as int, fl as int));
        lemma_isqrt_unique(nf as int, fl as int);
        lemma_isqrt_range(nf as int, fl as int, big as int);
    }
    let dist: i128 = if fl * fl == nf { fl } else { fl + 1 };
    proof {
        lemma_csqrt_range(nf as int, big as int);
    }
    let pen: i128 = big - dist;
    let depth: i128 = big - fl;
    let esum: i128 = b.elasticity as i128 + c.elasticity as i128;
    let lim: i128 = 462_400_000_000_000;
    assert(-lim <= dx * pen <= lim) by (nonlinear_arith)
        requires
            -rs <= dx <= rs,
            0 <= pen <= big,
            big <= 680_000_000,
            rs <= 680_000,
            lim == 462_400_000_000_000,
    ;
    assert(-lim <= dy * pen <= lim) by (nonlinear_arith)
        requires
            -rs <= dy <= rs,
            0 <= pen <= big,
            big <= 680_000_000,
            rs <= 680_000,
            lim == 462_400_000_000_000,
    ;
    let ax: i128 = dx * pen;
    let ay: i128 = dy * pen;
    let tx: i128 = trunc_div(ax, 2 * dist);
    let ty: i128 = trunc_div(ay, 2 * dist);
    let adx: i128 = if dx < 0 { -dx } else { dx };
    let ady: i128 = if dy < 0 { -dy } else { dy };
    let px: i128 = if tx == 0 && ty == 0 && pen >= 2 * SUBTICKS as i128 && adx >= ady {
        if dx > 0 { 1 } else if dx < 0 { -1 } else { 0 }
    } else {
        tx
    };
    let py: i128 = if tx == 0 && ty == 0 && pen >= 2 * SUBTICKS as i128 && adx < ady {
        if dy > 0 { 1 } else if dy < 0 { -1 } else { 0 }
    } else {
        ty
    };
    assert(0 <= depth * depth <= 462_400_000_000_000_000) by (nonlinear_arith)
        requires
            0 <= depth <= big,
            big <= 680_000_000,
    ;
    let q: i128 = 4 * SUBTICKS as i128 * SUBTICKS as i128;
    let pressure: i128 = b.pressure_stat as i128 + (depth * depth + q - 1) / q;
    st.live.pressure_stat = clamp_wide(pressure, 0, PRESSURE_LIMIT);
    st.pos.x = clamp_wide(st.pos.x as i128 + px, -POSITION_LIMIT, POSITION_LIMIT);
    st.pos.y = clamp_wide(st.pos.y as i128 + py, -POSITION_LIMIT, POSITION_LIMIT);
    let g: i128 = esum * VELOCITY_GAIN as i128;
    assert(-lim * 20000 <= ax * g <= lim * 20000) by (nonlinear_arith)
        requires
            -lim <= ax <= lim,
            0 <= g <= 20000,
    ;
    assert(-lim * 20000 <= ay * g <= lim * 20000) by (nonlinear_arith)
        requires
            -lim <= ay <= lim,
            0 <= g <= 20000,
    ;
    assert(dx * pen * esum * VELOCITY_GAIN == ax * g && dy * pen * esum * VELOCITY_GAIN == ay * g)
        by (nonlinear_arith)
        requires
            ax == dx * pen,
            ay == dy * pen,
            g == esum * VELOCITY_GAIN,
    ;
    assert(0 < 2 * ELASTICITY_ONE * dist <= 2 * ELASTICITY_ONE * 680_000_000) by (nonlinear_arith)
        requires
            1 <= dist <= big,
            big <= 680_000_000,
    ;
    let den: i128 = 2 * ELASTICITY_ONE as i128 * dist;
    let kx: i128 = trunc_div(ax * g, den);
    let ky: i128 = trunc_div(ay * g, den);
    st.vel.x = clamp_wide(st.vel.x as i128 + kx, -VELOCITY_LIMIT, VELOCITY_LIMIT);
    st.vel.y = clamp_wide(st.vel.y as i128 + ky, -VELOCITY_LIMIT, VELOCITY_LIMIT);
}

/// The scan over one cell's balls, in order.
pub open spec fn scan_bucket(st: Scan, s: Seq<Ball>, nudge: int) -> Scan
    decreases s.len(),
{
    if s.len() == 0 {
        st
    } else {
        pair_step(scan_bucket(st, s.drop_last(), nudge), s.last(), nudge)
    }
}

/// Offset of the `k`-th neighbour cell on x: 1, 1, 1, 0, 0, 0, -1, -1, -1.
pub open spec fn offset_x(k: int) -> int {
    1 - k / 3
}

/// Offset of the `k`-th neighbour cell on y: 1, 0, -1, repeated.
pub open spec fn offset_y(k: int) -> int {
    1 - k % 3
}

/// The scan over the first `k` of the nine cells around `(cx, cy)`, cells
/// outside the grid skipped, each cell's balls those that `snap` files there.
pub open spec fn scan_cells(st: Scan, snap: Seq<Ball>, cx: int, cy: int, k: int, nudge: int) -> Scan
    decreases k,
{
    if k <= 0 {
        st
    } else {
        let prev = scan_cells(st, snap, cx, cy, k - 1, nudge);
        let x = cx + offset_x(k - 1);
        let y = cy + offset_y(k - 1);
        if in_grid(x, y) {
            scan_bucket(prev, bucket(snap, grid_index(x, y)), nudge)
        } else {
            prev
        }
    }
}

/// Ball `b` after its collisions with the balls of `snap` in the nine cells
/// around its own, using `nudge` on an exact common centre.
pub open spec fn resolved(b: Ball, snap: Seq<Ball>, nudge: int) -> Ball {
    scan_finish(scan_cells(scan_start(b), snap, chunk_x(b), chunk_y(b), 9, nudge))
}

/// Every nudge lies in `1 ..= NUDGE_MAX`.
pub open spec fn valid_nudges(ns: Seq<i64>) -> bool {
    forall|i: int| 0 <= i < ns.len() ==> 1 <= #[trigger] ns[i] <= NUDGE_MAX
}

proof fn lemma_bucket_wf(s: Seq<Ball>, k: int)
    requires
        all_wf(s),
    ensures
        all_wf(bucket(s, k)),
    decreases s.len(),
{
    if s.len() > 0 {
        assert(all_wf(s.drop_last()));
        lemma_bucket_wf(s.drop_last(), k);
    }
}

fn resolve_ball(b: Ball, grid: &Vec<Vec<Ball>>, Ghost(snap): Ghost<Seq<Ball>>, nudge: i64) -> (r: Ball)
    requires
        b.wf(),
        all_wf(snap),
        is_grid_of(grid@, snap),
        1 <= nudge <= NUDGE_MAX,
    ensures
        r == resolved(b, snap, nudge as int),
        r.wf(),
{
    let (cx, cy) = chunk_of(b.pos);
    let mut st = Scan { live: b, pos: b.pos, vel: b.velocity };
    let mut k: i64 = 0;
    while k < 9
        invariant
            0 <= k <= 9,
            st == scan_cells(scan_start(b), snap, cx as int, cy as int, k as int, nudge as int),
            st.wf(),
            -200_000_000 <= cx <= 200_000_000,
            -200_000_000 <= cy <= 200_000_000,
            all_wf(snap),
            is_grid_of(grid@, snap),
            1 <= nudge <= NUDGE_MAX,
        decreases 9 - k,
    {
        let x: i64 = cx + 1 - k / 3;
        let y: i64 = cy + 1 - k % 3;
        if in_bounds(x, y) {
            let idx = vec2d_to_index(x, y);
            let cell = &grid[idx];
            proof {
                lemma_bucket_wf(snap, idx as int);
            }
            let ghost st0 = st;
            let m = cell.len();
            let mut j: usize = 0;
            while j < m
                invariant
                    j <= m,
                    m == cell@.len(),
                    cell@ == bucket(snap, idx as int),
                    all_wf(cell@),
                    st == scan_bucket(st0, cell@.take(j as int), nudge as int),
                    st.wf(),
                    1 <= nudge <= NUDGE_MAX,
                decreases m - j,
            {
                proof {
                    assert(cell@.take(j as int + 1).drop_last() =~= cell@.take(j as int));
                }
                collide_pair(&mut st, &cell[j], nudge);
                j += 1;
            }
            proof {
                assert(cell@.take(m as int) =~= cell@);
            }
        }
        k += 1;
    }
    Ball { pos: st.pos, velocity: st.vel, ..st.live }
}

/// Resolves the overlaps of every ball against a grid of the balls as they
/// stood before the pass; `nudges[i]` is the offset ball `i` takes on an
/// exact common centre.
pub fn ball_collision_physics_with(bodies: &mut Vec<Ball>, nudges: &Vec<i64>)
    requires
        all_wf(old(bodies)@),
        nudges@.len() == old(bodies)@.len(),
        valid_nudges(nudges@),
    ensures
        final(bodies)@.len() == old(bodies)@.len(),
        forall|i: int|
            0 <= i < final(bodies)@.len() ==> #[trigger] final(bodies)@[i] == resolved(
                old(bodies)@[i],
                old(bodies)@,
                nudges@[i] as int,
            ),
        all_wf(final(bodies)@),
{
    let grid = build_grid(bodies);
    let ghost snap = bodies@;
    let n = bodies.len();
    let mut i: usize = 0;
    while i < n
        invariant
            n == bodies@.len(),
            n == nudges@.len(),
            snap == old(bodies)@,
            snap.len() == n,
            i <= n,
            all_wf(snap),
            is_grid_of(grid@, snap),
            valid_nudges(nudges@),
            forall|j: int|
                0 <= j < i ==> #[trigger] bodies@[j] == resolved(snap[j], snap, nudges@[j] as int),
            forall|j: int| 0 <= j < i ==> (#[trigger] bodies@[j]).wf(),
            forall|j: int| i <= j < n ==> #[trigger] bodies@[j] == snap[j],
        decreases n - i,
    {
        let b = bodies[i];
        assert(bodies@[i as int] == snap[i as int]);
        assert(snap[i as int].wf());
        let r = resolve_ball(b, &grid, Ghost(snap), nudges[i]);
        bodies.set(i, r);
        i += 1;
    }
}

/// Resolves the overlaps of every ball, drawing each ball's nudge at random.
pub fn ball_collision_physics_optimised(bodies: &mut Vec<Ball>)
    requires
        all_wf(old(bodies)@),
    ensures
        exists|ns: Seq<i64>|
            ns.len() == old(bodies)@.len() && valid_nudges(ns) && #[trigger] final(bodies)@.len()
                == ns.len() && forall|i: int|
                0 <= i < ns.len() ==> #[trigger] final(bodies)@[i] == resolved(
                    old(bodies)@[i],
                    old(bodies)@,
                    ns[i] as int,
                ),
        all_wf(final(bodies)@),
{
    let n = bodies.len();
    let mut nudges: Vec<i64> = Vec::new();
    let mut i: usize = 0;
    while i < n
        invariant
            i <= n,
            nudges@.len() == i,
            valid_nudges(nudges@),
        decreases n - i,
    {
        nudges.push(random_in(NUDGE_MAX));
        i += 1;
    }
    ball_collision_physics_with(bodies, &nudges);
}

/// Whether two balls touch or overlap.
pub fn is_ball_collision(ball1: &Ball, ball2: &Ball) -> (r: bool)
    requires
        ball1.wf(),
        ball2.wf(),
    ensures
        r == overlaps(*ball1, *ball2),
{
    let dx: i128 = ball1.pos.x as i128 - ball2.pos.x as i128;
    let dy: i128 = ball1.pos.y as i128 - ball2.pos.y as i128;
    assert(0 <= dx * dx <= 0x10_0000_0000_0000_0000_0000_0000) by (nonlinear_arith)
        requires
            -0x4_0000_0000_0000 <= dx <= 0x4_0000_0000_0000,
    ;
    assert(0 <= dy * dy <= 0x10_0000_0000_0000_0000_0000_0000) by (nonlinear_arith)
        requires
            -0x4_0000_0000_0000 <= dy <= 0x4_0000_0000_0000,
    ;
    let rs: i128 = ball1.size as i128 + ball2.size as i128;
    assert(rs * rs <= 0x1_0000_0000_0000) by (nonlinear_arith)
        requires
            0 < rs <= 2 * MAX_RADIUS,
    ;
    dx * dx + dy * dy <= rs * rs
}

pub(crate) proof fn lemma_tdiv_sign(a: int, b: int)
    requires
        b > 0,
    ensures
        a >= 0 ==> tdiv(a, b) >= 0,
        a <= 0 ==> tdiv(a, b) <= 0,
        abs_int(a) >= b ==> tdiv(a, b) != 0,
        a == 0 ==> tdiv(a, b) == 0,
{
    if a >= 0 {
        assert(a / b >= 0) by (nonlinear_arith)
            requires
                a >= 0,
                b > 0,
        ;
        if a >= b {
            assert(a / b >= 1) by (nonlinear_arith)
                requires
                    a >= b > 0,
            ;
        }
    } else {
        assert((-a) / b >= 0) by (nonlinear_arith)
            requires
                -a > 0,
                b > 0,
        ;
        if -a >= b {
            assert((-a) / b >= 1) by (nonlinear_arith)
                requires
                    -a >= b > 0,
            ;
        }
    }
}

/// Moving by `p` of the same sign as `d` does not bring the offset `d`
/// closer to zero, and a nonzero move takes it strictly farther.
pub(crate) proof fn lemma_push_away(d: int, p: int)
    requires
        d >= 0 ==> p >= 0,
        d <= 0 ==> p <= 0,
    ensures
        (d + p) * (d + p) >= d * d,
        p != 0 ==> (d + p) * (d + p) > d * d,
{
    assert((d + p) * (d + p) >= d * d && (p != 0 ==> (d + p) * (d + p) > d * d))
        by (nonlinear_arith)
        requires
            d >= 0 ==> p >= 0,
            d <= 0 ==> p <= 0,
    ;
}

pub(crate) proof fn lemma_overlap_facts(b: Ball, c: Ball)
    requires
        b.wf(),
        c.wf(),
        overlaps(b, c),
        dist_sq(b.pos, c.pos) != 0,
    ensures
        1 <= isqrt_of(dist_sq(b.pos, c.pos)) <= b.size + c.size,
        is_isqrt(dist_sq(b.pos, c.pos), isqrt_of(dist_sq(b.pos, c.pos))),
        -(b.size + c.size) <= b.pos.x - c.pos.x <= b.size + c.size,
        -(b.size + c.size) <= b.pos.y - c.pos.y <= b.size + c.size,
{
    let n = dist_sq(b.pos, c.pos);
    let rs = b.size + c.size;
    let dx = b.pos.x - c.pos.x;
    let dy = b.pos.y - c.pos.y;
    assert(dx * dx >= 0 && dy * dy >= 0) by (nonlinear_arith);
    lemma_square_bound(dx, rs);
    lemma_square_bound(dy, rs);
    lemma_isqrt_exists(n);
    lemma_isqrt_range(n, isqrt_of(n), rs);
}

pub(crate) proof fn lemma_isqrt_exists(n: int)
    requires
        n >= 0,
    ensures
        is_isqrt(n, isqrt_of(n)),
    decreases n,
{
    if n == 0 {
        assert(is_isqrt(0, 0));
    } else {
        lemma_isqrt_exists(n - 1);
        let r = isqrt_of(n - 1);
        if (r + 1) * (r + 1) <= n {
            assert(n < (r + 2) * (r + 2)) by (nonlinear_arith)
                requires
                    n - 1 < (r + 1) * (r + 1),
                    r >= 0,
            ;
            assert(is_isqrt(n, r + 1));
        } else {
            assert(is_isqrt(n, r));
        }
    }
}

pub(crate) proof fn lemma_tdiv_odd(a: int, b: int)
    requires
        b > 0,
    ensures
        tdiv(-a, b) == -tdiv(a, b),
{
    if a == 0 {
        lemma_tdiv_sign(0, b);
    }
}

/// Rounding toward zero, `|tdiv(d * pen, 2 * dist)| * 2 * dist <= |d| * pen`.
proof fn lemma_push_of_bound(d: int, pen: int, dist: int)
    requires
        dist >= 1,
        pen >= 0,
    ensures
        abs_int(push_of(d, pen, dist)) * (2 * dist) <= abs_int(d) * pen,
        d >= 0 ==> push_of(d, pen, dist) >= 0,
        d <= 0 ==> push_of(d, pen, dist) <= 0,
{
    let m = 2 * dist;
    assert((d >= 0 ==> d * pen >= 0) && (d <= 0 ==> d * pen <= 0)) by (nonlinear_arith)
        requires
            pen >= 0,
    ;
    lemma_tdiv_sign(d * pen, m);
    if d >= 0 {
        let x = d * pen;
        assert((x / m) * m <= x && x / m >= 0) by (nonlinear_arith)
            requires
                x >= 0,
                m >= 2,
        ;
    } else {
        let x = (-d) * pen;
        assert(x >= 0 && d * pen == -x) by (nonlinear_arith)
            requires
                d < 0,
                pen >= 0,
                x == (-d) * pen,
        ;
        assert((x / m) * m <= x && x / m >= 0) by (nonlinear_arith)
            requires
                x >= 0,
                m >= 2,
        ;
    }
}

/// On one axis, a push rounded toward zero moves the offset out by no more
/// than the ratio of the sum of the radii to the distance.
proof fn lemma_axis_bound(d: int, pen: int, dist: int, rs: int)
    requires
        dist >= 1,
        pen >= 0,
        rs == dist + pen,
    ensures
        (d + 2 * push_of(d, pen, dist)) * (d + 2 * push_of(d, pen, dist)) * (dist * dist) <= d * d
            * (rs * rs),
{
    lemma_push_of_bound(d, pen, dist);
    let t = push_of(d, pen, dist);
    let a = abs_int(d);
    let q = abs_int(t);
    assert((d + 2 * t) * (d + 2 * t) == (a + 2 * q) * (a + 2 * q)) by (nonlinear_arith)
        requires
            d >= 0 ==> t >= 0,
            d <= 0 ==> t <= 0,
            a == abs_int(d),
            q == abs_int(t),
    ;
    assert((a + 2 * q) * dist <= a * rs) by (nonlinear_arith)
        requires
            q * (2 * dist) <= a * pen,
            rs == dist + pen,
    ;
    assert((a + 2 * q) * (a + 2 * q) * (dist * dist) <= a * a * (rs * rs)) by (nonlinear_arith)
        requires
            0 <= (a + 2 * q) * dist <= a * rs,
            a >= 0,
            q >= 0,
            dist >= 1,
    ;
    assert(a * a == d * d) by (nonlinear_arith)
        requires
            a == abs_int(d),
    ;
}

/// The corrections keep the sign of the offset on each axis, and at least
/// one of them is nonzero once the penetration is two ticks or more.
pub(crate) proof fn lemma_push_signs(dx: int, dy: int, pen: int, dist: int)
    requires
        dist >= 1,
        pen >= 0,
        dx != 0 || dy != 0,
    ensures
        dx >= 0 ==> push_x(dx, dy, pen, dist) >= 0,
        dx <= 0 ==> push_x(dx, dy, pen, dist) <= 0,
        dy >= 0 ==> push_y(dx, dy, pen, dist) >= 0,
        dy <= 0 ==> push_y(dx, dy, pen, dist) <= 0,
        abs_int(push_x(dx, dy, pen, dist)) <= abs_int(dx) * pen,
        abs_int(push_y(dx, dy, pen, dist)) <= abs_int(dy) * pen,
        pen >= 2 * SUBTICKS ==> push_x(dx, dy, pen, dist) != 0 || push_y(dx, dy, pen, dist) != 0,
        push_x(-dx, -dy, pen, dist) == -push_x(dx, dy, pen, dist),
        push_y(-dx, -dy, pen, dist) == -push_y(dx, dy, pen, dist),
{
    lemma_push_of_bound(dx, pen, dist);
    lemma_push_of_bound(dy, pen, dist);
    assert(abs_int(push_of(dx, pen, dist)) <= abs_int(dx) * pen) by (nonlinear_arith)
        requires
            abs_int(push_of(dx, pen, dist)) * (2 * dist) <= abs_int(dx) * pen,
            dist >= 1,
    ;
    assert(abs_int(push_of(dy, pen, dist)) <= abs_int(dy) * pen) by (nonlinear_arith)
        requires
            abs_int(push_of(dy, pen, dist)) * (2 * dist) <= abs_int(dy) * pen,
            dist >= 1,
    ;
    assert(pen >= 1 ==> abs_int(dx) * pen >= abs_int(dx) && abs_int(dy) * pen >= abs_int(dy))
        by (nonlinear_arith)
        requires
            abs_int(dx) >= 0,
            abs_int(dy) >= 0,
    ;
    assert((-dx) * pen == -(dx * pen) && (-dy) * pen == -(dy * pen)) by (nonlinear_arith);
    lemma_tdiv_odd(dx * pen, 2 * dist);
    lemma_tdiv_odd(dy * pen, 2 * dist);
}

/// A correction is no larger than the penetration in subticks, because
/// the distance in subticks is at least each axis offset in subticks.
proof fn lemma_push_small(dx: int, dy: int, pen: int, dist: int)
    requires
        dist >= 1,
        pen >= 0,
        dx * dx * (SUBTICKS * SUBTICKS) <= dist * dist,
        dy * dy * (SUBTICKS * SUBTICKS) <= dist * dist,
    ensures
        abs_int(push_x(dx, dy, pen, dist)) <= pen,
        abs_int(push_y(dx, dy, pen, dist)) <= pen,
{
    lemma_push_of_bound(dx, pen, dist);
    lemma_push_of_bound(dy, pen, dist);
    assert(dx * SUBTICKS * (dx * SUBTICKS) == dx * dx * (SUBTICKS * SUBTICKS)) by (nonlinear_arith);
    assert(dy * SUBTICKS * (dy * SUBTICKS) == dy * dy * (SUBTICKS * SUBTICKS)) by (nonlinear_arith);
    lemma_square_bound(dx * SUBTICKS, dist);
    lemma_square_bound(dy * SUBTICKS, dist);
    assert(abs_int(push_of(dx, pen, dist)) <= pen) by (nonlinear_arith)
        requires
            abs_int(push_of(dx, pen, dist)) * (2 * dist) <= abs_int(dx) * pen,
            abs_int(dx) * SUBTICKS <= dist,
            dist >= 1,
            pen >= 0,
            abs_int(dx) >= 0,
            abs_int(push_of(dx, pen, dist)) >= 0,
    ;
    assert(abs_int(push_of(dy, pen, dist)) <= pen) by (nonlinear_arith)
        requires
            abs_int(push_of(dy, pen, dist)) * (2 * dist) <= abs_int(dy) * pen,
            abs_int(dy) * SUBTICKS <= dist,
            dist >= 1,
            pen >= 0,
            abs_int(dy) >= 0,
            abs_int(push_of(dy, pen, dist)) >= 0,
    ;
}

/// After both balls of an overlapping pair take their corrections, their
/// offset on each axis has grown by twice the correction, and the new
/// separation is at most the sum of the radii `rs`.
pub(crate) proof fn lemma_push_bound(dx: int, dy: int, pen: int, dist: int, rs: int)
    requires
        dist >= 1,
        pen >= 0,
        rs * SUBTICKS == dist + pen,
        1 <= dx * dx + dy * dy,
        (dx * dx + dy * dy) * (SUBTICKS * SUBTICKS) <= dist * dist,
    ensures
        (dx + 2 * push_x(dx, dy, pen, dist)) * (dx + 2 * push_x(dx, dy, pen, dist)) + (dy + 2
            * push_y(dx, dy, pen, dist)) * (dy + 2 * push_y(dx, dy, pen, dist)) <= rs * rs,
{
    let tx = push_of(dx, pen, dist);
    let ty = push_of(dy, pen, dist);
    let n = dx * dx + dy * dy;
    let big = rs * SUBTICKS;
    assert(dx * dx >= 0 && dy * dy >= 0) by (nonlinear_arith);
    if tx == 0 && ty == 0 && pen >= 2 * SUBTICKS {
        assert(n <= (rs - 2) * (rs - 2)) by (nonlinear_arith)
            requires
                n * (SUBTICKS * SUBTICKS) <= dist * dist,
                1 <= dist <= (rs - 2) * SUBTICKS,
        ;
        assert(rs >= 2) by (nonlinear_arith)
            requires
                1 <= dist <= (rs - 2) * SUBTICKS,
        ;
        lemma_square_bound(dx, rs - 2);
        lemma_square_bound(dy, rs - 2);
        if abs_int(dx) >= abs_int(dy) {
            assert((dx + 2 * sign_int(dx)) * (dx + 2 * sign_int(dx)) + dy * dy <= rs * rs)
                by (nonlinear_arith)
                requires
                    -(rs - 2) <= dx <= rs - 2,
                    n == dx * dx + dy * dy,
                    n <= (rs - 2) * (rs - 2),
                    rs >= 2,
                    sign_int(dx) == (if dx > 0 {
                        1int
                    } else if dx < 0 {
                        -1int
                    } else {
                        0int
                    }),
            ;
        } else {
            assert(dx * dx + (dy + 2 * sign_int(dy)) * (dy + 2 * sign_int(dy)) <= rs * rs)
                by (nonlinear_arith)
                requires
                    -(rs - 2) <= dy <= rs - 2,
                    n == dx * dx + dy * dy,
                    n <= (rs - 2) * (rs - 2),
                    rs >= 2,
                    sign_int(dy) == (if dy > 0 {
                        1int
                    } else if dy < 0 {
                        -1int
                    } else {
                        0int
                    }),
            ;
        }
    } else {
        lemma_axis_bound(dx, pen, dist, big);
        lemma_axis_bound(dy, pen, dist, big);
        let x2 = (dx + 2 * tx) * (dx + 2 * tx);
        let y2 = (dy + 2 * ty) * (dy + 2 * ty);
        assert(x2 + y2 <= rs * rs) by (nonlinear_arith)
            requires
                x2 * (dist * dist) <= dx * dx * (big * big),
                y2 * (dist * dist) <= dy * dy * (big * big),
                (dx * dx + dy * dy) * (SUBTICKS * SUBTICKS) <= dist * dist,
                big == rs * SUBTICKS,
                dist >= 1,
        ;
    }
}

/// What one overlapping neighbour off the centre does to a fresh scan: the
/// position moves by the corrections, and the pressure grows by the
/// squared half penetration.
pub(crate) proof fn lemma_overlap_step(b: Ball, c: Ball, nudge: int)
    requires
        b.wf(),
        c.wf(),
        b.id != c.id,
        centre_inside(b),
        overlaps(b, c),
        dist_sq(b.pos, c.pos) != 0,
    ensures
        ({
            let n = dist_sq(b.pos, c.pos) * (SUBTICKS * SUBTICKS);
            let dist = csqrt_of(n);
            let pen = (b.size + c.size) * SUBTICKS - dist;
            let dx = b.pos.x - c.pos.x;
            let dy = b.pos.y - c.pos.y;
            let st2 = pair_step(scan_start(b), c, nudge);
            &&& 1 <= dist <= (b.size + c.size) * SUBTICKS
            &&& n <= dist * dist
            &&& (dist - 1) * (dist - 1) < n
            &&& st2.pos.x == b.pos.x + push_x(dx, dy, pen, dist)
            &&& st2.pos.y == b.pos.y + push_y(dx, dy, pen, dist)
            &&& st2.live.pressure_stat == clamp_int(
                b.pressure_stat + pressure_of((b.size + c.size) * SUBTICKS - isqrt_of(n)),
                0,
                PRESSURE_LIMIT as int,
            )
        }),
{
    lemma_overlap_facts(b, c);
    let d2 = dist_sq(b.pos, c.pos);
    let n = d2 * (SUBTICKS * SUBTICKS);
    let rs = b.size + c.size;
    let big = rs * SUBTICKS;
    let dx = b.pos.x - c.pos.x;
    let dy = b.pos.y - c.pos.y;
    assert(dx * dx >= 0 && dy * dy >= 0) by (nonlinear_arith);
    assert(1 <= n <= big * big) by (nonlinear_arith)
        requires
            1 <= d2 <= rs * rs,
            n == d2 * (SUBTICKS * SUBTICKS),
            big == rs * SUBTICKS,
    ;
    assert(big <= 680_000_000) by (nonlinear_arith)
        requires
            big == rs * SUBTICKS,
            rs <= 680_000,
    ;
    lemma_csqrt_range(n, big);
    let dist = csqrt_of(n);
    let pen = big - dist;
    lemma_push_signs(dx, dy, pen, dist);
    assert(dx * dx * (SUBTICKS * SUBTICKS) <= dist * dist && dy * dy * (SUBTICKS * SUBTICKS)
        <= dist * dist) by (nonlinear_arith)
        requires
            n == (dx * dx + dy * dy) * (SUBTICKS * SUBTICKS),
            n <= dist * dist,
            dx * dx >= 0,
            dy * dy >= 0,
    ;
    lemma_push_small(dx, dy, pen, dist);
    let px = push_x(dx, dy, pen, dist);
    let py = push_y(dx, dy, pen, dist);
    let st2 = pair_step(scan_start(b), c, nudge);
    assert(clamp_pos(b.pos.x + px) == b.pos.x + px);
    assert(clamp_pos(b.pos.y + py) == b.pos.y + py);
}

/// Against an overlapping neighbour off its centre, the corrected position
/// of a ball is no closer to the neighbour than before; it is strictly
/// farther once the centres are at least two ticks inside the sum of the
/// radii.
pub proof fn lemma_overlap_separates(b: Ball, c: Ball, nudge: int)
    requires
        b.wf(),
        c.wf(),
        b.id != c.id,
        centre_inside(b),
        overlaps(b, c),
        dist_sq(b.pos, c.pos) != 0,
    ensures
        dist_sq(pair_step(scan_start(b), c, nudge).pos, c.pos) >= dist_sq(b.pos, c.pos),
        dist_sq(b.pos, c.pos) <= (b.size + c.size - 2) * (b.size + c.size - 2) ==> dist_sq(
            pair_step(scan_start(b), c, nudge).pos,
            c.pos,
        ) > dist_sq(b.pos, c.pos),
{
    lemma_overlap_step(b, c, nudge);
    let d2 = dist_sq(b.pos, c.pos);
    let n = d2 * (SUBTICKS * SUBTICKS);
    let rs = b.size + c.size;
    let dist = csqrt_of(n);
    let pen = rs * SUBTICKS - dist;
    let dx = b.pos.x - c.pos.x;
    let dy = b.pos.y - c.pos.y;
    lemma_push_signs(dx, dy, pen, dist);
    lemma_push_away(dx, push_x(dx, dy, pen, dist));
    lemma_push_away(dy, push_y(dx, dy, pen, dist));
    if d2 <= (rs - 2) * (rs - 2) {
        lemma_pen_two(d2, dist, rs);
    }
}

/// Centres at least two ticks inside the sum of the radii `rs` leave a
/// penetration of two ticks or more against the distance in subticks
/// rounded up.
pub(crate) proof fn lemma_pen_two(d2: int, dist: int, rs: int)
    requires
        d2 <= (rs - 2) * (rs - 2),
        (dist - 1) * (dist - 1) < d2 * (SUBTICKS * SUBTICKS),
        dist >= 1,
        rs >= 2,
    ensures
        rs * SUBTICKS - dist >= 2 * SUBTICKS,
{
    let k = (rs - 2) * SUBTICKS;
    assert(d2 * (SUBTICKS * SUBTICKS) <= k * k) by (nonlinear_arith)
        requires
            d2 <= (rs - 2) * (rs - 2),
            k == (rs - 2) * SUBTICKS,
    ;
    if dist - 1 >= k {
        assert((dist - 1) * (dist - 1) >= k * k) by (nonlinear_arith)
            requires
                dist - 1 >= k >= 0,
        ;
    }
}

/// A neighbour whose centre lies at or beyond the sum of the radii leaves
/// the scan exactly as it was: no position, velocity or pressure change.
pub proof fn lemma_apart_no_correction(st: Scan, c: Ball, nudge: int)
    requires
        st.wf(),
        c.wf(),
        dist_sq(st.live.pos, c.pos) >= (st.live.size + c.size) * (st.live.size + c.size),
    ensures
        pair_step(st, c, nudge) == st,
{
    let b = st.live;
    let rs = b.size + c.size;
    if c.id != b.id && overlaps(b, c) {
        assert(dist_sq(b.pos, c.pos) == rs * rs);
        let big = rs * SUBTICKS;
        assert(rs * rs * (SUBTICKS * SUBTICKS) == big * big) by (nonlinear_arith)
            requires
                big == rs * SUBTICKS,
        ;
        assert(big * big > 0 && big * big < (big + 1) * (big + 1)) by (nonlinear_arith)
            requires
                big > 0,
        ;
        assert(is_isqrt(big * big, big));
        lemma_isqrt_unique(big * big, big);
        assert(csqrt_of(big * big) == big);
        let rs = big;
        let dx = b.pos.x - c.pos.x;
        let dy = b.pos.y - c.pos.y;
        assert(dx * 0 == 0 && dy * 0 == 0) by (nonlinear_arith);
        lemma_tdiv_sign(dx * 0, 2 * rs);
        lemma_tdiv_sign(dy * 0, 2 * rs);
        assert(push_x(dx, dy, 0, rs) == 0);
        assert(push_y(dx, dy, 0, rs) == 0);
        assert(0 * 0 == 0);
        assert(4 * SUBTICKS * SUBTICKS == 4_000_000);
        assert(3_999_999int / 4_000_000int == 0);
        assert(pressure_of(0) == 0);
        let esum = b.elasticity + c.elasticity;
        assert(dx * 0 * esum * VELOCITY_GAIN == 0 && dy * 0 * esum * VELOCITY_GAIN == 0)
            by (nonlinear_arith);
        assert(2 * ELASTICITY_ONE * rs > 0) by (nonlinear_arith)
            requires
                rs > 0,
        ;
        lemma_tdiv_sign(dx * 0 * esum * VELOCITY_GAIN, 2 * ELASTICITY_ONE * rs);
        lemma_tdiv_sign(dy * 0 * esum * VELOCITY_GAIN, 2 * ELASTICITY_ONE * rs);
        assert(kick_of(dx, 0, esum, rs) == 0);
        assert(kick_of(dy, 0, esum, rs) == 0);
        let r = pair_step(st, c, nudge);
        assert(r.pos == st.pos);
        assert(r.vel == st.vel);
        assert(r.live.pressure_stat == st.live.pressure_stat);
        assert(r.live == st.live);
    }
}

/// A ball on the exact centre of a neighbour is moved `nudge` ticks along x,
/// a bounded nonzero offset, and nothing else of it changes.
pub proof fn lemma_common_centre_nudges(b: Ball, c: Ball, nudge: int)
    requires
        b.wf(),
        c.wf(),
        b.id != c.id,
        centre_inside(b),
        b.pos == c.pos,
        1 <= nudge <= NUDGE_MAX,
    ensures
        pair_step(scan_start(b), c, nudge).pos == (Vector2 { x: (b.pos.x + nudge) as i64, ..b.pos }),
        pair_step(scan_start(b), c, nudge).vel == b.velocity,
        pair_step(scan_start(b), c, nudge).live.pressure_stat == b.pressure_stat,
{
    assert(dist_sq(b.pos, c.pos) == 0);
    assert((b.size + c.size) * (b.size + c.size) >= 0) by (nonlinear_arith);
}

/// Against a neighbour that overlaps it strictly, off its centre, the
/// pressure of a ball grows by the squared half penetration, rounded up,
/// which is at least one: the pressure ends positive and not below where it
/// was.
pub proof fn lemma_overlap_pressure(b: Ball, c: Ball, nudge: int)
    requires
        b.wf(),
        c.wf(),
        b.id != c.id,
        centre_inside(b),
        dist_sq(b.pos, c.pos) < (b.size + c.size) * (b.size + c.size),
        dist_sq(b.pos, c.pos) != 0,
    ensures
        pair_step(scan_start(b), c, nudge).live.pressure_stat == clamp_int(
            b.pressure_stat + pressure_of(
                (b.size + c.size) * SUBTICKS - isqrt_of(dist_sq(b.pos, c.pos) * (SUBTICKS * SUBTICKS)),
            ),
            0,
            PRESSURE_LIMIT as int,
        ),
        pressure_of(
            (b.size + c.size) * SUBTICKS - isqrt_of(dist_sq(b.pos, c.pos) * (SUBTICKS * SUBTICKS)),
        ) >= 1,
        pair_step(scan_start(b), c, nudge).live.pressure_stat >= b.pressure_stat,
        pair_step(scan_start(b), c, nudge).live.pressure_stat > 0,
{
    lemma_overlap_step(b, c, nudge);
    let d2 = dist_sq(b.pos, c.pos);
    let n = d2 * (SUBTICKS * SUBTICKS);
    let rs = b.size + c.size;
    let big = rs * SUBTICKS;
    assert((b.pos.x - c.pos.x) * (b.pos.x - c.pos.x) >= 0 && (b.pos.y - c.pos.y) * (b.pos.y
        - c.pos.y) >= 0) by (nonlinear_arith);
    assert(0 <= n < big * big) by (nonlinear_arith)
        requires
            0 <= d2 < rs * rs,
            n == d2 * (SUBTICKS * SUBTICKS),
            big == rs * SUBTICKS,
    ;
    let f = isqrt_of(n);
    lemma_isqrt_exists(n);
    if f >= big {
        assert(f * f >= big * big) by (nonlinear_arith)
            requires
                f >= big > 0,
        ;
    }
    let depth = big - f;
    assert(4 * SUBTICKS * SUBTICKS == 4_000_000);
    assert((depth * depth + 4 * SUBTICKS * SUBTICKS - 1) / (4 * SUBTICKS * SUBTICKS) >= 1)
        by (nonlinear_arith)
        requires
            depth >= 1,
    ;
}

} // verus!
