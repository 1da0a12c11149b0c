use vstd::prelude::*;

use crate::body::{abs_int, clamp_int, Ball, Vector2, PRESSURE_LIMIT};
use crate::boundary::centre_inside;
use crate::collision::{
    csqrt_of, dist_sq, isqrt_of, lemma_apart_no_correction, lemma_pen_two, lemma_push_bound,
    lemma_push_signs, pressure_of, push_x, push_y, lemma_common_centre_nudges, lemma_overlap_facts, lemma_overlap_pressure, lemma_overlap_step,
    lemma_push_away, offset_x, offset_y, overlaps, pair_step, push_of, resolved, scan_bucket,
    scan_cells, scan_start, Scan, NUDGE_MAX, SUBTICKS,
};
use crate::grid::{bucket, bucket_index, chunk_x, chunk_y, grid_index, in_grid, CHUNK_SIZE};

verus! {

/// One of the first `k` cells around `a` lies in the grid and is `b`'s cell.
spec fn cell_hit(a: Ball, b: Ball, k: int) -> bool {
    exists|j: int|
        0 <= j < k && #[trigger] in_grid(chunk_x(a) + offset_x(j), chunk_y(a) + offset_y(j))
            && grid_index(chunk_x(a) + offset_x(j), chunk_y(a) + offset_y(j)) == bucket_index(b)
}

proof fn lemma_bucket_of_two(a: Ball, b: Ball, k: int)
    ensures
        bucket(seq![a, b], k) == (if bucket_index(a) == k {
            seq![a]
        } else {
            Seq::<Ball>::empty()
        }) + (if bucket_index(b) == k {
            seq![b]
        } else {
            Seq::<Ball>::empty()
        }),
{
    let s = seq![a, b];
    assert(s.drop_last() =~= seq![a]);
    assert(seq![a].drop_last() =~= Seq::<Ball>::empty());
    assert(s.last() == b);
    assert(seq![a].last() == a);
    let lhs = bucket(s, k);
    let one = bucket(seq![a], k);
    assert(bucket(Seq::<Ball>::empty(), k) == Seq::<Ball>::empty());
    if bucket_index(a) == k {
        assert(one =~= seq![a]);
    } else {
        assert(one =~= Seq::<Ball>::empty());
    }
    if bucket_index(b) == k {
        assert(lhs =~= one.push(b));
    } else {
        assert(lhs =~= one);
    }
    assert(lhs =~= (if bucket_index(a) == k {
        seq![a]
    } else {
        Seq::<Ball>::empty()
    }) + (if bucket_index(b) == k {
        seq![b]
    } else {
        Seq::<Ball>::empty()
    }));
}

/// The two balls in the given order.
spec fn world(s: Ball, o: Ball, first: bool) -> Seq<Ball> {
    if first {
        seq![s, o]
    } else {
        seq![o, s]
    }
}

proof fn lemma_scan_two(st: Scan, sb: Ball, o: Ball, k: int, nudge: int, first: bool)
    requires
        st.live.id == sb.id,
        sb.id != o.id,
    ensures
        scan_bucket(st, bucket(world(sb, o, first), k), nudge) == if bucket_index(o) == k {
            pair_step(st, o, nudge)
        } else {
            st
        },
{
    let e = Seq::<Ball>::empty();
    assert(scan_bucket(st, e, nudge) == st);
    assert(seq![sb].drop_last() =~= e);
    assert(seq![o].drop_last() =~= e);
    assert(scan_bucket(st, seq![sb], nudge) == pair_step(st, sb, nudge));
    assert(pair_step(st, sb, nudge) == st);
    let p = pair_step(st, o, nudge);
    assert(scan_bucket(st, seq![o], nudge) == p);
    assert(p.live.id == sb.id);
    assert(pair_step(p, sb, nudge) == p);
    if first {
        lemma_bucket_of_two(sb, o, k);
        let bk = bucket(seq![sb, o], k);
        if bucket_index(sb) == k && bucket_index(o) == k {
            assert(bk =~= seq![sb, o]);
            assert(seq![sb, o].drop_last() =~= seq![sb]);
        } else if bucket_index(sb) == k {
            assert(bk =~= seq![sb]);
        } else if bucket_index(o) == k {
            assert(bk =~= seq![o]);
        } else {
            assert(bk =~= e);
        }
    } else {
        lemma_bucket_of_two(o, sb, k);
        let bk = bucket(seq![o, sb], k);
        if bucket_index(sb) == k && bucket_index(o) == k {
            assert(bk =~= seq![o, sb]);
            assert(seq![o, sb].drop_last() =~= seq![o]);
        } else if bucket_index(sb) == k {
            assert(bk =~= seq![sb]);
        } else if bucket_index(o) == k {
            assert(bk =~= seq![o]);
        } else {
            assert(bk =~= e);
        }
    }
}

proof fn lemma_cells_distinct(cx: int, cy: int, j: int, k: int)
    requires
        0 <= j < k < 9,
        in_grid(cx + offset_x(j), cy + offset_y(j)),
        in_grid(cx + offset_x(k), cy + offset_y(k)),
    ensures
        grid_index(cx + offset_x(j), cy + offset_y(j)) != grid_index(cx + offset_x(k), cy + offset_y(k)),
{
    let xj = cx + offset_x(j);
    let yj = cy + offset_y(j);
    let xk = cx + offset_x(k);
    let yk = cy + offset_y(k);
    assert(j == 3 * (j / 3) + j % 3);
    assert(k == 3 * (k / 3) + k % 3);
    assert(xj != xk || yj != yk);
    assert(grid_index(xj, yj) == 129 * yj + xj);
    assert(grid_index(xk, yk) == 129 * yk + xk);
    if yj < yk {
        assert(129 * yj + xj < 129 * yk + xk) by (nonlinear_arith)
            requires
                yj < yk,
                0 <= xj < 129,
                0 <= xk < 129,
        ;
    } else if yk < yj {
        assert(129 * yk + xk < 129 * yj + xj) by (nonlinear_arith)
            requires
                yk < yj,
                0 <= xj < 129,
                0 <= xk < 129,
        ;
    }
}

/// The scan of `a` over the first `k` cells around it, in a world of `a`
/// and `b` alone, meets `b` once if one of those cells is `b`'s, else not.
proof fn lemma_scan_cells_two(a: Ball, b: Ball, k: int, nudge: int, first: bool)
    requires
        0 <= k <= 9,
        a.id != b.id,
    ensures
        scan_cells(scan_start(a), world(a, b, first), chunk_x(a), chunk_y(a), k, nudge) == if cell_hit(
            a,
            b,
            k,
        ) {
            pair_step(scan_start(a), b, nudge)
        } else {
            scan_start(a)
        },
    decreases k,
{
    let cx = chunk_x(a);
    let cy = chunk_y(a);
    let snap = world(a, b, first);
    let p = pair_step(scan_start(a), b, nudge);
    if k > 0 {
        lemma_scan_cells_two(a, b, k - 1, nudge, first);
        let prev = scan_cells(scan_start(a), snap, cx, cy, k - 1, nudge);
        let x = cx + offset_x(k - 1);
        let y = cy + offset_y(k - 1);
        assert(p.live.id == a.id);
        if in_grid(x, y) {
            lemma_scan_two(prev, a, b, grid_index(x, y), nudge, first);
            if grid_index(x, y) == bucket_index(b) {
                if cell_hit(a, b, k - 1) {
                    let j = choose|j: int|
                        0 <= j < k - 1 && #[trigger] in_grid(cx + offset_x(j), cy + offset_y(j))
                            && grid_index(cx + offset_x(j), cy + offset_y(j)) == bucket_index(b);
                    lemma_cells_distinct(cx, cy, j, k - 1);
                }
                assert(cell_hit(a, b, k));
            } else {
                if cell_hit(a, b, k) {
                    let j = choose|j: int|
                        0 <= j < k && #[trigger] in_grid(cx + offset_x(j), cy + offset_y(j))
                            && grid_index(cx + offset_x(j), cy + offset_y(j)) == bucket_index(b);
                    assert(j < k - 1);
                    assert(cell_hit(a, b, k - 1));
                }
                if cell_hit(a, b, k - 1) {
                    let j = choose|j: int|
                        0 <= j < k - 1 && #[trigger] in_grid(cx + offset_x(j), cy + offset_y(j))
                            && grid_index(cx + offset_x(j), cy + offset_y(j)) == bucket_index(b);
                    assert(0 <= j < k && in_grid(cx + offset_x(j), cy + offset_y(j)));
                    assert(cell_hit(a, b, k));
                }
            }
        } else {
            if cell_hit(a, b, k) {
                let j = choose|j: int|
                    0 <= j < k && #[trigger] in_grid(cx + offset_x(j), cy + offset_y(j))
                        && grid_index(cx + offset_x(j), cy + offset_y(j)) == bucket_index(b);
                assert(j < k - 1);
                assert(cell_hit(a, b, k - 1));
            }
            if cell_hit(a, b, k - 1) {
                let j = choose|j: int|
                    0 <= j < k - 1 && #[trigger] in_grid(cx + offset_x(j), cy + offset_y(j))
                        && grid_index(cx + offset_x(j), cy + offset_y(j)) == bucket_index(b);
                assert(0 <= j < k && in_grid(cx + offset_x(j), cy + offset_y(j)));
                assert(cell_hit(a, b, k));
            }
        }
    } else {
        assert(!cell_hit(a, b, 0));
    }
}

proof fn lemma_neighbour_cell(a: Ball, b: Ball)
    requires
        a.wf(),
        b.wf(),
        centre_inside(a),
        centre_inside(b),
        abs_int(a.pos.x - b.pos.x) <= CHUNK_SIZE,
        abs_int(a.pos.y - b.pos.y) <= CHUNK_SIZE,
    ensures
        cell_hit(a, b, 9),
{
    let pa = a.pos.x + 640_000;
    let pb = b.pos.x + 640_000;
    let qa = a.pos.y + 340_000;
    let qb = b.pos.y + 340_000;
    assert(0 <= pb / 10_000 <= 128 && 0 <= qb / 10_000 <= 68) by (nonlinear_arith)
        requires
            0 <= pb <= 1_280_000,
            0 <= qb <= 680_000,
    ;
    assert(-1 <= pb / 10_000 - pa / 10_000 <= 1) by (nonlinear_arith)
        requires
            0 <= pa,
            0 <= pb,
            -10_000 <= pa - pb <= 10_000,
    ;
    assert(-1 <= qb / 10_000 - qa / 10_000 <= 1) by (nonlinear_arith)
        requires
            0 <= qa,
            0 <= qb,
            -10_000 <= qa - qb <= 10_000,
    ;
    let ox = chunk_x(b) - chunk_x(a);
    let oy = chunk_y(b) - chunk_y(a);
    let j = (1 - ox) * 3 + (1 - oy);
    assert(offset_x(j) == ox);
    assert(offset_y(j) == oy);
    assert(in_grid(chunk_x(a) + offset_x(j), chunk_y(a) + offset_y(j)));
}

/// Two balls of one radius `r`, no more than half a grid cell, with centres
/// inside the container that overlap off each other's centre, are no
/// closer after one resolver pass over the two of them, and no farther
/// apart than `2r`; they are strictly farther apart once their centres are
/// at least two ticks inside `2r`.
pub proof fn lemma_pass_separates_pair(a: Ball, b: Ball, na: int, nb: int)
    requires
        a.wf(),
        b.wf(),
        a.id != b.id,
        a.size == b.size,
        2 * a.size <= CHUNK_SIZE,
        centre_inside(a),
        centre_inside(b),
        overlaps(a, b),
        dist_sq(a.pos, b.pos) != 0,
    ensures
        dist_sq(resolved(a, seq![a, b], na).pos, resolved(b, seq![a, b], nb).pos) >= dist_sq(
            a.pos,
            b.pos,
        ),
        dist_sq(resolved(a, seq![a, b], na).pos, resolved(b, seq![a, b], nb).pos) <= (a.size
            + b.size) * (a.size + b.size),
        dist_sq(a.pos, b.pos) <= (a.size + b.size - 2) * (a.size + b.size - 2) ==> dist_sq(
            resolved(a, seq![a, b], na).pos,
            resolved(b, seq![a, b], nb).pos,
        ) > dist_sq(a.pos, b.pos),
{
    let dx = a.pos.x - b.pos.x;
    let dy = a.pos.y - b.pos.y;
    assert(dist_sq(b.pos, a.pos) == dist_sq(a.pos, b.pos)) by (nonlinear_arith)
        requires
            dist_sq(b.pos, a.pos) == (-dx) * (-dx) + (-dy) * (-dy),
            dist_sq(a.pos, b.pos) == dx * dx + dy * dy,
    ;
    assert(overlaps(b, a));
    lemma_overlap_facts(a, b);
    lemma_overlap_step(a, b, na);
    lemma_overlap_step(b, a, nb);
    lemma_neighbour_cell(a, b);
    lemma_neighbour_cell(b, a);
    lemma_scan_cells_two(a, b, 9, na, true);
    lemma_scan_cells_two(b, a, 9, nb, false);
    assert(world(a, b, true) == seq![a, b]);
    assert(world(b, a, false) == seq![a, b]);
    let d2 = dist_sq(a.pos, b.pos);
    let n = d2 * (SUBTICKS * SUBTICKS);
    let rs = a.size + b.size;
    let dist = csqrt_of(n);
    let pen = rs * SUBTICKS - dist;
    lemma_push_signs(dx, dy, pen, dist);
    let px = push_x(dx, dy, pen, dist);
    let py = push_y(dx, dy, pen, dist);
    assert(b.pos.x - a.pos.x == -dx && b.pos.y - a.pos.y == -dy);
    let ra = resolved(a, seq![a, b], na);
    let rb = resolved(b, seq![a, b], nb);
    assert(ra.pos.x - rb.pos.x == dx + 2 * px);
    assert(ra.pos.y - rb.pos.y == dy + 2 * py);
    lemma_push_away(dx, 2 * px);
    lemma_push_away(dy, 2 * py);
    assert(dx * dx >= 0 && dy * dy >= 0) by (nonlinear_arith);
    lemma_push_bound(dx, dy, pen, dist, rs);
    if d2 <= (rs - 2) * (rs - 2) {
        lemma_pen_two(d2, dist, rs);
    }
}

/// In a resolver pass over two balls, no more than half a grid cell each
/// in radius, with centres inside the container that overlap strictly off
/// each other's centre, the pressure of each grows by the squared half
/// penetration rounded up, which is at least one: it ends positive and not
/// below where it was.
pub proof fn lemma_pass_pressure_pair(a: Ball, b: Ball, na: int, nb: int)
    requires
        a.wf(),
        b.wf(),
        a.id != b.id,
        a.size + b.size <= CHUNK_SIZE,
        centre_inside(a),
        centre_inside(b),
        dist_sq(a.pos, b.pos) < (a.size + b.size) * (a.size + b.size),
        dist_sq(a.pos, b.pos) != 0,
    ensures
        resolved(a, seq![a, b], na).pressure_stat == clamp_int(
            a.pressure_stat + pressure_of(
                (a.size + b.size) * SUBTICKS - isqrt_of(dist_sq(a.pos, b.pos) * (SUBTICKS * SUBTICKS)),
            ),
            0,
            PRESSURE_LIMIT as int,
        ),
        resolved(b, seq![a, b], nb).pressure_stat == clamp_int(
            b.pressure_stat + pressure_of(
                (a.size + b.size) * SUBTICKS - isqrt_of(dist_sq(a.pos, b.pos) * (SUBTICKS * SUBTICKS)),
            ),
            0,
            PRESSURE_LIMIT as int,
        ),
        resolved(a, seq![a, b], na).pressure_stat >= a.pressure_stat,
        resolved(b, seq![a, b], nb).pressure_stat >= b.pressure_stat,
        resolved(a, seq![a, b], na).pressure_stat > 0,
        resolved(b, seq![a, b], nb).pressure_stat > 0,
{
    let dx = a.pos.x - b.pos.x;
    let dy = a.pos.y - b.pos.y;
    assert(dist_sq(b.pos, a.pos) == dist_sq(a.pos, b.pos)) by (nonlinear_arith)
        requires
            dist_sq(b.pos, a.pos) == (-dx) * (-dx) + (-dy) * (-dy),
            dist_sq(a.pos, b.pos) == dx * dx + dy * dy,
    ;
    assert((b.size + a.size) == (a.size + b.size));
    lemma_overlap_facts(a, b);
    lemma_neighbour_cell(a, b);
    lemma_neighbour_cell(b, a);
    lemma_scan_cells_two(a, b, 9, na, true);
    lemma_scan_cells_two(b, a, 9, nb, false);
    assert(world(a, b, true) == seq![a, b]);
    assert(world(b, a, false) == seq![a, b]);
    lemma_overlap_pressure(a, b, na);
    lemma_overlap_pressure(b, a, nb);
}

/// In a resolver pass over two balls on one centre inside the container,
/// each is moved by its own nudge along x, a bounded nonzero offset, and
/// its velocity and pressure stay as they were.
pub proof fn lemma_pass_nudges_pair(a: Ball, b: Ball, na: int, nb: int)
    requires
        a.wf(),
        b.wf(),
        a.id != b.id,
        centre_inside(a),
        a.pos == b.pos,
        1 <= na <= NUDGE_MAX,
        1 <= nb <= NUDGE_MAX,
    ensures
        resolved(a, seq![a, b], na).pos == (Vector2 { x: (a.pos.x + na) as i64, ..a.pos }),
        resolved(a, seq![a, b], na).velocity == a.velocity,
        resolved(a, seq![a, b], na).pressure_stat == a.pressure_stat,
        resolved(b, seq![a, b], nb).pos == (Vector2 { x: (b.pos.x + nb) as i64, ..b.pos }),
        resolved(b, seq![a, b], nb).velocity == b.velocity,
        resolved(b, seq![a, b], nb).pressure_stat == b.pressure_stat,
{
    lemma_neighbour_cell(a, b);
    lemma_neighbour_cell(b, a);
    lemma_scan_cells_two(a, b, 9, na, true);
    lemma_scan_cells_two(b, a, 9, nb, false);
    assert(world(a, b, true) == seq![a, b]);
    assert(world(b, a, false) == seq![a, b]);
    lemma_common_centre_nudges(a, b, na);
    lemma_common_centre_nudges(b, a, nb);
}

/// In a resolver pass over two balls whose centres lie at or beyond the
/// sum of their radii, neither is corrected: each comes out as it went in.
pub proof fn lemma_pass_apart_pair(a: Ball, b: Ball, na: int, nb: int)
    requires
        a.wf(),
        b.wf(),
        a.id != b.id,
        dist_sq(a.pos, b.pos) >= (a.size + b.size) * (a.size + b.size),
    ensures
        resolved(a, seq![a, b], na) == a,
        resolved(b, seq![a, b], nb) == b,
{
    let dx = a.pos.x - b.pos.x;
    let dy = a.pos.y - b.pos.y;
    assert(dist_sq(b.pos, a.pos) == dist_sq(a.pos, b.pos)) by (nonlinear_arith)
        requires
            dist_sq(b.pos, a.pos) == (-dx) * (-dx) + (-dy) * (-dy),
            dist_sq(a.pos, b.pos) == dx * dx + dy * dy,
    ;
    assert((b.size + a.size) * (b.size + a.size) == (a.size + b.size) * (a.size + b.size));
    lemma_scan_cells_two(a, b, 9, na, true);
    lemma_scan_cells_two(b, a, 9, nb, false);
    assert(world(a, b, true) == seq![a, b]);
    assert(world(b, a, false) == seq![a, b]);
    lemma_apart_no_correction(scan_start(a), b, na);
    lemma_apart_no_correction(scan_start(b), a, nb);
}

proof fn lemma_lone_cells(b: Ball, k: int, nudge: int)
    requires
        0 <= k <= 9,
    ensures
        scan_cells(scan_start(b), seq![b], chunk_x(b), chunk_y(b), k, nudge) == scan_start(b),
    decreases k,
{
    if k > 0 {
        lemma_lone_cells(b, k - 1, nudge);
        let x = chunk_x(b) + offset_x(k - 1);
        let y = chunk_y(b) + offset_y(k - 1);
        let idx = grid_index(x, y);
        let st = scan_start(b);
        let e = Seq::<Ball>::empty();
        assert(seq![b].drop_last() =~= e);
        assert(seq![b].last() == b);
        assert(bucket(e, idx) == e);
        assert(scan_bucket(st, e, nudge) == st);
        if bucket_index(b) == idx {
            assert(bucket(seq![b], idx) =~= seq![b]);
            assert(scan_bucket(st, seq![b], nudge) == pair_step(st, b, nudge));
        } else {
            assert(bucket(seq![b], idx) =~= e);
        }
    }
}

/// A ball alone comes out of a resolver pass as it went in.
pub proof fn lemma_lone_resolved(b: Ball, nudge: int)
    ensures
        resolved(b, seq![b], nudge) == b,
{
    lemma_lone_cells(b, 9, nudge);
}

} // verus!
