use vstd::prelude::*;

use crate::body::{clamp_int, tdiv, trunc_div, Ball, Vector2, HALF_HEIGHT, HALF_WIDTH, POSITION_LIMIT};

verus! {

/// Side of a square grid cell, in ticks.
pub const CHUNK_SIZE: i64 = 10_000;
/// Number of grid columns: the container's width in cells, plus one.
pub const GRID_WIDTH: i64 = 129;
/// Number of grid rows: the container's height in cells, plus one.
pub const GRID_HEIGHT: i64 = 69;
/// Number of grid cells.
pub const GRID_LEN: usize = 8901;

/// The cell coordinate of position `p` on an axis of half-extent `half`,
/// rounding toward zero.
pub open spec fn chunk_coord(p: int, half: int) -> int {
    tdiv(p + half, CHUNK_SIZE as int)
}

pub open spec fn chunk_x(b: Ball) -> int {
    chunk_coord(b.pos.x as int, HALF_WIDTH as int)
}

pub open spec fn chunk_y(b: Ball) -> int {
    chunk_coord(b.pos.y as int, HALF_HEIGHT as int)
}

/// The cell coordinate lies inside the grid.
pub open spec fn in_grid(cx: int, cy: int) -> bool {
    0 <= cx < GRID_WIDTH && 0 <= cy < GRID_HEIGHT
}

/// Index of the cell at `(cx, cy)`, each coordinate first held into the grid.
pub open spec fn grid_index(cx: int, cy: int) -> int {
    GRID_WIDTH * clamp_int(cy, 0, GRID_HEIGHT - 1) + clamp_int(cx, 0, GRID_WIDTH - 1)
}

/// Index of the cell a ball is filed under.
pub open spec fn bucket_index(b: Ball) -> int {
    grid_index(chunk_x(b), chunk_y(b))
}

/// The balls of `s` filed under cell `k`, in the order of `s`.
pub open spec fn bucket(s: Seq<Ball>, k: int) -> Seq<Ball>
    decreases s.len(),
{
    if s.len() == 0 {
        Seq::empty()
    } else if bucket_index(s.last()) == k {
        bucket(s.drop_last(), k).push(s.last())
    } else {
        bucket(s.drop_last(), k)
    }
}

/// The grid of `s`: cell `k` holds `bucket(s, k)`.
pub open spec fn is_grid_of(g: Seq<Vec<Ball>>, s: Seq<Ball>) -> bool {
    &&& g.len() == GRID_LEN
    &&& forall|k: int| 0 <= k < GRID_LEN ==> (#[trigger] g[k])@ == bucket(s, k)
}

proof fn lemma_grid_index_range(cx: int, cy: int)
    ensures
        0 <= grid_index(cx, cy) < GRID_LEN,
{
}

/// The cell coordinates of a position, rounding toward zero, not held into the grid.
pub fn chunk_of(pos: Vector2) -> (r: (i64, i64))
    requires
        pos.within(POSITION_LIMIT as int),
    ensures
        r.0 == chunk_coord(pos.x as int, HALF_WIDTH as int),
        r.1 == chunk_coord(pos.y as int, HALF_HEIGHT as int),
{
    let cx = trunc_div(pos.x as i128 + HALF_WIDTH as i128, CHUNK_SIZE as i128);
    let cy = trunc_div(pos.y as i128 + HALF_HEIGHT as i128, CHUNK_SIZE as i128);
    (cx as i64, cy as i64)
}

/// Index of the cell at `(cx, cy)`, each coordinate first held into the grid.
pub fn vec2d_to_index(cx: i64, cy: i64) -> (r: usize)
    ensures
        r == grid_index(cx as int, cy as int),
        r < GRID_LEN,
{
    let x: i64 = if cx < 0 { 0 } else if cx > GRID_WIDTH - 1 { GRID_WIDTH - 1 } else { cx };
    let y: i64 = if cy < 0 { 0 } else if cy > GRID_HEIGHT - 1 { GRID_HEIGHT - 1 } else { cy };
    (GRID_WIDTH * y + x) as usize
}

/// Whether the cell coordinate lies inside the grid.
pub fn in_bounds(cx: i64, cy: i64) -> (r: bool)
    ensures
        r == in_grid(cx as int, cy as int),
{
    0 <= cx && cx < GRID_WIDTH && 0 <= cy && cy < GRID_HEIGHT
}

/// Files a copy of every ball under its cell, keeping the order of `bodies`
/// within each cell.
pub fn build_grid(bodies: &Vec<Ball>) -> (g: Vec<Vec<Ball>>)
    requires
        forall|i: int| 0 <= i < bodies@.len() ==> (#[trigger] bodies@[i]).pos.within(
            POSITION_LIMIT as int,
        ),
    ensures
        is_grid_of(g@, bodies@),
{
    let mut g: Vec<Vec<Ball>> = Vec::new();
    let mut k: usize = 0;
    while k < GRID_LEN
        invariant
            k <= GRID_LEN,
            g@.len() == k,
            forall|j: int| 0 <= j < k ==> (#[trigger] g@[j])@ == Seq::<Ball>::empty(),
        decreases GRID_LEN - k,
    {
        g.push(Vec::new());
        k += 1;
    }
    let n = bodies.len();
    let mut i: usize = 0;
    while i < n
        invariant
            n == bodies@.len(),
            i <= n,
            g@.len() == GRID_LEN,
            forall|j: int| 0 <= j < n ==> (#[trigger] bodies@[j]).pos.within(POSITION_LIMIT as int),
            forall|j: int| 0 <= j < GRID_LEN ==> (#[trigger] g@[j])@ == bucket(bodies@.take(i as int), j),
        decreases n - i,
    {
        let b = bodies[i];
        let (cx, cy) = chunk_of(b.pos);
        let idx = vec2d_to_index(cx, cy);
        proof {
            let t = bodies@.take(i as int + 1);
            assert(t.drop_last() =~= bodies@.take(i as int));
            assert(t.last() == b);
        }
        g[idx].push(b);
        i += 1;
    }
    proof {
        assert(bodies@.take(n as int) =~= bodies@);
    }
    g
}

} // verus!
