use vstd::prelude::*;

use crate::body::{all_wf, Ball, Vector2, BALL_SIZE, SPAWN_ELASTICITY};
use crate::pointer::POINTER_LIMIT;
use crate::random::{random_in, MAX_ID};

verus! {

/// Where a single ball is spawned, in ticks.
pub const SPAWN_X: i64 = 0;
pub const SPAWN_Y: i64 = 180_000;
/// Velocity of a single spawned ball, in ticks per second.
pub const SPAWN_SPEED: i64 = 10_000;
/// A cluster is this many balls on a side.
pub const CLUSTER_SIDE: i64 = 10;

/// A ball as spawned: half the nominal size as radius, the spawn elasticity,
/// no pressure.
pub open spec fn spawned(pos: Vector2, velocity: Vector2, id: i32) -> Ball {
    Ball {
        size: (BALL_SIZE / 2) as i64,
        pos,
        velocity,
        elasticity: SPAWN_ELASTICITY,
        id,
        pressure_stat: 0,
    }
}

/// Position of the `k`-th ball of a cluster around `c`: column `k / 10 - 5`,
/// row `k % 10 - 5`, one nominal size apart.
pub open spec fn cluster_pos(c: Vector2, k: int) -> Vector2 {
    Vector2 {
        x: (c.x + (k / (CLUSTER_SIDE as int) - 5) * BALL_SIZE) as i64,
        y: (c.y + (k % (CLUSTER_SIDE as int) - 5) * BALL_SIZE) as i64,
    }
}

/// The cluster around `c`, ball `k` with id `ids[k]`.
pub open spec fn cluster_of(c: Vector2, ids: Seq<i32>) -> Seq<Ball> {
    Seq::new(ids.len(), |k: int| spawned(cluster_pos(c, k), Vector2 { x: 0, y: 0 }, ids[k]))
}

/// Adds one ball with the given id at the spawn point.
pub fn spawn_ball_with_id(bodies: &mut Vec<Ball>, id: i32)
    ensures
        final(bodies)@ == old(bodies)@.push(
            spawned(Vector2 { x: SPAWN_X, y: SPAWN_Y }, Vector2 { x: SPAWN_SPEED, y: SPAWN_SPEED }, id),
        ),
        all_wf(old(bodies)@) ==> all_wf(final(bodies)@),
{
    let b = Ball::new(Vector2 { x: SPAWN_X, y: SPAWN_Y }, Vector2 { x: SPAWN_SPEED, y: SPAWN_SPEED }, id);
    bodies.push(b);
}

/// Adds one ball at the spawn point, with an id drawn from `1 ..= MAX_ID`.
pub fn spawn_ball(bodies: &mut Vec<Ball>)
    ensures
        exists|id: i32|
            1 <= id <= MAX_ID && #[trigger] old(bodies)@.push(
                spawned(Vector2 { x: SPAWN_X, y: SPAWN_Y }, Vector2 { x: SPAWN_SPEED, y: SPAWN_SPEED }, id),
            ) == final(bodies)@,
        all_wf(old(bodies)@) ==> all_wf(final(bodies)@),
{
    let id = random_in(MAX_ID as i64) as i32;
    spawn_ball_with_id(bodies, id);
}

/// Adds a square cluster of balls at rest around `center`, ball `k` with id
/// `ids[k]`.
pub fn spawn_cluster_with_ids(bodies: &mut Vec<Ball>, center: Vector2, ids: &Vec<i32>)
    requires
        center.within(POINTER_LIMIT as int),
        ids@.len() == CLUSTER_SIDE * CLUSTER_SIDE,
    ensures
        final(bodies)@ == old(bodies)@ + cluster_of(center, ids@),
        all_wf(old(bodies)@) ==> all_wf(final(bodies)@),
{
    let ghost added = cluster_of(center, ids@);
    let mut k: usize = 0;
    while k < ids.len()
        invariant
            k <= ids@.len(),
            ids@.len() == CLUSTER_SIDE * CLUSTER_SIDE,
            center.within(POINTER_LIMIT as int),
            added == cluster_of(center, ids@),
            bodies@ == old(bodies)@ + added.take(k as int),
            all_wf(old(bodies)@) ==> all_wf(bodies@),
        decreases ids@.len() - k,
    {
        let col: i64 = (k as i64) / CLUSTER_SIDE - 5;
        let row: i64 = (k as i64) % CLUSTER_SIDE - 5;
        let pos = Vector2 { x: center.x + col * BALL_SIZE, y: center.y + row * BALL_SIZE };
        let b = Ball::new(pos, Vector2 { x: 0, y: 0 }, ids[k]);
        bodies.push(b);
        proof {
            assert(added.take(k as int + 1) =~= added.take(k as int).push(added[k as int]));
        }
        k += 1;
    }
    proof {
        assert(added.take(ids@.len() as int) =~= added);
    }
}

/// Adds a square cluster of balls at rest around `center`, each with an id
/// drawn from `1 ..= MAX_ID`.
pub fn spawn_cluster(bodies: &mut Vec<Ball>, center: Vector2)
    requires
        center.within(POINTER_LIMIT as int),
    ensures
        exists|ids: Seq<i32>|
            ids.len() == CLUSTER_SIDE * CLUSTER_SIDE && (forall|k: int|
                0 <= k < ids.len() ==> 1 <= #[trigger] ids[k] <= MAX_ID) && old(bodies)@
                + #[trigger] cluster_of(center, ids) == final(bodies)@,
        all_wf(old(bodies)@) ==> all_wf(final(bodies)@),
{
    let mut ids: Vec<i32> = Vec::new();
    let mut k: usize = 0;
    while k < 100
        invariant
            k <= 100,
            ids@.len() == k,
            forall|j: int| 0 <= j < k ==> 1 <= #[trigger] ids@[j] <= MAX_ID,
        decreases 100 - k,
    {
        ids.push(random_in(MAX_ID as i64) as i32);
        k += 1;
    }
    spawn_cluster_with_ids(bodies, center, &ids);
}

} // verus!
