use vstd::prelude::*;

use crate::body::{all_wf, Ball};
use crate::boundary::{bounce, container_collision, in_container, lemma_bounce_lands_inside};
use crate::collision::{
    ball_collision_physics_with, resolved, valid_nudges, NUDGE_MAX,
};
use crate::integrate::{advance, gravity_step, update_ball_position, update_gravity_velocity};
use crate::random::random_in;
use crate::two_body::lemma_lone_resolved;

verus! {

/// Sub-steps per frame.
pub const ITERATION_COUNT: usize = 10;

/// Whether the simulation advances.
#[derive(Clone, Copy, Debug, PartialEq, Eq, Structural)]
pub enum SimulationState {
    Running,
    Paused,
}

impl SimulationState {
    /// The other mode: running becomes paused and paused becomes running.
    pub fn toggled(self) -> (r: SimulationState)
        ensures
            r == (match self {
                SimulationState::Running => SimulationState::Paused,
                SimulationState::Paused => SimulationState::Running,
            }),
    {
        match self {
            SimulationState::Running => SimulationState::Paused,
            SimulationState::Paused => SimulationState::Running,
        }
    }
}

/// The balls with their pressure statistic set to zero.
pub open spec fn reset_spec(s: Seq<Ball>) -> Seq<Ball> {
    Seq::new(s.len(), |i: int| Ball { pressure_stat: 0, ..s[i] })
}

/// One sub-step: motion, then the container, then the collisions among the
/// balls as they stand after the container, with nudges `ns`.
pub open spec fn sub_step(s: Seq<Ball>, dt: int, ns: Seq<i64>) -> Seq<Ball> {
    let moved = Seq::new(s.len(), |i: int| bounce(advance(s[i], dt)));
    Seq::new(s.len(), |i: int| resolved(moved[i], moved, ns[i] as int))
}

/// The first `k` sub-steps of a frame of `dt` milliseconds, sub-step `j`
/// using nudges `nss[j]`.
pub open spec fn sub_steps(s: Seq<Ball>, dt: int, nss: Seq<Seq<i64>>, k: int) -> Seq<Ball>
    decreases k,
{
    if k <= 0 {
        s
    } else {
        sub_step(sub_steps(s, dt, nss, k - 1), dt, nss[k - 1])
    }
}

/// Nudges for a whole frame of `n` balls: one valid row per sub-step.
pub open spec fn valid_frame_nudges(nss: Seq<Seq<i64>>, n: int) -> bool {
    &&& nss.len() == ITERATION_COUNT
    &&& forall|j: int| 0 <= j < nss.len() ==> (#[trigger] nss[j]).len() == n && valid_nudges(nss[j])
}

/// Sets every pressure statistic to zero.
pub fn reset_pressure(bodies: &mut Vec<Ball>)
    requires
        all_wf(old(bodies)@),
    ensures
        final(bodies)@ == reset_spec(old(bodies)@),
        all_wf(final(bodies)@),
{
    let n = bodies.len();
    let mut i: usize = 0;
    while i < n
        invariant
            n == bodies@.len(),
            n == old(bodies)@.len(),
            i <= n,
            all_wf(old(bodies)@),
            forall|j: int| 0 <= j < i ==> #[trigger] bodies@[j] == reset_spec(old(bodies)@)[j],
            forall|j: int| 0 <= j < i ==> (#[trigger] bodies@[j]).wf(),
            forall|j: int| i <= j < n ==> #[trigger] bodies@[j] == old(bodies)@[j],
        decreases n - i,
    {
        let mut b = bodies[i];
        b.pressure_stat = 0;
        bodies.set(i, b);
        i += 1;
    }
    assert(bodies@ =~= reset_spec(old(bodies)@));
}

/// One sub-step with the given nudges.
pub fn sub_step_with(bodies: &mut Vec<Ball>, dt_ms: u32, nudges: &Vec<i64>)
    requires
        all_wf(old(bodies)@),
        nudges@.len() == old(bodies)@.len(),
        valid_nudges(nudges@),
    ensures
        final(bodies)@ == sub_step(old(bodies)@, dt_ms as int, nudges@),
        all_wf(final(bodies)@),
{
    update_ball_position(bodies, dt_ms);
    container_collision(bodies);
    let ghost moved = bodies@;
    ball_collision_physics_with(bodies, nudges);
    assert(moved =~= Seq::new(old(bodies)@.len(), |i: int| bounce(advance(old(bodies)@[i], dt_ms as int))));
    assert(bodies@ =~= sub_step(old(bodies)@, dt_ms as int, nudges@));
}

/// The sub-steps of one frame, with given nudges: the pressure statistic is
/// reset, then `ITERATION_COUNT` sub-steps run.
pub fn update_processes_with(bodies: &mut Vec<Ball>, dt_ms: u32, nudges: &Vec<Vec<i64>>)
    requires
        all_wf(old(bodies)@),
        valid_frame_nudges(nudges@.map_values(|v: Vec<i64>| v@), old(bodies)@.len() as int),
    ensures
        final(bodies)@ == sub_steps(
            reset_spec(old(bodies)@),
            dt_ms as int,
            nudges@.map_values(|v: Vec<i64>| v@),
            ITERATION_COUNT as int,
        ),
        all_wf(final(bodies)@),
{
    let ghost nss = nudges@.map_values(|v: Vec<i64>| v@);
    reset_pressure(bodies);
    let ghost start = bodies@;
    let mut k: usize = 0;
    while k < ITERATION_COUNT
        invariant
            k <= ITERATION_COUNT,
            nss == nudges@.map_values(|v: Vec<i64>| v@),
            valid_frame_nudges(nss, old(bodies)@.len() as int),
            bodies@.len() == old(bodies)@.len(),
            start == reset_spec(old(bodies)@),
            bodies@ == sub_steps(start, dt_ms as int, nss, k as int),
            all_wf(bodies@),
        decreases ITERATION_COUNT - k,
    {
        assert(nss[k as int] == nudges@[k as int]@);
        assert(nss[k as int].len() == old(bodies)@.len());
        sub_step_with(bodies, dt_ms, &nudges[k]);
        k += 1;
    }
}

/// The sub-steps of one frame, each ball's nudges drawn at random.
pub fn update_processes(bodies: &mut Vec<Ball>, dt_ms: u32)
    requires
        all_wf(old(bodies)@),
    ensures
        exists|nss: Seq<Seq<i64>>|
            valid_frame_nudges(nss, old(bodies)@.len() as int) && #[trigger] sub_steps(
                reset_spec(old(bodies)@),
                dt_ms as int,
                nss,
                ITERATION_COUNT as int,
            ) == final(bodies)@,
        all_wf(final(bodies)@),
{
    let n = bodies.len();
    let mut nudges: Vec<Vec<i64>> = Vec::new();
    let mut k: usize = 0;
    while k < ITERATION_COUNT
        invariant
            k <= ITERATION_COUNT,
            n == old(bodies)@.len(),
            nudges@.len() == k,
            forall|j: int|
                0 <= j < k ==> (#[trigger] nudges@[j])@.len() == n && valid_nudges(nudges@[j]@),
        decreases ITERATION_COUNT - k,
    {
        let mut row: Vec<i64> = Vec::new();
        let mut i: usize = 0;
        while i < n
            invariant
                i <= n,
                row@.len() == i,
                valid_nudges(row@),
            decreases n - i,
        {
            row.push(random_in(NUDGE_MAX));
            i += 1;
        }
        nudges.push(row);
        k += 1;
    }
    let ghost nss = nudges@.map_values(|v: Vec<i64>| v@);
    assert(valid_frame_nudges(nss, n as int)) by {
        assert forall|j: int| 0 <= j < nss.len() implies (#[trigger] nss[j]).len() == n
            && valid_nudges(nss[j]) by {
            assert(nss[j] == nudges@[j]@);
        }
    }
    update_processes_with(bodies, dt_ms, &nudges);
}

/// One frame of `dt_ms` milliseconds: when running, gravity and then the
/// sub-steps; when paused, nothing.
pub open spec fn frame_spec(
    state: SimulationState,
    s: Seq<Ball>,
    dt: int,
    nss: Seq<Seq<i64>>,
) -> Seq<Ball> {
    match state {
        SimulationState::Running => sub_steps(
            reset_spec(Seq::new(s.len(), |i: int| gravity_step(s[i], dt))),
            dt,
            nss,
            ITERATION_COUNT as int,
        ),
        SimulationState::Paused => s,
    }
}

/// One frame with given nudges.
pub fn step_frame_with(
    state: SimulationState,
    bodies: &mut Vec<Ball>,
    dt_ms: u32,
    nudges: &Vec<Vec<i64>>,
)
    requires
        all_wf(old(bodies)@),
        valid_frame_nudges(nudges@.map_values(|v: Vec<i64>| v@), old(bodies)@.len() as int),
    ensures
        final(bodies)@ == frame_spec(
            state,
            old(bodies)@,
            dt_ms as int,
            nudges@.map_values(|v: Vec<i64>| v@),
        ),
        all_wf(final(bodies)@),
{
    if let SimulationState::Running = state {
        update_gravity_velocity(bodies, dt_ms);
        assert(bodies@ =~= Seq::new(old(bodies)@.len(), |i: int| gravity_step(old(bodies)@[i], dt_ms as int)));
        update_processes_with(bodies, dt_ms, nudges);
    }
}

/// One frame, each ball's nudges drawn at random.
pub fn step_frame(state: SimulationState, bodies: &mut Vec<Ball>, dt_ms: u32)
    requires
        all_wf(old(bodies)@),
    ensures
        exists|nss: Seq<Seq<i64>>|
            valid_frame_nudges(nss, old(bodies)@.len() as int) && #[trigger] frame_spec(
                state,
                old(bodies)@,
                dt_ms as int,
                nss,
            ) == final(bodies)@,
        all_wf(final(bodies)@),
{
    if let SimulationState::Running = state {
        update_gravity_velocity(bodies, dt_ms);
        let ghost g = bodies@;
        assert(g =~= Seq::new(old(bodies)@.len(), |i: int| gravity_step(old(bodies)@[i], dt_ms as int)));
        update_processes(bodies, dt_ms);
        let ghost nss = choose|nss: Seq<Seq<i64>>|
            valid_frame_nudges(nss, g.len() as int) && #[trigger] sub_steps(
                reset_spec(g),
                dt_ms as int,
                nss,
                ITERATION_COUNT as int,
            ) == bodies@;
        assert(frame_spec(state, old(bodies)@, dt_ms as int, nss) == bodies@);
    } else {
        assert(valid_frame_nudges(Seq::new(ITERATION_COUNT as nat, |j: int| Seq::new(old(bodies)@.len(), |i: int| 1i64)), old(bodies)@.len() as int));
        assert(frame_spec(state, old(bodies)@, dt_ms as int, Seq::new(ITERATION_COUNT as nat, |j: int| Seq::new(old(bodies)@.len(), |i: int| 1i64))) == bodies@);
    }
}

proof fn lemma_lone_sub_steps(b: Ball, dt: int, nss: Seq<Seq<i64>>, k: int)
    requires
        b.wf(),
        0 <= k,
    ensures
        sub_steps(seq![b], dt, nss, k).len() == 1,
        sub_steps(seq![b], dt, nss, k)[0].wf(),
        sub_steps(seq![b], dt, nss, k)[0].pressure_stat == b.pressure_stat,
        k >= 1 ==> in_container(sub_steps(seq![b], dt, nss, k)[0]),
    decreases k,
{
    if k > 0 {
        lemma_lone_sub_steps(b, dt, nss, k - 1);
        let prev = sub_steps(seq![b], dt, nss, k - 1);
        let x = prev[0];
        assert(prev =~= seq![x]);
        let m = bounce(advance(x, dt));
        assert(advance(x, dt).wf());
        lemma_bounce_lands_inside(advance(x, dt));
        let moved = Seq::new(prev.len(), |i: int| bounce(advance(prev[i], dt)));
        assert(moved =~= seq![m]);
        lemma_lone_resolved(m, nss[k - 1][0] as int);
        assert(sub_steps(seq![b], dt, nss, k) =~= seq![m]);
    }
}

/// A ball alone in the container, after a running frame: it lies inside
/// the container, so it has not passed through a wall, and its pressure,
/// reset at the start of the frame with no neighbour to add to it, is zero.
pub proof fn lemma_lone_ball_frame(b: Ball, dt: int, nss: Seq<Seq<i64>>)
    requires
        b.wf(),
    ensures
        frame_spec(SimulationState::Running, seq![b], dt, nss).len() == 1,
        in_container(frame_spec(SimulationState::Running, seq![b], dt, nss)[0]),
        frame_spec(SimulationState::Running, seq![b], dt, nss)[0].pressure_stat == 0,
        frame_spec(SimulationState::Running, seq![b], dt, nss)[0].wf(),
{
    let g = Ball { pressure_stat: 0, ..gravity_step(b, dt) };
    assert(g.wf());
    assert(reset_spec(Seq::new(seq![b].len(), |i: int| gravity_step(seq![b][i], dt))) =~= seq![g]);
    lemma_lone_sub_steps(g, dt, nss, ITERATION_COUNT as int);
}

} // verus!
