use ball_sim::body::{Ball, Vector2, HALF_HEIGHT};
use ball_sim::pointer::{pull_towards, remove_all, remove_near};
use ball_sim::random::MAX_ID;
use ball_sim::simulation::{
    reset_pressure, step_frame, step_frame_with, sub_step_with, update_processes,
    update_processes_with, SimulationState, ITERATION_COUNT,
};
use ball_sim::spawn::{spawn_ball, spawn_ball_with_id, spawn_cluster, spawn_cluster_with_ids};

fn ball(x: i64, y: i64, vx: i64, vy: i64, id: i32) -> Ball {
    Ball::new(Vector2 { x, y }, Vector2 { x: vx, y: vy }, id)
}

#[test]
fn toggling_switches_mode() {
    assert_eq!(SimulationState::Running.toggled(), SimulationState::Paused);
    assert_eq!(SimulationState::Paused.toggled(), SimulationState::Running);
}

#[test]
fn paused_frame_changes_nothing() {
    let start = vec![ball(0, 0, 100, 100, 1)];
    let mut bodies = start.clone();
    step_frame(SimulationState::Paused, &mut bodies, 16);
    assert_eq!(bodies, start);
}

#[test]
fn reset_zeroes_pressure() {
    let mut bodies = vec![ball(-4000, 0, 0, 0, 1), ball(4000, 0, 0, 0, 2)];
    sub_step_with(&mut bodies, 0, &vec![1, 1]);
    assert!(bodies[0].pressure_stat > 0);
    reset_pressure(&mut bodies);
    assert_eq!(bodies[0].pressure_stat, 0);
    assert_eq!(bodies[1].pressure_stat, 0);
}

#[test]
fn lone_ball_has_no_pressure() {
    let mut bodies = vec![ball(0, 0, 0, 0, 1)];
    update_processes(&mut bodies, 16);
    assert_eq!(bodies[0].pressure_stat, 0);
}

#[test]
fn overlapping_ball_gains_pressure() {
    let mut bodies = vec![ball(-4000, 0, 0, 0, 1), ball(4000, 0, 0, 0, 2)];
    let nudges = vec![vec![1, 1]; ITERATION_COUNT];
    update_processes_with(&mut bodies, 0, &nudges);
    assert!(bodies[0].pressure_stat > 0);
    assert!(bodies[1].pressure_stat > 0);
}

#[test]
fn running_frame_applies_gravity_then_moves() {
    let mut bodies = vec![ball(0, 0, 0, 0, 1)];
    let nudges = vec![vec![1]; ITERATION_COUNT];
    step_frame_with(SimulationState::Running, &mut bodies, 16, &nudges);
    assert_eq!(bodies[0].velocity, Vector2 { x: 0, y: -1568 });
    assert_eq!(bodies[0].pos, Vector2 { x: 0, y: -20 });
}

#[test]
fn dropped_ball_settles_on_floor() {
    let floor = -HALF_HEIGHT + 5000;
    let mut bodies = vec![ball(0, 180_000, 0, 0, 1)];
    for _ in 0..900 {
        step_frame(SimulationState::Running, &mut bodies, 16);
        assert!(bodies[0].pos.y >= floor);
        assert_eq!(bodies[0].pos.x, 0);
    }
    assert_eq!(bodies[0].pos.y, floor);
    assert!(bodies[0].velocity.y.abs() <= 1000);
}

#[test]
fn dense_cluster_spreads_out() {
    let mut bodies: Vec<Ball> = Vec::new();
    let ids: Vec<i32> = (1..=100).collect();
    spawn_cluster_with_ids(&mut bodies, Vector2 { x: 0, y: 0 }, &ids);
    for _ in 0..600 {
        step_frame(SimulationState::Running, &mut bodies, 16);
    }
    let eps: i64 = 2000;
    for i in 0..bodies.len() {
        for j in (i + 1)..bodies.len() {
            let dx = (bodies[i].pos.x - bodies[j].pos.x) as i128;
            let dy = (bodies[i].pos.y - bodies[j].pos.y) as i128;
            let min = (bodies[i].size + bodies[j].size - eps) as i128;
            assert!(dx * dx + dy * dy >= min * min, "balls {} and {} too close", i, j);
        }
    }
}

#[test]
fn single_spawn_has_fixed_state() {
    let mut bodies = Vec::new();
    spawn_ball_with_id(&mut bodies, 42);
    assert_eq!(
        bodies,
        vec![Ball {
            size: 5000,
            pos: Vector2 { x: 0, y: 180_000 },
            velocity: Vector2 { x: 10_000, y: 10_000 },
            elasticity: 300,
            id: 42,
            pressure_stat: 0,
        }]
    );
    spawn_ball(&mut bodies);
    assert_eq!(bodies.len(), 2);
    assert!(bodies[1].id >= 1 && bodies[1].id <= MAX_ID);
}

#[test]
fn cluster_is_a_ten_by_ten_grid() {
    let mut bodies = Vec::new();
    let ids: Vec<i32> = (1..=100).collect();
    spawn_cluster_with_ids(&mut bodies, Vector2 { x: 1000, y: -2000 }, &ids);
    assert_eq!(bodies.len(), 100);
    assert_eq!(bodies[0].pos, Vector2 { x: 1000 - 50_000, y: -2000 - 50_000 });
    assert_eq!(bodies[1].pos, Vector2 { x: 1000 - 50_000, y: -2000 - 40_000 });
    assert_eq!(bodies[10].pos, Vector2 { x: 1000 - 40_000, y: -2000 - 50_000 });
    assert_eq!(bodies[99].pos, Vector2 { x: 1000 + 40_000, y: -2000 + 40_000 });
    assert_eq!(bodies[99].velocity, Vector2 { x: 0, y: 0 });
    assert_eq!(bodies[99].id, 100);
    spawn_cluster(&mut bodies, Vector2 { x: 0, y: 0 });
    assert_eq!(bodies.len(), 200);
    assert!(bodies[100..].iter().all(|b| b.id >= 1 && b.id <= MAX_ID));
}

#[test]
fn removal_takes_only_near_balls() {
    let mut bodies = vec![
        ball(0, 0, 0, 0, 1),
        ball(30_000, 40_000, 0, 0, 2),
        ball(30_000, 40_001, 0, 0, 3),
        ball(-100_000, 0, 0, 0, 4),
    ];
    remove_near(&mut bodies, Vector2 { x: 0, y: 0 });
    let ids: Vec<i32> = bodies.iter().map(|b| b.id).collect();
    assert_eq!(ids, vec![3, 4]);
}

#[test]
fn pull_accelerates_toward_point() {
    let mut bodies = vec![ball(0, 0, 0, 0, 1), ball(3000, 4000, 5, 5, 2)];
    pull_towards(&mut bodies, Vector2 { x: 3000, y: 4000 }, 10);
    assert_eq!(bodies[0].velocity, Vector2 { x: 2400, y: 3200 });
    assert_eq!(bodies[1].velocity, Vector2 { x: 5, y: 5 });
}

#[test]
fn pull_near_point_stays_within_unit_direction() {
    let mut bodies = vec![ball(1, 1, 0, 0, 1)];
    pull_towards(&mut bodies, Vector2 { x: 0, y: 0 }, 1000);
    assert_eq!(bodies[0].velocity, Vector2 { x: -282_685, y: -282_685 });
}

#[test]
fn remove_all_empties_the_set() {
    let mut bodies = vec![ball(0, 0, 0, 0, 1), ball(100, 0, 0, 0, 2)];
    remove_all(&mut bodies);
    assert!(bodies.is_empty());
}

#[test]
fn coincident_pair_both_nudged_in_a_frame() {
    let mut bodies = vec![ball(0, 0, 0, 0, 1), ball(0, 0, 0, 0, 2)];
    let nudges = vec![vec![3, 5]; ITERATION_COUNT];
    update_processes_with(&mut bodies, 0, &nudges);
    assert!(bodies[0].pos != bodies[1].pos);
    assert!(bodies.iter().all(|b| b.pos.x != 0 || b.pos.y != 0));
}
