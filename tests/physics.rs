use ball_sim::body::{Ball, Vector2, HALF_HEIGHT, HALF_WIDTH};
use ball_sim::boundary::{bounce_ball, container_collision, WALL_BIAS};
use ball_sim::collision::{
    ball_collision_physics_optimised, ball_collision_physics_with, collide_pair,
    is_ball_collision, isqrt, Scan,
};
use ball_sim::grid::{build_grid, chunk_of, in_bounds, vec2d_to_index, GRID_LEN};
use ball_sim::integrate::{update_ball_position, update_gravity_velocity};

fn ball(x: i64, y: i64, vx: i64, vy: i64, id: i32) -> Ball {
    Ball::new(Vector2 { x, y }, Vector2 { x: vx, y: vy }, id)
}

#[test]
fn floor_clamps_and_reflects() {
    let mut b = ball(0, -HALF_HEIGHT, 0, -1000, 1);
    bounce_ball(&mut b);
    assert_eq!(b.pos.y, -HALF_HEIGHT + 5000);
    assert_eq!(b.velocity.y, 300);
}

#[test]
fn ceiling_clamps_and_reflects() {
    let mut b = ball(0, HALF_HEIGHT, 0, 2000, 1);
    bounce_ball(&mut b);
    assert_eq!(b.pos.y, HALF_HEIGHT - 5000);
    assert_eq!(b.velocity.y, -600);
}

#[test]
fn side_walls_add_bias_away_from_wall() {
    let mut right = ball(HALF_WIDTH + 3, 0, 1000, 0, 1);
    bounce_ball(&mut right);
    assert_eq!(right.pos.x, HALF_WIDTH - 5000);
    assert_eq!(right.velocity.x, -300 - WALL_BIAS);
    let mut left = ball(-HALF_WIDTH, 0, -1000, 0, 2);
    bounce_ball(&mut left);
    assert_eq!(left.pos.x, -HALF_WIDTH + 5000);
    assert_eq!(left.velocity.x, 300 + WALL_BIAS);
}

#[test]
fn corner_corrects_both_axes() {
    let mut b = ball(-HALF_WIDTH - 10_000, -HALF_HEIGHT - 10_000, -2000, -2000, 1);
    bounce_ball(&mut b);
    assert_eq!(b.pos, Vector2 { x: -HALF_WIDTH + 5000, y: -HALF_HEIGHT + 5000 });
    assert_eq!(b.velocity, Vector2 { x: 600 + WALL_BIAS, y: 600 });
}

#[test]
fn boundary_pass_keeps_every_ball_inside() {
    let mut bodies = vec![
        ball(900_000_000, -900_000_000, 5, 5, 1),
        ball(-700_000, 400_000, -5, 5, 2),
        ball(12_345, -6_789, 0, 0, 3),
    ];
    container_collision(&mut bodies);
    for b in &bodies {
        assert!(b.pos.x >= -HALF_WIDTH + b.size && b.pos.x <= HALF_WIDTH - b.size);
        assert!(b.pos.y >= -HALF_HEIGHT + b.size && b.pos.y <= HALF_HEIGHT - b.size);
    }
    assert_eq!(bodies[2].pos, Vector2 { x: 12_345, y: -6_789 });
}

#[test]
fn boundary_twice_changes_nothing_more() {
    let mut once = vec![ball(800_000, -500_000, 4000, -4000, 1), ball(1000, 2000, 30, 40, 2)];
    container_collision(&mut once);
    let mut twice = once.clone();
    container_collision(&mut twice);
    assert_eq!(once, twice);
}

#[test]
fn gravity_lowers_vertical_velocity() {
    let mut bodies = vec![ball(0, 0, 7, 0, 1)];
    update_gravity_velocity(&mut bodies, 16);
    assert_eq!(bodies[0].velocity, Vector2 { x: 7, y: -1568 });
}

#[test]
fn position_moves_a_tenth_of_a_frame() {
    let mut bodies = vec![ball(0, 0, 10_000, -25_000, 1)];
    update_ball_position(&mut bodies, 100);
    assert_eq!(bodies[0].pos, Vector2 { x: 100, y: -250 });
    update_ball_position(&mut bodies, 3);
    assert_eq!(bodies[0].pos, Vector2 { x: 103, y: -257 });
}

#[test]
fn integer_square_root() {
    assert_eq!(isqrt(0), 0);
    assert_eq!(isqrt(1), 1);
    assert_eq!(isqrt(15), 3);
    assert_eq!(isqrt(16), 4);
    assert_eq!(isqrt(64_000_000), 8000);
    assert_eq!(isqrt(u128::MAX), 18_446_744_073_709_551_615);
}

#[test]
fn grid_indices_clamp_into_range() {
    assert_eq!(vec2d_to_index(5, 3), 129 * 3 + 5);
    assert_eq!(vec2d_to_index(-3, 100), 129 * 68);
    assert_eq!(vec2d_to_index(500, -1), 128);
    assert!(in_bounds(0, 0));
    assert!(in_bounds(128, 68));
    assert!(!in_bounds(129, 0));
    assert!(!in_bounds(0, -1));
    assert_eq!(chunk_of(Vector2 { x: 0, y: 0 }), (64, 34));
    assert_eq!(chunk_of(Vector2 { x: -HALF_WIDTH - 5000, y: 0 }), (0, 34));
}

#[test]
fn grid_files_each_ball_in_order() {
    let bodies = vec![ball(0, 0, 0, 0, 1), ball(10_000, 10_000, 0, 0, 2), ball(1, 1, 0, 0, 3)];
    let g = build_grid(&bodies);
    assert_eq!(g.len(), GRID_LEN);
    let home = vec2d_to_index(64, 34);
    assert_eq!(g[home], vec![bodies[0], bodies[2]]);
    assert_eq!(g[vec2d_to_index(65, 35)], vec![bodies[1]]);
    let total: usize = g.iter().map(|c| c.len()).sum();
    assert_eq!(total, 3);
}

#[test]
fn collision_test_includes_touching() {
    let a = ball(0, 0, 0, 0, 1);
    assert!(is_ball_collision(&a, &ball(10_000, 0, 0, 0, 2)));
    assert!(is_ball_collision(&a, &ball(6000, 8000, 0, 0, 2)));
    assert!(!is_ball_collision(&a, &ball(6000, 8001, 0, 0, 2)));
}

#[test]
fn overlapping_pair_is_pushed_apart() {
    let mut bodies = vec![ball(-4000, 0, 0, 0, 1), ball(4000, 0, 0, 0, 2)];
    ball_collision_physics_with(&mut bodies, &vec![1, 1]);
    assert_eq!(bodies[0].pos, Vector2 { x: -5000, y: 0 });
    assert_eq!(bodies[1].pos, Vector2 { x: 5000, y: 0 });
    assert_eq!(bodies[0].velocity, Vector2 { x: -6000, y: 0 });
    assert_eq!(bodies[1].velocity, Vector2 { x: 6000, y: 0 });
    assert_eq!(bodies[0].pressure_stat, 1_000_000);
    assert_eq!(bodies[1].pressure_stat, 1_000_000);
}

#[test]
fn separation_grows_for_a_small_overlap() {
    let mut bodies = vec![ball(0, 0, 0, 0, 1), ball(6000, 7000, 0, 0, 2)];
    let before = 6000i128 * 6000 + 7000 * 7000;
    ball_collision_physics_with(&mut bodies, &vec![1, 1]);
    let dx = (bodies[1].pos.x - bodies[0].pos.x) as i128;
    let dy = (bodies[1].pos.y - bodies[0].pos.y) as i128;
    let after = dx * dx + dy * dy;
    assert!(after > before);
    assert!(after <= 10_000 * 10_000);
}

#[test]
fn pair_apart_gets_no_correction() {
    let start = vec![ball(-5000, 0, 100, 200, 1), ball(5000, 0, -100, 0, 2), ball(0, 30_000, 0, 0, 3)];
    let mut bodies = start.clone();
    ball_collision_physics_with(&mut bodies, &vec![1, 1, 1]);
    assert_eq!(bodies, start);
}

#[test]
fn common_centre_is_nudged() {
    let mut bodies = vec![ball(1000, 2000, 0, 0, 1), ball(1000, 2000, 0, 0, 2)];
    ball_collision_physics_with(&mut bodies, &vec![7, 9]);
    assert_eq!(bodies[0].pos, Vector2 { x: 1007, y: 2000 });
    assert_eq!(bodies[1].pos, Vector2 { x: 1009, y: 2000 });
    assert_eq!(bodies[0].velocity, Vector2 { x: 0, y: 0 });
    assert_eq!(bodies[0].pressure_stat, 0);
}

#[test]
fn common_centre_random_nudge_is_bounded() {
    let mut bodies = vec![ball(0, 0, 0, 0, 1), ball(0, 0, 0, 0, 2)];
    ball_collision_physics_optimised(&mut bodies);
    for b in &bodies {
        assert!(b.pos.x >= 1 && b.pos.x <= 1000);
        assert_eq!(b.pos.y, 0);
    }
}

#[test]
fn same_id_is_skipped() {
    let start = vec![ball(0, 0, 0, 0, 5), ball(100, 0, 0, 0, 5)];
    let mut bodies = start.clone();
    ball_collision_physics_with(&mut bodies, &vec![1, 1]);
    assert_eq!(bodies, start);
}

#[test]
fn scan_step_keeps_live_position_until_done() {
    let b = ball(-4000, 0, 0, 0, 1);
    let mut st = Scan { live: b, pos: b.pos, vel: b.velocity };
    collide_pair(&mut st, &ball(4000, 0, 0, 0, 2), 1);
    assert_eq!(st.live.pos, b.pos);
    assert_eq!(st.pos, Vector2 { x: -5000, y: 0 });
    assert_eq!(st.live.pressure_stat, 1_000_000);
}

#[test]
fn validity_check_matches_invariant() {
    assert!(ball(0, 0, 0, 0, 1).is_valid());
    let mut b = ball(0, 0, 0, 0, 1);
    b.elasticity = 1001;
    assert!(!b.is_valid());
    let mut c = ball(0, 0, 0, 0, 1);
    c.size = 0;
    assert!(!c.is_valid());
}

#[test]
fn close_centres_move_along_unit_direction() {
    let mut bodies = vec![ball(0, 0, 0, 0, 1), ball(1, 1, 0, 0, 2)];
    ball_collision_physics_with(&mut bodies, &vec![1, 1]);
    assert_eq!(bodies[0].pos, Vector2 { x: -3533, y: -3533 });
    assert_eq!(bodies[1].pos, Vector2 { x: 3534, y: 3534 });
    assert_eq!(bodies[0].velocity, Vector2 { x: -21198, y: -21198 });
    assert_eq!(bodies[0].pressure_stat, 24_992_931);
    let dx = (bodies[1].pos.x - bodies[0].pos.x) as i128;
    let dy = (bodies[1].pos.y - bodies[0].pos.y) as i128;
    assert!(dx * dx + dy * dy <= 10_000 * 10_000);
}

#[test]
fn one_tick_overlap_still_gains_pressure() {
    let mut bodies = vec![ball(0, 0, 0, 0, 1), ball(9999, 0, 0, 0, 2)];
    ball_collision_physics_with(&mut bodies, &vec![1, 1]);
    assert_eq!(bodies[0].pos, Vector2 { x: 0, y: 0 });
    assert_eq!(bodies[1].pos, Vector2 { x: 9999, y: 0 });
    assert_eq!(bodies[0].pressure_stat, 1);
    assert_eq!(bodies[1].pressure_stat, 1);
}

#[test]
fn small_push_takes_one_tick_on_larger_axis() {
    let mut bodies = vec![ball(0, 0, 0, 0, 1), ball(7068, 7071, 0, 0, 2)];
    ball_collision_physics_with(&mut bodies, &vec![1, 1]);
    assert_eq!(bodies[0].pos, Vector2 { x: 0, y: -1 });
    assert_eq!(bodies[1].pos, Vector2 { x: 7068, y: 7072 });
    assert_eq!(bodies[0].pressure_stat, 2);
}
