use boids::arith::{ceil_sqrt_u128, div_toward_zero, floor_sqrt_u128};
use boids::boid::{
    Boid, BoidAction, Color, Point, SpawnDraw, WorldBounds, AGENT_COUNT, CURSOR_AVOID_RADIUS,
    SPEED_BOUND_AFTER_STEERING, SPEED_LIMIT, TURN_FACTOR,
};

const WHITE: Color = Color { r: 255, g: 255, b: 255, a: 128 };

fn agent(x: i64, y: i64, dx: i64, dy: i64) -> Boid {
    Boid { x, y, dx, dy, color: WHITE }
}

fn world() -> WorldBounds {
    WorldBounds { width: 1_280_000, height: 720_000 }
}

fn far_cursor() -> Point {
    Point { x: -1_000_000, y: -1_000_000 }
}

#[test]
fn separation_pushes_both_agents_apart() {
    let a = agent(100_000, 100_000, 0, 0);
    let b = agent(110_000, 100_000, 0, 0);
    let mut a2 = a;
    a2.avoid_others(&vec![b]);
    let mut b2 = b;
    b2.avoid_others(&vec![a]);
    assert_eq!((a2.dx, a2.dy), (-5_000, 0));
    assert_eq!((b2.dx, b2.dy), (5_000, 0));
    assert_eq!((a2.x, a2.y), (a.x, a.y));
}

#[test]
fn separation_ignores_far_and_coincident_agents() {
    let a = agent(100_000, 100_000, 7, -3);
    let same_spot = agent(100_000, 100_000, 0, 0);
    let far = agent(116_000, 100_000, 0, 0);
    let mut a2 = a;
    a2.avoid_others(&vec![same_spot, far]);
    assert_eq!(a2, a);
}

#[test]
fn cohesion_and_alignment_do_nothing_when_alone() {
    let a = agent(100_000, 100_000, 1_234, -5_678);
    let far = agent(200_000, 100_000, 9_000, 9_000);
    let mut c = a;
    c.fly_towards_center(&vec![far]);
    assert_eq!(c, a);
    let mut m = a;
    m.match_velocity(&vec![far]);
    assert_eq!(m, a);
    let mut e = a;
    e.fly_towards_center(&vec![]);
    e.match_velocity(&vec![]);
    assert_eq!(e, a);
}

#[test]
fn cohesion_moves_a_twentieth_toward_the_centre() {
    let a = agent(100_000, 100_000, 0, 0);
    let b = agent(110_000, 100_000, 0, 0);
    let c = agent(100_000, 120_000, 0, 0);
    let mut a2 = a;
    a2.fly_towards_center(&vec![b, c]);
    // centre offset is (5000, 10000); a twentieth of it
    assert_eq!((a2.dx, a2.dy), (250, 500));
}

#[test]
fn alignment_moves_a_tenth_toward_the_mean_velocity() {
    let a = agent(100_000, 100_000, 0, 1_000);
    let b = agent(110_000, 100_000, 2_000, 0);
    let c = agent(100_000, 110_000, 4_000, 0);
    let mut a2 = a;
    a2.match_velocity(&vec![b, c]);
    // mean velocity (3000, 0); a tenth of (3000, -1000)
    assert_eq!((a2.dx, a2.dy), (300, 900));
}

#[test]
fn limit_speed_scales_down_keeping_direction() {
    let mut a = agent(0, 0, 300_000, 400_000);
    a.limit_speed();
    assert_eq!((a.dx, a.dy), (240_000, 320_000));
    let mut b = agent(0, 0, -800_000, 0);
    b.limit_speed();
    assert_eq!((b.dx, b.dy), (-SPEED_LIMIT, 0));
    let mut c = agent(0, 0, 100_000, -200_000);
    c.limit_speed();
    assert_eq!((c.dx, c.dy), (100_000, -200_000));
}

#[test]
fn limit_speed_never_exceeds_the_limit() {
    let cases = [(123_456_789, 987_654), (-1_000_001, 999_999), (400_001, 1), (0, -7_777_777)];
    for (dx, dy) in cases {
        let mut a = agent(0, 0, dx, dy);
        a.limit_speed();
        let s = (a.dx as i128) * (a.dx as i128) + (a.dy as i128) * (a.dy as i128);
        assert!(s <= (SPEED_LIMIT as i128) * (SPEED_LIMIT as i128));
    }
}

#[test]
fn containment_turns_inward_near_the_left_edge() {
    let mut a = agent(39_000, 360_000, 0, 0);
    a.keep_within_bounds(&world(), far_cursor());
    // x pushed by the full TURN_FACTOR; y not pushed, so damped
    assert_eq!(a.dx, TURN_FACTOR);
    assert_eq!(a.dy, 0);
}

#[test]
fn containment_pushes_at_edges_and_damps_inside() {
    let w = world();
    let mut right = agent(1_250_000, 360_000, 10_000, 0);
    right.keep_within_bounds(&w, far_cursor());
    assert_eq!((right.dx, right.dy), (10_000 - TURN_FACTOR, 0));
    let mut bottom = agent(640_000, 700_000, 1_000, 5_000);
    bottom.keep_within_bounds(&w, far_cursor());
    assert_eq!((bottom.dx, bottom.dy), (800, 5_000 - TURN_FACTOR));
    let mut top_left = agent(10_000, 10_000, -2_000, 3_000);
    top_left.keep_within_bounds(&w, far_cursor());
    assert_eq!((top_left.dx, top_left.dy), (-2_000 + TURN_FACTOR, 3_000 + TURN_FACTOR));
    let mut middle = agent(640_000, 360_000, 1_000, -1_000);
    middle.keep_within_bounds(&w, far_cursor());
    assert_eq!((middle.dx, middle.dy), (800, -800));
    let mut odd = agent(640_000, 360_000, 7, -7);
    odd.keep_within_bounds(&w, far_cursor());
    assert_eq!((odd.dx, odd.dy), (5, -5));
}

#[test]
fn game_tick_gains_turn_factor_at_left_edge() {
    let w = world();
    let mut a = agent(39_000, 360_000, 0, 0);
    Boid::game_tick(Point { x: 640_000, y: 360_000 }, &w, &mut a, &vec![]);
    assert_eq!((a.dx, a.dy), (TURN_FACTOR, 0));
    assert_eq!((a.x, a.y), (39_000, 360_000));
}

#[test]
fn containment_pushes_away_from_a_close_cursor() {
    let mut a = agent(640_000, 360_000, 0, 0);
    a.keep_within_bounds(&world(), Point { x: 650_000, y: 360_000 });
    assert_eq!((a.dx, a.dy), (-10_000, 0));
    let mut b = agent(640_000, 360_000, 0, 0);
    b.keep_within_bounds(&world(), Point { x: 640_000 + CURSOR_AVOID_RADIUS, y: 360_000 });
    assert_eq!((b.dx, b.dy), (0, 0));
}

#[test]
fn game_tick_runs_all_rules_in_order() {
    let w = world();
    let cursor = far_cursor();
    let a = agent(100_000, 100_000, 0, 0);
    let b = agent(110_000, 100_000, 1_000, 0);
    let mut ticked = a;
    Boid::game_tick(cursor, &w, &mut ticked, &vec![b]);
    let mut manual = a;
    manual.avoid_others(&vec![b]);
    manual.fly_towards_center(&vec![b]);
    manual.match_velocity(&vec![b]);
    manual.limit_speed();
    manual.keep_within_bounds(&w, cursor);
    assert_eq!(ticked, manual);
    // separation -5000, cohesion +500, alignment (1000 + 4500) / 10,
    // then damped by 0.8 away from the edges
    assert_eq!(ticked.dx, -3_160);
    assert_eq!((ticked.x, ticked.y), (a.x, a.y));
}

#[test]
fn game_tick_keeps_speed_within_bound() {
    let w = world();
    let a = agent(10_000, 10_000, 900_000_000, 900_000_000);
    let b = agent(12_000, 10_000, -900_000_000, 5);
    let mut t = a;
    Boid::game_tick(Point { x: 15_000, y: 15_000 }, &w, &mut t, &vec![b]);
    let s = (t.dx as i128) * (t.dx as i128) + (t.dy as i128) * (t.dy as i128);
    let bound = SPEED_BOUND_AFTER_STEERING as i128;
    assert!(s <= bound * bound);
}

#[test]
fn create_bt_lists_rules_in_order() {
    assert_eq!(
        Boid::create_bt(),
        vec![
            BoidAction::AvoidOthers,
            BoidAction::FlyTowardsCenter,
            BoidAction::MatchVelocity,
            BoidAction::LimitSpeed,
            BoidAction::KeepWithinBounds,
        ]
    );
}

#[test]
fn advance_moves_by_velocity_over_elapsed_time() {
    let mut a = agent(100_000, 100_000, 400_000, -200_000);
    a.advance(16);
    assert_eq!((a.x, a.y), (106_400, 96_800));
    let mut b = agent(100_000, 100_000, -1_999, 0);
    b.advance(1);
    assert_eq!(b.x, 99_999);
}

#[test]
fn from_draw_places_in_central_half() {
    let lo = SpawnDraw { x: 0, y: 0, dx: 0, dy: 0, r: 0, g: 1, b: 255 };
    let a = Boid::from_draw(1_280_000, 720_000, lo);
    assert_eq!((a.x, a.y), (320_000, 180_000));
    assert_eq!((a.dx, a.dy), (-SPEED_LIMIT / 2, -SPEED_LIMIT / 2));
    assert_eq!(a.color, Color { r: 128, g: 128, b: 255, a: 128 });
    let hi = SpawnDraw { x: u32::MAX, y: 1 << 31, dx: u32::MAX, dy: 1 << 31, r: 9, g: 9, b: 9 };
    let b = Boid::from_draw(1_280_000, 720_000, hi);
    assert_eq!(b.x, 320_000 + 639_999);
    assert_eq!(b.y, 180_000 + 180_000);
    assert_eq!(b.dx, SPEED_LIMIT / 2 - 1);
    assert_eq!(b.dy, 0);
}

#[test]
fn new_boids_spawn_in_central_half() {
    let (w, h) = (1_280_000i64, 720_000i64);
    let boids = Boid::create_boids(AGENT_COUNT, w, h);
    assert_eq!(boids.len(), AGENT_COUNT);
    for b in &boids {
        assert!(w / 4 <= b.x && b.x <= 3 * w / 4);
        assert!(h / 4 <= b.y && b.y <= 3 * h / 4);
        assert!(b.dx.abs() <= SPEED_LIMIT / 2 && b.dy.abs() <= SPEED_LIMIT / 2);
        assert!(b.color.r >= 128 && b.color.g >= 128 && b.color.b >= 128);
    }
    let one = Boid::new(w, h);
    assert!(w / 4 <= one.x && one.x <= 3 * w / 4);
}

#[test]
fn distance_sq_is_exact() {
    let a = agent(0, 0, 0, 0);
    assert_eq!(a.distance_sq(&agent(3_000, -4_000, 0, 0)), 25_000_000);
    assert_eq!(a.distance_sq(&a), 0);
    let far = agent(-1_000_000_000_000, 1_000_000_000_000, 0, 0);
    assert_eq!(far.distance_sq(&agent(1_000_000_000_000, -1_000_000_000_000, 0, 0)), 8_000_000_000_000_000_000_000_000);
}

#[test]
fn same_draws_spawn_identical_flocks() {
    let draws: Vec<SpawnDraw> = (0..20u32)
        .map(|i| SpawnDraw { x: i * 7_919, y: u32::MAX - i, dx: i << 20, dy: i, r: i as u8, g: 0, b: 99 })
        .collect();
    let a = Boid::create_boids_from(&draws, 1_280_000, 720_000);
    let b = Boid::create_boids_from(&draws, 1_280_000, 720_000);
    assert_eq!(a, b);
    assert_eq!(a.len(), 20);
    for (boid, d) in a.iter().zip(draws.iter()) {
        assert_eq!(*boid, Boid::from_draw(1_280_000, 720_000, *d));
    }
}

#[test]
fn near_checks_strict_distance() {
    let a = agent(0, 0, 0, 0);
    assert!(a.is_near(&agent(3_000, 4_000, 0, 0), 5_001));
    assert!(!a.is_near(&agent(3_000, 4_000, 0, 0), 5_000));
    assert!(a.is_crowded_by(&agent(10_000, 0, 0, 0)));
    assert!(!a.is_crowded_by(&agent(0, 0, 0, 0)));
}

#[test]
fn integer_helpers() {
    assert_eq!(div_toward_zero(-7, 2), -3);
    assert_eq!(div_toward_zero(7, 2), 3);
    assert_eq!(floor_sqrt_u128(24), 4);
    assert_eq!(floor_sqrt_u128(25), 5);
    assert_eq!(ceil_sqrt_u128(24), 5);
    assert_eq!(ceil_sqrt_u128(25), 5);
    assert_eq!(floor_sqrt_u128(0), 0);
    assert_eq!(floor_sqrt_u128(1u128 << 100), 1u128 << 50);
}

#[test]
fn act_dispatches_each_rule() {
    let w = world();
    let cursor = Point { x: 105_000, y: 100_000 };
    let a = agent(100_000, 100_000, 600_000, 0);
    let others = vec![agent(110_000, 100_000, 1_000, 0)];
    let mut by_act = a;
    let mut by_method = a;
    for action in Boid::create_bt() {
        by_act.act(action, &others, &w, cursor);
    }
    by_method.avoid_others(&others);
    by_method.fly_towards_center(&others);
    by_method.match_velocity(&others);
    by_method.limit_speed();
    by_method.keep_within_bounds(&w, cursor);
    assert_eq!(by_act, by_method);
    let mut ticked = a;
    Boid::game_tick(cursor, &w, &mut ticked, &others);
    assert_eq!(ticked, by_method);
}
