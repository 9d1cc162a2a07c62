use boids::boid::{Boid, Color, Point, SpawnDraw, WorldBounds, AGENT_COUNT};
use boids::session::{GameState, Keys, PlayState};

const NONE: Keys = Keys { reset: false, start: false, pause: false };
const START: Keys = Keys { reset: false, start: true, pause: false };
const PAUSE: Keys = Keys { reset: false, start: false, pause: true };
const RESET: Keys = Keys { reset: true, start: false, pause: false };
const ALL: Keys = Keys { reset: true, start: true, pause: true };

fn world() -> WorldBounds {
    WorldBounds { width: 1_280_000, height: 720_000 }
}

fn cursor() -> Point {
    Point { x: 0, y: 0 }
}

fn draws(n: u32) -> Vec<SpawnDraw> {
    (0..n)
        .map(|i| SpawnDraw {
            x: i.wrapping_mul(2_654_435_761),
            y: i.wrapping_mul(40_503),
            dx: i.wrapping_mul(97_531),
            dy: u32::MAX - i,
            r: i as u8,
            g: 3,
            b: 200,
        })
        .collect()
}

fn agent(x: i64, y: i64, dx: i64, dy: i64) -> Boid {
    Boid { x, y, dx, dy, color: Color { r: 200, g: 200, b: 200, a: 128 } }
}

#[test]
fn new_session_is_empty_setup() {
    let g = GameState::new(world());
    assert_eq!(g.state, PlayState::Setup);
    assert!(g.boids.is_empty());
}

#[test]
fn start_spawns_agent_count_in_central_half() {
    let w = world();
    let mut g = GameState::new(w);
    let playing = g.input_key(START, &draws(AGENT_COUNT as u32));
    assert!(playing);
    assert_eq!(g.state, PlayState::Play);
    assert_eq!(g.boids.len(), AGENT_COUNT);
    for b in &g.boids {
        assert!(w.width / 4 <= b.x && b.x <= 3 * w.width / 4);
        assert!(w.height / 4 <= b.y && b.y <= 3 * w.height / 4);
    }
}

#[test]
fn random_start_spawns_agent_count() {
    let mut g = GameState::new(world());
    g.game_op_tick(16, START, cursor());
    assert_eq!(g.state, PlayState::Play);
    assert_eq!(g.boids.len(), AGENT_COUNT);
}

#[test]
fn reset_wins_over_other_keys() {
    let mut g = GameState::new(world());
    g.game_op_tick_with(16, START, cursor(), &draws(10));
    assert_eq!(g.boids.len(), 10);
    g.game_op_tick_with(16, ALL, cursor(), &draws(10));
    assert_eq!(g.state, PlayState::Setup);
    assert!(g.boids.is_empty());
}

#[test]
fn pause_and_resume() {
    let mut g = GameState::new(world());
    g.game_op_tick_with(16, START, cursor(), &draws(5));
    g.game_op_tick_with(16, PAUSE, cursor(), &vec![]);
    assert_eq!(g.state, PlayState::Pause);
    let frozen = g.boids.clone();
    g.game_op_tick_with(16, NONE, cursor(), &vec![]);
    assert_eq!(g.boids, frozen);
    g.game_op_tick_with(16, PAUSE, cursor(), &vec![]);
    assert_eq!(g.state, PlayState::Pause);
    g.game_op_tick_with(16, START, cursor(), &vec![]);
    assert_eq!(g.state, PlayState::Play);
    assert_eq!(g.boids.len(), 5);
    g.game_op_tick_with(16, RESET, cursor(), &vec![]);
    assert_eq!(g.state, PlayState::Setup);
    assert!(g.boids.is_empty());
}

#[test]
fn setup_ignores_pause_and_no_keys() {
    let mut g = GameState::new(world());
    assert!(!g.input_key(PAUSE, &draws(3)));
    assert!(!g.input_key(NONE, &draws(3)));
    assert_eq!(g.state, PlayState::Setup);
    assert!(g.boids.is_empty());
}

#[test]
fn each_agent_sees_the_pre_tick_flock() {
    let w = world();
    let a = agent(100_000, 100_000, 50_000, 0);
    let b = agent(110_000, 100_000, -50_000, 0);
    let mut g = GameState::new(w);
    g.state = PlayState::Play;
    g.boids = vec![a, b];
    g.update_flock(10, cursor());

    let mut a2 = a;
    Boid::game_tick(cursor(), &w, &mut a2, &vec![b]);
    a2.advance(10);
    let mut b2 = b;
    Boid::game_tick(cursor(), &w, &mut b2, &vec![a]);
    b2.advance(10);
    assert_eq!(g.boids, vec![a2, b2]);

    // steering b against the already-updated a would give another result
    let mut b_seq = b;
    Boid::game_tick(cursor(), &w, &mut b_seq, &vec![a2]);
    b_seq.advance(10);
    assert_ne!(b_seq, b2);
}

#[test]
fn same_draws_and_inputs_give_identical_runs() {
    let inputs = [
        (16u32, START),
        (16, NONE),
        (33, NONE),
        (7, PAUSE),
        (16, NONE),
        (16, START),
        (999, NONE),
    ];
    let mut g1 = GameState::new(world());
    let mut g2 = GameState::new(world());
    let d = draws(AGENT_COUNT as u32);
    for (dt, keys) in inputs {
        g1.game_op_tick_with(dt, keys, Point { x: 640_000, y: 360_000 }, &d);
        g2.game_op_tick_with(dt, keys, Point { x: 640_000, y: 360_000 }, &d);
        assert_eq!(g1.state, g2.state);
        assert_eq!(g1.boids, g2.boids);
    }
    assert_eq!(g1.state, PlayState::Play);
}
