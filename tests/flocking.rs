use boids::batch::{batch_size, compute_all, compute_range};
use boids::flock::{classify, compute_delta, Class};
use boids::geometry::{Agent, Delta, Params, Vec2, Weight};
use boids::integrate::{clamp_speed, integrate, step_agent, visible_region, DeltaEntry, Region};
use boids::spawn::{spawn_position, Velocity, UNIT};

fn params() -> Params {
    Params {
        neighbor_cap: 100,
        visual_range: (40 * UNIT) as u16,
        protected_range: (8 * UNIT) as u16,
        cos_num: 1,
        cos_den: 2,
        centering: Weight { num: 1, den: 2000 },
        matching: Weight { num: 1, den: 20 },
        avoidance: Weight { num: 1, den: 20 },
        chase: Weight { num: 1, den: 2000 },
        turn: 205,
        min_speed: (2 * UNIT) as u16,
        max_speed: (4 * UNIT) as u16,
    }
}

fn agent(px: i32, py: i32, vx: i32, vy: i32) -> Agent {
    Agent { position: Vec2 { x: px, y: py }, velocity: Vec2 { x: vx, y: vy } }
}

fn wide_region() -> Region {
    Region { half_width: 1_000_000, half_height: 1_000_000 }
}

#[test]
fn alone_without_target_is_zero() {
    let store = vec![agent(0, 0, UNIT, 0)];
    let d = compute_delta(&store, 0, &vec![], None, &params());
    assert_eq!(d, Delta { x: 0, y: 0 });
}

#[test]
fn self_and_stale_candidates_are_skipped() {
    let store = vec![agent(0, 0, UNIT, 0)];
    let d = compute_delta(&store, 0, &vec![0, 7, 42], None, &params());
    assert_eq!(d, Delta { x: 0, y: 0 });
    assert_eq!(classify(&store, 0, 0, &params()), Class::Ignored);
    assert_eq!(classify(&store, 0, 9, &params()), Class::Ignored);
}

#[test]
fn behind_is_excluded_ahead_is_included() {
    // 120 degree field of view: half-angle 60 degrees, cosine 1/2.
    let store = vec![
        agent(0, 0, UNIT, 0),
        agent(-20 * UNIT, 0, 0, UNIT),
        agent(20 * UNIT, 0, 0, UNIT),
    ];
    let p = params();
    assert_eq!(classify(&store, 0, 1, &p), Class::Ignored);
    assert_eq!(classify(&store, 0, 2, &p), Class::Near);
    let behind = compute_delta(&store, 0, &vec![1], None, &p);
    assert_eq!(behind, Delta { x: 0, y: 0 });
}

#[test]
fn edge_of_view_cone() {
    let p = params();
    // Just inside 60 degrees off the heading is seen; just outside, or 90
    // degrees, is not.
    let store = vec![
        agent(0, 0, UNIT, 0),
        agent(10_000, 17_320, 0, 0),
        agent(10_000, 17_321, 0, 0),
        agent(0, 20_000, 0, 0),
    ];
    assert_eq!(classify(&store, 0, 1, &p), Class::Near);
    assert_eq!(classify(&store, 0, 2, &p), Class::Ignored);
    assert_eq!(classify(&store, 0, 3, &p), Class::Ignored);
}

#[test]
fn resting_agent_faces_the_x_axis() {
    let a = agent(5, 5, 0, 0);
    assert_eq!(a.heading(), Vec2 { x: 1, y: 0 });
    assert_eq!(agent(0, 0, -3, 4).heading(), Vec2 { x: -3, y: 4 });
}

#[test]
fn out_of_range_contributes_nothing() {
    let p = params();
    let store = vec![agent(0, 0, UNIT, 0), agent(41 * UNIT, 0, UNIT, 0), agent(20 * UNIT, 0, 0, UNIT)];
    assert_eq!(classify(&store, 0, 1, &p), Class::Ignored);
    let with_far = compute_delta(&store, 0, &vec![2, 1], None, &p);
    let without = compute_delta(&store, 0, &vec![2], None, &p);
    assert_eq!(with_far, without);
    assert_eq!(compute_delta(&store, 0, &vec![1], None, &p), Delta { x: 0, y: 0 });
}

#[test]
fn cohesion_and_alignment_exact() {
    let p = params();
    let store = vec![agent(0, 0, UNIT, 0), agent(20 * UNIT, 0, UNIT, 0)];
    let d = compute_delta(&store, 0, &vec![1], None, &p);
    // 20480 / 2000 = 10 (rounded toward zero), 1024 / 20 = 51.
    assert_eq!(d, Delta { x: 61, y: 0 });
}

#[test]
fn separation_points_away() {
    let p = params();
    let store = vec![agent(0, 0, UNIT, 0), agent(6 * UNIT, 0, -UNIT, 0)];
    assert_eq!(classify(&store, 0, 1, &p), Class::Close);
    let d = compute_delta(&store, 0, &vec![1], None, &p);
    // -6144 / 20 = -307.2, rounded away from zero.
    assert_eq!(d, Delta { x: -308, y: 0 });
}

#[test]
fn chase_target_exact() {
    let p = params();
    let store = vec![agent(0, 0, UNIT, 0)];
    let d = compute_delta(&store, 0, &vec![], Some(Vec2 { x: 100_000, y: -50_000 }), &p);
    assert_eq!(d, Delta { x: 50, y: -25 });
}

#[test]
fn neighbor_cap_limits_candidates() {
    let mut p = params();
    p.neighbor_cap = 1;
    let store = vec![agent(0, 0, UNIT, 0), agent(20 * UNIT, 0, 0, 0), agent(6 * UNIT, 0, 0, 0)];
    let d = compute_delta(&store, 0, &vec![1, 2], None, &p);
    // Only the first candidate counts: 20480 / 2000 = 10.
    assert_eq!(d, Delta { x: 10, y: 0 });
}

#[test]
fn two_agents_ten_apart() {
    let p = params();
    let store = vec![agent(0, 0, UNIT, 0), agent(10 * UNIT, 0, -UNIT, 0)];
    let deltas = compute_all(&store, &vec![vec![0, 1], vec![1, 0]], None, &p, 2);
    // Ten units is beyond the protected range of eight: cohesion, no separation.
    // 10240 / 2000 = 5, -1024 / 20 = -51.
    assert_eq!(deltas[0], DeltaEntry { agent: 0, delta: Delta { x: -46, y: 0 } });
    assert_eq!(deltas[1], DeltaEntry { agent: 1, delta: Delta { x: 46, y: 0 } });
}

#[test]
fn two_agents_inside_protected_range() {
    let p = params();
    let store = vec![agent(0, 0, UNIT, 0), agent(6 * UNIT, 0, -UNIT, 0)];
    let deltas = compute_all(&store, &vec![vec![1], vec![0]], None, &p, 1);
    assert_eq!(deltas[0].delta, Delta { x: -308, y: 0 });
    assert_eq!(deltas[1].delta, Delta { x: 308, y: 0 });
}

#[test]
fn worker_count_does_not_change_deltas() {
    let p = params();
    let mut store = vec![];
    for i in 0..10 {
        store.push(agent(i * 3 * UNIT, (i % 3) * 2 * UNIT, UNIT, i - 5));
    }
    let neighbors: Vec<Vec<usize>> = (0..10).map(|i| (0..10).filter(|&j| j != i).collect()).collect();
    let target = Some(Vec2 { x: 5 * UNIT, y: 5 * UNIT });
    let one = compute_all(&store, &neighbors, target, &p, 1);
    for w in [2, 3, 4, 7, 10, 16] {
        assert_eq!(compute_all(&store, &neighbors, target, &p, w), one);
    }
    let mut pieces = compute_range(&store, &neighbors, 0, 4, target, &p);
    pieces.extend(compute_range(&store, &neighbors, 4, 10, target, &p));
    assert_eq!(pieces, one);
}

#[test]
fn batch_sizes() {
    assert_eq!(batch_size(10, 3), 4);
    assert_eq!(batch_size(9, 3), 3);
    assert_eq!(batch_size(0, 4), 0);
    assert_eq!(batch_size(2, 8), 1);
}

#[test]
fn slow_agent_is_raised_to_min_speed() {
    // 1.5 units per tick, minimum 2.0.
    let v = clamp_speed(1536, 0, 2048, 4096);
    assert_eq!(v, Vec2 { x: 2048, y: 0 });
    let a = step_agent(agent(0, 0, 1536, 0), Delta { x: 0, y: 0 }, &params(), wide_region());
    assert_eq!(a.velocity, Vec2 { x: 2048, y: 0 });
    assert_eq!(a.position, Vec2 { x: 2048, y: 0 });
}

#[test]
fn fast_agent_is_lowered_to_max_speed() {
    let v = clamp_speed(0, -10_000, 2048, 4096);
    assert_eq!(v, Vec2 { x: 0, y: -4096 });
    let d = clamp_speed(3000, 4000, 2048, 4096);
    // 3000 * 4096 / 5000 = 2457.6, 4000 * 4096 / 5000 = 3276.8, rounded down.
    assert_eq!(d, Vec2 { x: 2457, y: 3276 });
}

#[test]
fn clamped_speed_stays_within_bounds() {
    let p = params();
    let min2 = (p.min_speed as i64).pow(2);
    let max2 = (p.max_speed as i64).pow(2);
    for (vx, vy) in [(1, 1), (-3, 7), (100, -1), (5000, 5000), (-70_000, 12), (2100, 0), (1, 0)] {
        let v = clamp_speed(vx, vy, p.min_speed, p.max_speed);
        let s = (v.x as i64).pow(2) + (v.y as i64).pow(2);
        assert!(min2 <= s && s <= max2, "{:?} -> {:?}", (vx, vy), v);
    }
}

#[test]
fn zero_velocity_stays_at_rest() {
    assert_eq!(clamp_speed(0, 0, 2048, 4096), Vec2 { x: 0, y: 0 });
}

#[test]
fn within_bounds_is_unchanged() {
    assert_eq!(clamp_speed(3000, -1000, 2048, 4096), Vec2 { x: 3000, y: -1000 });
}

#[test]
fn boundary_edge_turns_back() {
    let p = params();
    let region = visible_region((800 * UNIT) as u32, (400 * UNIT) as u32, (150 * UNIT) as u32);
    assert_eq!(region, Region { half_width: 332_800, half_height: 128_000 });
    let a = step_agent(agent(-332_801, 0, 3 * UNIT, 0), Delta { x: 0, y: 0 }, &p, region);
    assert_eq!(a.velocity, Vec2 { x: 3 * UNIT + 205, y: 0 });
    let b = step_agent(agent(0, 128_001, 0, 3 * UNIT), Delta { x: 0, y: 0 }, &p, region);
    assert_eq!(b.velocity, Vec2 { x: 0, y: 3 * UNIT - 205 });
    // Exactly on the edge is still inside: no nudge.
    let c = step_agent(agent(-332_800, 0, 3 * UNIT, 0), Delta { x: 0, y: 0 }, &p, region);
    assert_eq!(c.velocity, Vec2 { x: 3 * UNIT, y: 0 });
}

#[test]
fn position_saturates() {
    let a = step_agent(agent(i32::MAX - 10, 0, 3 * UNIT, 0), Delta { x: 0, y: 0 }, &params(), Region { half_width: i32::MAX, half_height: 10 });
    assert_eq!(a.position.x, i32::MAX);
}

#[test]
fn integrate_applies_each_entry() {
    let p = params();
    let mut store = vec![agent(0, 0, 3 * UNIT, 0), agent(100, 100, 0, 3 * UNIT), agent(7, 7, 0, 3 * UNIT)];
    let deltas = vec![
        DeltaEntry { agent: 1, delta: Delta { x: 10, y: 0 } },
        DeltaEntry { agent: 0, delta: Delta { x: 0, y: 5 } },
        DeltaEntry { agent: 9, delta: Delta { x: 1, y: 1 } },
    ];
    integrate(&mut store, &deltas, &p, wide_region());
    assert_eq!(store[0], agent(3 * UNIT, 5, 3 * UNIT, 5));
    assert_eq!(store[1], agent(110, 100 + 3 * UNIT, 10, 3 * UNIT));
    assert_eq!(store[2], agent(7, 7, 0, 3 * UNIT));
}

#[test]
fn random_velocity_in_range() {
    for _ in 0..100 {
        let v = Velocity::random();
        assert!(-UNIT <= v.0.x && v.0.x < UNIT);
        assert!(-UNIT <= v.0.y && v.0.y < UNIT);
    }
    let draws: Vec<Velocity> = (0..20).map(|_| Velocity::random()).collect();
    assert!(draws.iter().any(|v| *v != draws[0]));
}

#[test]
fn spawn_positions() {
    assert_eq!(spawn_position(0, 0, 800, 400), Vec2 { x: -400, y: -200 });
    assert_eq!(spawn_position(0x8000, 0x4000, 800, 400), Vec2 { x: 0, y: -100 });
}

#[test]
fn coincident_candidate_is_seen() {
    let p = params();
    let store = vec![agent(500, 500, UNIT, 0), agent(500, 500, 0, UNIT)];
    assert_eq!(classify(&store, 0, 1, &p), Class::Close);
    assert_eq!(compute_delta(&store, 0, &vec![1], None, &p), Delta { x: 0, y: 0 });
}

#[test]
fn wide_view_cone() {
    // A 240 degree field of view: half-angle 120 degrees, cosine -1/2.
    let mut p = params();
    p.cos_num = -1;
    p.cos_den = 2;
    let store = vec![
        agent(0, 0, UNIT, 0),
        agent(-3000, 10_000, 0, 0),
        agent(-20_000, 0, 0, 0),
        agent(-10_000, 17_000, 0, 0),
    ];
    // About 107 degrees off the heading: seen.
    assert_eq!(classify(&store, 0, 1, &p), Class::Near);
    // Straight behind: not seen.
    assert_eq!(classify(&store, 0, 2, &p), Class::Ignored);
    // About 120.5 degrees off: not seen.
    assert_eq!(classify(&store, 0, 3, &p), Class::Ignored);
}

#[test]
fn tiny_offset_still_pushes_away() {
    let p = params();
    let store = vec![agent(0, 0, UNIT, 0), agent(1, 0, -UNIT, 0)];
    let deltas = compute_all(&store, &vec![vec![1], vec![0]], None, &p, 2);
    assert_eq!(deltas[0].delta, Delta { x: -1, y: 0 });
    assert_eq!(deltas[1].delta, Delta { x: 1, y: 0 });
    let diag = vec![agent(0, 0, 1, 1), agent(3, 2, -1, -1)];
    let d = compute_delta(&diag, 0, &vec![1], None, &p);
    assert_eq!(d, Delta { x: -1, y: -1 });
}

#[test]
fn close_pair_ignores_velocities() {
    let p = params();
    let a = compute_delta(&vec![agent(0, 0, UNIT, 0), agent(4 * UNIT, 0, -UNIT, 0)], 0, &vec![1], None, &p);
    let b = compute_delta(&vec![agent(0, 0, 3 * UNIT, 0), agent(4 * UNIT, 0, 0, 2 * UNIT)], 0, &vec![1], None, &p);
    // -4096 / 20 = -204.8, rounded away from zero.
    assert_eq!(a, Delta { x: -205, y: 0 });
    assert_eq!(a, b);
}

#[test]
fn nudges_cancel_in_an_empty_region() {
    let p = params();
    let region = visible_region(100, 100, 150);
    assert_eq!(region, Region { half_width: -25, half_height: -25 });
    let a = step_agent(agent(0, 0, 3 * UNIT, 0), Delta { x: 0, y: 0 }, &p, region);
    assert_eq!(a.velocity, Vec2 { x: 3 * UNIT, y: 0 });
}
