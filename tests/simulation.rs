use amoeba_sim::body::{bounce, spring_force, Amoeba, Color, Spring};
use amoeba_sim::clock::now_ms;
use amoeba_sim::fixed::{fx_mul, isqrt, SCALE};
use amoeba_sim::vector::{normalize_or_zero, v_length, Vec2};
use amoeba_sim::world::{
    first_eater, nearest_food, remove_indices, should_spawn, spawn_probability, Food, World,
    SEED_NODES,
};

const BLUE: Color = Color { r: 0, g: 121, b: 241, a: 255 };

fn units(v: f64) -> i64 {
    (v * SCALE as f64).round() as i64
}

fn ring(n: usize) -> Vec<Vec2> {
    (0..n)
        .map(|i| {
            let angle = (i as f64 / n as f64) * 2.0 * std::f64::consts::PI;
            Vec2::new(units(angle.cos()), units(angle.sin()))
        })
        .collect()
}

fn body_at(x: f64, y: f64, radius: f64, n: usize) -> Amoeba {
    Amoeba::new(units(x), units(y), units(radius), &ring(n), BLUE)
}

fn spring(rest: f64, stiffness: f64, damping: f64) -> Spring {
    Spring { node_a: 0, node_b: 1, rest_length: units(rest), stiffness: units(stiffness), damping: units(damping) }
}

fn zero() -> Vec2 {
    Vec2::zero()
}

#[test]
fn coincident_spring_endpoints_exert_no_force() {
    let p = Vec2::new(units(12.5), units(-3.0));
    let f = spring_force(p, p, Vec2::new(units(4.0), 0), Vec2::new(0, units(-7.0)), &spring(10.0, 100.0, 2.0));
    assert_eq!(f, zero());
}

#[test]
fn nearly_coincident_spring_endpoints_exert_no_force() {
    let f = spring_force(zero(), Vec2::new(500, 0), zero(), zero(), &spring(10.0, 100.0, 2.0));
    assert_eq!(f, zero());
}

#[test]
fn stretched_spring_pulls_first_endpoint_toward_second() {
    let f = spring_force(zero(), Vec2::new(units(2.0), 0), zero(), zero(), &spring(1.0, 100.0, 2.0));
    assert_eq!(f, Vec2::new(units(100.0), 0));
}

#[test]
fn compressed_spring_pushes_endpoints_apart() {
    let f = spring_force(zero(), Vec2::new(0, units(1.0)), zero(), zero(), &spring(3.0, 50.0, 2.0));
    assert_eq!(f, Vec2::new(0, units(-100.0)));
}

#[test]
fn spring_damping_follows_relative_velocity() {
    let f = spring_force(zero(), Vec2::new(units(2.0), 0), zero(), Vec2::new(units(1.0), units(5.0)), &spring(1.0, 100.0, 2.0));
    assert_eq!(f, Vec2::new(units(102.0), 0));
}

#[test]
fn wall_bounce_clamps_and_halves_reversed_velocity() {
    assert_eq!(bounce(units(-5.0), units(3.0), units(800.0)), (0, units(-1.5)));
}

#[test]
fn far_wall_bounce_clamps_to_limit() {
    assert_eq!(bounce(units(805.0), units(4.0), units(800.0)), (units(800.0), units(-2.0)));
}

#[test]
fn position_inside_walls_is_left_alone() {
    assert_eq!(bounce(units(400.0), units(-4.0), units(800.0)), (units(400.0), units(-4.0)));
}

#[test]
fn spawn_probability_follows_temperature_with_a_floor() {
    assert_eq!(spawn_probability(units(20.0)), units(0.01));
    assert_eq!(spawn_probability(0), units(0.001));
    assert_eq!(spawn_probability(units(200.0)), units(0.1));
    assert_eq!(spawn_probability(units(-15.0)), units(0.001));
}

#[test]
fn spawn_happens_only_below_the_probability() {
    assert!(should_spawn(units(20.0), units(0.005)));
    assert!(!should_spawn(units(20.0), units(0.01)));
    assert!(!should_spawn(0, units(0.5)));
}

fn assert_regular_area(n: usize, r: f64) {
    let body = body_at(400.0, 300.0, r, n);
    let expected = n as f64 * r * r * (2.0 * std::f64::consts::PI / n as f64).sin() / 2.0;
    let got = body.area() as f64 / SCALE as f64;
    assert!((got - expected).abs() < 0.01, "n={} r={} got={} expected={}", n, r, got, expected);
}

#[test]
fn regular_polygon_area_matches_closed_form() {
    assert_regular_area(12, 30.0);
    assert_regular_area(3, 10.0);
    assert_regular_area(4, 50.0);
    assert_regular_area(7, 25.0);
    assert_regular_area(64, 100.0);
}

#[test]
fn construction_builds_ring_and_springs() {
    let body = body_at(400.0, 300.0, 30.0, 12);
    assert_eq!(body.nodes.len(), 12);
    assert_eq!(body.springs.len(), 18);
    assert_eq!(body.nodes[0].pos, Vec2::new(units(430.0), units(300.0)));
    assert_eq!(body.nodes[3].pos, Vec2::new(units(400.0), units(330.0)));
    for (i, s) in body.springs.iter().take(12).enumerate() {
        assert_eq!((s.node_a, s.node_b), (i, (i + 1) % 12));
        assert_eq!(s.stiffness, units(100.0));
        assert_eq!(s.damping, units(2.0));
        let chord = 2.0 * 30.0 * (std::f64::consts::PI / 12.0).sin();
        assert!((s.rest_length as f64 / SCALE as f64 - chord).abs() < 1e-4);
    }
    for (i, s) in body.springs.iter().skip(12).enumerate() {
        assert_eq!((s.node_a, s.node_b), (i, i + 6));
        assert_eq!(s.stiffness, units(50.0));
        assert!((s.rest_length as f64 / SCALE as f64 - 60.0).abs() < 1e-4);
    }
    assert_eq!(body.center, Vec2::new(units(400.0), units(300.0)));
    assert_eq!(body.radius, units(30.0));
}

#[test]
fn odd_ring_gets_one_diagonal_per_node_of_the_first_half() {
    let body = body_at(100.0, 100.0, 20.0, 7);
    assert_eq!(body.springs.len(), 7 + 4);
    let diagonals: Vec<(usize, usize)> = body.springs[7..].iter().map(|s| (s.node_a, s.node_b)).collect();
    assert_eq!(diagonals, vec![(0, 3), (1, 4), (2, 5), (3, 6)]);
}

#[test]
fn growth_adds_one_to_radius_and_scales_rest_lengths() {
    let mut body = body_at(400.0, 300.0, 30.0, 12);
    let before: Vec<i64> = body.springs.iter().map(|s| s.rest_length).collect();
    body.grow();
    assert_eq!(body.radius, units(31.0));
    for (s, old) in body.springs.iter().zip(before.iter()) {
        assert_eq!(s.rest_length, fx_mul(*old, 1_020_000));
        assert!((s.rest_length as f64 - *old as f64 * 1.02).abs() <= 1.0);
    }
}

fn world_with_two_overlapping_bodies() -> World {
    let mut world = World::new(units(800.0), units(600.0), &ring(SEED_NODES));
    world.amoebas.push(body_at(400.0, 300.0, 30.0, 12));
    world
}

#[test]
fn food_reached_by_two_bodies_goes_to_the_first() {
    let mut world = world_with_two_overlapping_bodies();
    world.foods.push(Food::new(units(400.0), units(300.0)));
    let eaten = world.feed();
    assert_eq!(eaten, vec![0]);
    assert_eq!(world.amoebas[0].radius, units(31.0));
    assert_eq!(world.amoebas[1].radius, units(30.0));
    let untouched = body_at(400.0, 300.0, 30.0, 12);
    for (s, t) in world.amoebas[1].springs.iter().zip(untouched.springs.iter()) {
        assert_eq!(s.rest_length, t.rest_length);
    }
}

#[test]
fn food_out_of_reach_is_not_eaten() {
    let mut world = world_with_two_overlapping_bodies();
    world.foods.push(Food::new(units(700.0), units(100.0)));
    assert_eq!(world.feed(), Vec::<usize>::new());
    assert_eq!(world.amoebas[0].radius, units(30.0));
}

#[test]
fn eaten_food_is_removed_once_during_a_tick() {
    let mut world = world_with_two_overlapping_bodies();
    world.foods.push(Food::new(units(700.0), units(100.0)));
    world.foods.push(Food::new(units(400.0), units(300.0)));
    world.foods.push(Food::new(units(10.0), units(590.0)));
    let jitter: Vec<Vec<Vec2>> = world.amoebas.iter().map(|a| vec![zero(); a.nodes.len()]).collect();
    world.update(units(1.0 / 60.0), &jitter, units(0.99), zero());
    assert_eq!(world.foods.len(), 2);
    assert_eq!(world.foods[0].pos, Vec2::new(units(700.0), units(100.0)));
    assert_eq!(world.foods[1].pos, Vec2::new(units(10.0), units(590.0)));
    assert_eq!(world.amoebas[0].radius, units(31.0));
    assert_eq!(world.amoebas[1].radius, units(30.0));
}

#[test]
fn descending_removal_keeps_other_items_in_order() {
    let mut foods: Vec<Food> = (0..6).map(|i| Food::new(units(i as f64), units(2.0 * i as f64))).collect();
    foods[4].value = units(3.5);
    remove_indices(&mut foods, &vec![1, 3, 5]);
    let xs: Vec<i64> = foods.iter().map(|f| f.pos.x).collect();
    assert_eq!(xs, vec![0, units(2.0), units(4.0)]);
    assert_eq!(foods[1].pos.y, units(4.0));
    assert_eq!(foods[2].value, units(3.5));
    assert_eq!(foods[0].value, units(10.0));
}

#[test]
fn removing_adjacent_indices_keeps_the_rest() {
    let mut foods: Vec<Food> = (0..4).map(|i| Food::new(units(i as f64), 0)).collect();
    remove_indices(&mut foods, &vec![0, 1]);
    let xs: Vec<i64> = foods.iter().map(|f| f.pos.x).collect();
    assert_eq!(xs, vec![units(2.0), units(3.0)]);
    remove_indices(&mut foods, &vec![]);
    assert_eq!(foods.len(), 2);
}

#[test]
fn nearest_food_prefers_the_earliest_on_ties() {
    let foods = vec![
        Food::new(units(10.0), 0),
        Food::new(0, units(5.0)),
        Food::new(units(-5.0), 0),
        Food::new(0, units(-20.0)),
    ];
    assert_eq!(nearest_food(zero(), &foods), Some(1));
    assert_eq!(nearest_food(zero(), &vec![]), None);
}

#[test]
fn first_eater_scans_bodies_in_order() {
    let bodies = vec![body_at(100.0, 100.0, 30.0, 6), body_at(400.0, 300.0, 30.0, 6), body_at(410.0, 300.0, 30.0, 6)];
    assert_eq!(first_eater(&bodies, Vec2::new(units(405.0), units(300.0))), Some(1));
    assert_eq!(first_eater(&bodies, Vec2::new(units(439.0), units(300.0))), Some(2));
    assert_eq!(first_eater(&bodies, Vec2::new(units(700.0), units(300.0))), None);
    assert_eq!(first_eater(&bodies, Vec2::new(units(430.0), units(300.0))), Some(2));
}

#[test]
fn idle_body_without_food_stays_put() {
    let mut world = World::new(units(800.0), units(600.0), &ring(SEED_NODES));
    world.temperature = 0;
    let start = world.amoebas[0].center;
    let jitter = vec![vec![zero(); SEED_NODES]];
    for _ in 0..600 {
        world.update(units(1.0 / 60.0), &jitter, units(0.5), zero());
    }
    assert!(world.foods.is_empty());
    let end = world.amoebas[0].center;
    let dx = (end.x - start.x) as f64 / SCALE as f64;
    let dy = (end.y - start.y) as f64 / SCALE as f64;
    assert!((dx * dx + dy * dy).sqrt() < 1.0, "moved by ({}, {})", dx, dy);
    for n in &world.amoebas[0].nodes {
        assert!(n.pos.x >= 0 && n.pos.x <= units(800.0) && n.pos.y >= 0 && n.pos.y <= units(600.0));
    }
}

#[test]
fn body_steers_toward_food() {
    let mut world = World::new(units(800.0), units(600.0), &ring(SEED_NODES));
    world.foods.push(Food::new(units(700.0), units(300.0)));
    let jitter = vec![vec![zero(); SEED_NODES]];
    let start = world.amoebas[0].center;
    for _ in 0..60 {
        world.update(units(1.0 / 60.0), &jitter, units(0.99), zero());
    }
    assert!(world.amoebas[0].center.x > start.x + units(1.0));
    assert_eq!(world.foods.len(), 1);
}

#[test]
fn jitter_moves_nodes_when_there_is_no_food() {
    let mut body = body_at(400.0, 300.0, 30.0, 6);
    let jitter = vec![Vec2::new(units(6.0), units(-6.0)); 6];
    body.steer(None, &jitter, units(0.5));
    for n in &body.nodes {
        assert_eq!(n.vel, Vec2::new(units(3.0), units(-3.0)));
    }
    let mut toward = body_at(400.0, 300.0, 30.0, 6);
    toward.steer(Some(Vec2::new(units(400.0), units(500.0))), &jitter, units(0.5));
    for n in &toward.nodes {
        assert_eq!(n.vel, Vec2::new(0, units(25.0)));
    }
}

#[test]
fn warm_world_spawns_food_at_the_drawn_position() {
    let mut world = World::new(units(800.0), units(600.0), &ring(SEED_NODES));
    world.temperature = units(200.0);
    let jitter = vec![vec![zero(); SEED_NODES]];
    world.update(units(1.0 / 60.0), &jitter, units(0.05), Vec2::new(units(12.0), units(34.0)));
    assert_eq!(world.foods.len(), 1);
    assert_eq!(world.foods[0].pos, Vec2::new(units(12.0), units(34.0)));
    assert_eq!(world.foods[0].value, units(10.0));
}

#[test]
fn new_world_has_one_seed_body() {
    let world = World::new(units(800.0), units(600.0), &ring(SEED_NODES));
    assert_eq!(world.amoebas.len(), 1);
    assert_eq!(world.amoebas[0].center, Vec2::new(units(400.0), units(300.0)));
    assert_eq!(world.amoebas[0].nodes.len(), 12);
    assert_eq!(world.temperature, units(20.0));
    assert!(world.foods.is_empty());
}

#[test]
fn body_update_keeps_nodes_inside_walls() {
    let mut body = body_at(20.0, 20.0, 30.0, 8);
    body.update(units(1.0 / 60.0), units(100.0), units(100.0));
    for n in &body.nodes {
        assert!(n.pos.x >= 0 && n.pos.x <= units(100.0));
        assert!(n.pos.y >= 0 && n.pos.y <= units(100.0));
    }
    let sx: i64 = body.nodes.iter().map(|n| n.pos.x).sum();
    assert_eq!(body.center.x, sx / 8);
}

#[test]
fn square_roots_and_lengths() {
    assert_eq!(isqrt(0), 0);
    assert_eq!(isqrt(15), 3);
    assert_eq!(isqrt(16), 4);
    assert_eq!(v_length(Vec2::new(units(3.0), units(4.0))), units(5.0));
    assert_eq!(normalize_or_zero(Vec2::new(units(3.0), units(4.0))), Vec2::new(units(0.6), units(0.8)));
    assert_eq!(normalize_or_zero(zero()), zero());
}

#[test]
fn clock_reads_after_the_epoch() {
    assert!(now_ms() > 1_600_000_000_000);
}

fn distance_from(p: Vec2, x: f64, y: f64) -> f64 {
    let dx = p.x as f64 / SCALE as f64 - x;
    let dy = p.y as f64 / SCALE as f64 - y;
    (dx * dx + dy * dy).sqrt()
}

#[test]
fn fresh_body_expands_under_pressure() {
    for n in [3usize, 5, 12, 20] {
        let mut body = body_at(400.0, 300.0, 30.0, n);
        assert!(body.pressure() > 0);
        body.update(units(1.0 / 60.0), units(800.0), units(600.0));
        for node in &body.nodes {
            let d = distance_from(node.pos, 400.0, 300.0);
            assert!(d > 30.0, "n={} node at distance {}", n, d);
        }
    }
}

#[test]
fn clockwise_body_also_expands_under_pressure() {
    let dirs: Vec<Vec2> = ring(12).into_iter().rev().collect();
    let mut body = Amoeba::new(units(400.0), units(300.0), units(30.0), &dirs, BLUE);
    body.update(units(1.0 / 60.0), units(800.0), units(600.0));
    for node in &body.nodes {
        assert!(distance_from(node.pos, 400.0, 300.0) > 30.0);
    }
}

#[test]
fn node_crossing_the_left_wall_bounces_in_the_same_step() {
    let mut body = body_at(31.0, 300.0, 30.0, 12);
    body.nodes[6].vel = Vec2::new(units(-120.0), 0);
    body.update(units(1.0 / 60.0), units(800.0), units(600.0));
    assert_eq!(body.nodes[6].pos.x, 0);
    assert!(body.nodes[6].vel.x > 0);
}
