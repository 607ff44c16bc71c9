use quadsim::nums::COORD_LIMIT;
use quadsim::particle::{Color, Point, Vec2};
use quadsim::passes::{
    integrate_pass, resolve_collisions, resolve_mouse_collisions, resolve_wall_collisions,
    SimConfig,
};
use quadsim::store::ParticleStore;

fn mk(id: usize, x: i64, y: i64, radius: i64) -> Point {
    Point::new(
        id,
        Vec2::new(x, y),
        Vec2::new(x, y),
        Vec2::zero(),
        radius,
        Color { red: 0, green: 0, blue: 0 },
    )
}

// A typical configuration at a scale of 1024 sub-units per world unit:
// an 800 x 800 window, buckets of 16, pointer radius 16, radii in [8, 16],
// gravity -2200, dt = 1 / (4 * 90), and a spawn offset of 2.
const SCALE: i64 = 1024;

fn config() -> SimConfig {
    SimConfig {
        left: -400 * SCALE,
        bottom: -400 * SCALE,
        width: 800 * SCALE,
        height: 800 * SCALE,
        bucket_capacity: 16,
        pointer_radius: 16 * SCALE,
        min_radius: 8 * SCALE,
        max_radius: 16 * SCALE,
        gravity: -2200 * SCALE,
        dt_denominator: 360,
        sub_step_count: 4,
        spawn_offset: 2 * SCALE,
        running: true,
        show_index_outlines: true,
    }
}

#[test]
fn single_sided_half_penetration_push() {
    // Two disks of radius 10 world units with centers 15 apart on the x axis,
    // at a fixed-point scale of 2 sub-units per unit: radius 20, distance 30.
    // Penetration is 5 world units, so each task's single-sided correction
    // moves its own particle by 2.5 units (5 sub-units) along the axis.
    let mut pts = vec![mk(0, 0, 0, 20), mk(1, 30, 0, 20)];
    resolve_collisions(&mut pts, -400, -400, 800, 800, 16, 20);
    assert_eq!(pts[0].position.x, -5);
    assert_eq!(pts[0].position.y, 0);
    assert_eq!(pts[1].position.x, 35);
    assert_eq!(pts[1].position.y, 0);
}

#[test]
fn non_overlapping_particles_do_not_move() {
    let mut pts = vec![mk(0, 0, 0, 10), mk(1, 100, 0, 10)];
    resolve_collisions(&mut pts, -400, -400, 800, 800, 16, 10);
    assert_eq!(pts[0].position, Vec2::new(0, 0));
    assert_eq!(pts[1].position, Vec2::new(100, 0));
}

#[test]
fn coincident_centers_use_horizontal_fallback_axis() {
    // Exactly coincident centers give a zero-length separating axis; the
    // deterministic fallback pushes along the unit horizontal axis by half
    // the penetration, which is half the radius sum.
    let mut pts = vec![mk(0, 10, 10, 6), mk(1, 10, 10, 6)];
    resolve_collisions(&mut pts, -400, -400, 800, 800, 16, 6);
    assert_eq!(pts[0].position, Vec2::new(16, 10));
    assert_eq!(pts[1].position, Vec2::new(16, 10));
}

#[test]
fn wall_clamp_floor_exact() {
    // Bottom edge below the floor: the vertical coordinate ends exactly at
    // bottom + radius, vertical acceleration is zeroed, implicit vertical
    // velocity is halved.
    let mut pts = vec![mk(0, 0, -395, 10)];
    pts[0].prev_position = Vec2::new(0, -385);
    resolve_wall_collisions(&mut pts, -2200, -400, 400, -400);
    assert_eq!(pts[0].position.y, -390);
    assert_eq!(pts[0].acceleration.y, 0);
    assert_eq!(pts[0].acceleration.x, 0);
    // y_diff was -10, so the new previous y is position.y + (-10 / 2).
    assert_eq!(pts[0].prev_position.y, -395);
}

#[test]
fn wall_clamp_sides_exact() {
    let mut pts = vec![mk(0, -398, 0, 10), mk(1, 395, 0, 10)];
    resolve_wall_collisions(&mut pts, -2200, -400, 400, -400);
    assert_eq!(pts[0].position.x, -390);
    assert_eq!(pts[1].position.x, 390);
    // Particles away from the floor keep gravity as their acceleration.
    assert_eq!(pts[0].acceleration.y, -2200);
}

#[test]
fn pointer_push_exact() {
    // Particle of radius 10 at the origin, pointer disk of radius 4 at
    // (8, 0): penetration 6, push -8 * 6 / 16 = -3 along x.
    let mut pts = vec![mk(0, 0, 0, 10)];
    resolve_mouse_collisions(&mut pts, 8, 0, 4);
    assert_eq!(pts[0].position, Vec2::new(-3, 0));
}

#[test]
fn stationary_particle_unchanged_by_integration() {
    let mut pts = vec![mk(0, 123, -45, 10)];
    integrate_pass(&mut pts, 360);
    assert_eq!(pts[0].position, Vec2::new(123, -45));
    assert_eq!(pts[0].prev_position, Vec2::new(123, -45));
    assert_eq!(pts[0].acceleration, Vec2::zero());
}

#[test]
fn integration_carries_implicit_velocity() {
    let mut pts = vec![mk(0, 100, 100, 10)];
    pts[0].prev_position = Vec2::new(97, 102);
    integrate_pass(&mut pts, 360);
    // velocity (3, -2) carries over; acceleration is zero.
    assert_eq!(pts[0].position, Vec2::new(103, 98));
    assert_eq!(pts[0].prev_position, Vec2::new(100, 100));
}

#[test]
fn spawn_ids_increase_and_radii_in_range() {
    let mut store = ParticleStore::new();
    let id0 = store.spawn(Vec2::new(0, 0), 8, 16, 2);
    let id1 = store.spawn(Vec2::new(50, 0), 8, 16, 2);
    let id2 = store.spawn(Vec2::new(100, 0), 8, 16, 2);
    assert!(id0 < id1 && id1 < id2);
    assert_eq!(id0, 0);
    assert_eq!(id1, 1);
    assert_eq!(id2, 2);
    for p in store.points().iter() {
        assert!(p.radius >= 8 && p.radius <= 16);
        assert_eq!(p.acceleration, Vec2::zero());
    }
    assert_eq!(store.points()[1].prev_position, Vec2::new(48, 0));
}

#[test]
fn spawn_with_equal_bounds_pins_radius() {
    let mut store = ParticleStore::new();
    store.spawn(Vec2::new(0, 0), 12, 12, 2);
    assert_eq!(store.points()[0].radius, 12);
}

#[test]
fn clear_all_empties_store() {
    let mut store = ParticleStore::new();
    store.spawn(Vec2::new(0, 0), 8, 16, 2);
    store.spawn(Vec2::new(40, 0), 8, 16, 2);
    assert_eq!(store.len(), 2);
    store.clear_all();
    assert_eq!(store.len(), 0);
}

#[test]
fn step_not_running_leaves_store_untouched() {
    let cfg0 = config();
    let mut store = ParticleStore::new();
    store.spawn(Vec2::new(0, 0), cfg0.min_radius, cfg0.max_radius, cfg0.spawn_offset);
    let before = store.points().clone();
    let mut cfg = cfg0;
    cfg.running = false;
    store.step(&cfg, 0, 300 * SCALE);
    assert_eq!(&before, store.points());
}

#[test]
fn gravity_pulls_a_free_particle_down() {
    let cfg = config();
    let mut store = ParticleStore::new();
    store.spawn(Vec2::new(0, 300 * SCALE), cfg.min_radius, cfg.max_radius, 0);
    let y_before = store.points()[0].position.y;
    // Pointer far away so it cannot touch the particle.
    store.step(&cfg, -399 * SCALE, -399 * SCALE);
    let y_after = store.points()[0].position.y;
    assert!(y_after < y_before);
    assert!(y_after >= cfg.bottom);
}

#[test]
fn positions_stay_in_coordinate_range() {
    let cfg = config();
    let mut store = ParticleStore::new();
    store.spawn(Vec2::new(0, 300 * SCALE), cfg.min_radius, cfg.max_radius, cfg.spawn_offset);
    store.spawn(Vec2::new(5 * SCALE, 300 * SCALE), cfg.min_radius, cfg.max_radius, cfg.spawn_offset);
    for _ in 0..10 {
        store.step(&cfg, -399 * SCALE, -399 * SCALE);
    }
    for p in store.points().iter() {
        assert!(p.position.x.abs() <= COORD_LIMIT);
        assert!(p.position.y.abs() <= COORD_LIMIT);
    }
}
