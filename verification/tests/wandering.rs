//! Actors that wander around their spawns.
use std::collections::BTreeMap;

use nav_scene::{
    position_is_walkable, Attributes, Collider, Entity, NavGrid, Point, Real, Scene, SceneMetadata,
    WanderSimulation,
};

fn number(value: f64) -> Real {
    Real { bits: value.to_bits() }
}

fn float(value: Real) -> f64 {
    f64::from_bits(value.bits)
}

fn point(world: [f64; 2]) -> Point {
    Point { x: number(world[0]), z: number(world[1]) }
}

fn squared_distance(left: Point, right: Point) -> f64 {
    (float(left.x) - float(right.x)).powi(2) + (float(left.z) - float(right.z)).powi(2)
}

fn circle(angle: Real) -> Point {
    point([float(angle).sin(), float(angle).cos()])
}

fn bearing(direction: Point) -> Real {
    number(float(direction.x).atan2(float(direction.z)).to_degrees())
}

fn scene(blocked: Vec<u8>) -> Scene {
    Scene {
        metadata: SceneMetadata {
            schema_version: 1,
            scene_id: "wander-test".into(),
            label: "wander test".into(),
            captured_at_unix_ms: 0,
            source: "test".into(),
            source_revision: None,
            attributes: Attributes::new(),
        },
        grid: NavGrid {
            width: 20,
            height: 20,
            origin: point([0.0, 0.0]),
            cell_size: number(1.0),
            blocked,
            shape_ids: vec![0; 400],
            shapes: BTreeMap::new(),
        },
        entities: vec![Entity {
            id: "actor:test".into(),
            category: "actor".into(),
            label: "test actor".into(),
            position: point([10.5, 10.5]),
            heading_degrees: Some(number(90.0)),
            collider: Some(Collider::Circle { radius: number(0.25) }),
            ranges: Vec::new(),
            attributes: Attributes::new(),
        }],
        prefab_collisions: Vec::new(),
        placements: Vec::new(),
    }
}

#[test]
fn actor_stays_near_its_spawn_and_reset_restores_it() {
    let mut scene = scene(vec![0; 400]);
    let spawn = scene.entities[0].position;
    let mut simulation = WanderSimulation::from_scene(&scene);
    simulation.radius = number(3.0);
    for _ in 0..10_000 {
        simulation.update(&mut scene, number(0.02), circle, bearing);
        assert!(squared_distance(scene.entities[0].position, spawn) <= 9.0 + 1e-9);
    }
    assert_ne!(scene.entities[0].position, spawn);
    simulation.reset(&mut scene);
    assert_eq!(scene.entities[0].position, spawn);
    assert_eq!(scene.entities[0].heading_degrees, Some(number(90.0)));
}

#[test]
fn collider_is_rejected_before_overlapping_a_blocked_cell() {
    let mut grid = scene(vec![0; 400]).grid;
    let blocked_index = grid.index(11, 10);
    grid.blocked[blocked_index] = 1;
    assert!(position_is_walkable(
        &grid,
        point([10.5, 10.5]),
        Some(Collider::Circle { radius: number(0.25) })
    ));
    assert!(!position_is_walkable(
        &grid,
        point([10.8, 10.5]),
        Some(Collider::Circle { radius: number(0.25) })
    ));
}

#[test]
fn boxes_and_points_are_rejected_in_blocked_cells() {
    let mut grid = scene(vec![0; 400]).grid;
    let blocked_index = grid.index(11, 10);
    grid.blocked[blocked_index] = 1;
    let boxed = Some(Collider::Box { half_extents: point([0.5, 0.25]) });
    assert!(position_is_walkable(&grid, point([10.5, 10.5]), boxed));
    assert!(!position_is_walkable(&grid, point([10.75, 10.5]), boxed));
    assert!(position_is_walkable(&grid, point([10.75, 10.5]), None));
    assert!(!position_is_walkable(&grid, point([11.25, 10.5]), None));
    assert!(!position_is_walkable(&grid, point([-0.25, 10.5]), None));
    assert!(!position_is_walkable(&grid, point([0.25, 10.5]), boxed));
}

#[test]
fn a_walled_in_actor_stays_where_it_is() {
    let mut blocked = vec![1; 400];
    blocked[10 * 20 + 10] = 0;
    let mut scene = scene(blocked);
    scene.entities[0].collider = Some(Collider::Circle { radius: number(0.499) });
    let mut simulation = WanderSimulation::from_scene(&scene);
    assert_eq!(simulation.actor_count(), 1);
    let spawn = scene.entities[0].position;
    for _ in 0..500 {
        simulation.update(&mut scene, number(0.1), circle, bearing);
        assert!(squared_distance(scene.entities[0].position, spawn) < 1e-4);
    }
}

#[test]
fn nothing_moves_while_the_simulation_is_off() {
    let mut scene = scene(vec![0; 400]);
    let mut simulation = WanderSimulation::from_scene(&scene);
    let before = scene.clone();
    for dt in [0.0, -1.0, f64::NAN, f64::INFINITY] {
        simulation.update(&mut scene, number(dt), circle, bearing);
        assert_eq!(scene, before);
    }
    simulation.enabled = false;
    simulation.update(&mut scene, number(0.1), circle, bearing);
    assert_eq!(scene, before);
    simulation.enabled = true;
    simulation.speed = number(0.0);
    simulation.update(&mut scene, number(0.1), circle, bearing);
    assert_eq!(scene, before);
    simulation.speed = number(1.0);
    simulation.update(&mut scene, number(0.1), circle, bearing);
    assert_ne!(scene, before);
}

#[test]
fn a_step_is_the_speed_times_the_time() {
    let mut scene = scene(vec![0; 400]);
    let mut simulation = WanderSimulation::from_scene(&scene);
    simulation.speed = number(2.0);
    // Straight ahead, whatever angle is drawn.
    simulation.update(&mut scene, number(0.0625), |_| point([0.0, 1.0]), bearing);
    assert_eq!(scene.entities[0].position, point([10.5, 10.625]));
    assert_eq!(scene.entities[0].heading_degrees, Some(number(0.0)));
}

#[test]
fn without_an_actor_to_move_the_grid_does_not_matter() {
    let mut bare = scene(vec![]);
    bare.grid.width = 0;
    bare.grid.height = 0;
    let mut simulation = WanderSimulation::from_scene(&bare);
    simulation.enabled = false;
    simulation.update(&mut bare, number(0.1), circle, bearing);
    simulation.enabled = true;
    simulation.update(&mut bare, number(0.0), circle, bearing);
    assert_eq!(bare.entities[0].position, point([10.5, 10.5]));
    bare.entities.clear();
    simulation.update(&mut bare, number(0.1), circle, bearing);
    let mut nobody = WanderSimulation::from_scene(&bare);
    nobody.update(&mut bare, number(0.1), circle, bearing);
    assert!(bare.entities.is_empty());
}

#[test]
fn no_step_is_longer_than_the_speed_allows() {
    let mut scene = scene(vec![0; 400]);
    let mut wander = WanderSimulation::from_scene(&scene);
    let speed = float(wander.speed);
    for dt in [0.016, 0.05, 0.1, 3.0] {
        for _ in 0..300 {
            let before: Vec<Point> = scene.entities.iter().map(|entity| entity.position).collect();
            wander.update(&mut scene, number(dt), circle, bearing);
            for (old, entity) in before.iter().zip(&scene.entities) {
                let length = squared_distance(*old, entity.position).sqrt();
                assert!(length <= speed * dt.min(0.1) + 1e-12, "{length}");
            }
        }
    }
}
