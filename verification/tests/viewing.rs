//! The workbench and the camera over it.
use std::collections::BTreeMap;

use nav_scene::{
    blocked_runs, collect_threats, count_category, find_path, first_line, is_drawn, line_count,
    line_step, middle_of, move_agent, run_corners, visible_cells, Attributes, Camera,
    CellPrimitive, CellRange, Collider, Entity, NavGrid, NavStatus, PathOptions, Point, RangeRing,
    Real, RouteStatus, Run, Scene, SceneMetadata, Spot, Threat, Workbench, MOST_LINES,
    SCHEMA_VERSION,
};

fn number(value: f64) -> Real {
    Real { bits: value.to_bits() }
}

fn single(value: f32) -> Real {
    number(f64::from(value))
}

fn float(value: Real) -> f64 {
    f64::from_bits(value.bits)
}

fn point(world: [f64; 2]) -> Point {
    Point { x: number(world[0]), z: number(world[1]) }
}

fn spot(x: f32, y: f32) -> Spot {
    Spot { x: single(x), y: single(y) }
}

fn entity(id: &str, category: &str, position: [f64; 2]) -> Entity {
    Entity {
        id: id.into(),
        category: category.into(),
        label: id.into(),
        position: point(position),
        heading_degrees: None,
        collider: Some(Collider::Circle { radius: number(0.25) }),
        ranges: vec![],
        attributes: Attributes::new(),
    }
}

fn range(role: &str, radius: f64) -> RangeRing {
    RangeRing { role: role.into(), label: role.into(), radius: number(radius) }
}

fn grid(width: usize, height: usize, blocked: Vec<u8>) -> NavGrid {
    NavGrid {
        width,
        height,
        origin: point([0.0, 0.0]),
        cell_size: number(1.0),
        blocked,
        shape_ids: vec![0; width * height],
        shapes: BTreeMap::from([(0, CellPrimitive::Full)]),
    }
}

fn scene(entities: Vec<Entity>) -> Scene {
    Scene {
        metadata: SceneMetadata {
            schema_version: SCHEMA_VERSION,
            scene_id: "view".into(),
            label: "View".into(),
            captured_at_unix_ms: 0,
            source: "fixture".into(),
            source_revision: None,
            attributes: Attributes::new(),
        },
        grid: grid(16, 8, vec![0; 128]),
        entities,
        prefab_collisions: vec![],
        placements: vec![],
    }
}

#[test]
fn actors_that_are_aware_are_threats() {
    let mut wolf = entity("wolf", "actor", [3.5, 2.5]);
    wolf.ranges = vec![range("awareness", 4.0), range("leash", 9.0), range("awareness", 6.0)];
    let mut sheep = entity("sheep", "actor", [5.5, 2.5]);
    sheep.ranges = vec![range("awareness", 0.0), range("leash", 9.0)];
    let mut tower = entity("tower", "resource", [7.5, 2.5]);
    tower.ranges = vec![range("awareness", 8.0)];
    let entities = vec![wolf, sheep, tower];
    assert_eq!(
        collect_threats(&entities),
        vec![Threat { center: point([3.5, 2.5]), radius: number(6.0) }]
    );
    assert_eq!(count_category(&entities, "actor"), 2);
    assert_eq!(count_category(&entities, "agent"), 0);
}

#[test]
fn the_first_agent_is_moved() {
    let mut entities = vec![
        entity("wolf", "actor", [3.5, 2.5]),
        entity("first", "agent", [1.5, 1.5]),
        entity("second", "agent", [2.5, 2.5]),
    ];
    move_agent(&mut entities, point([6.0, 7.0]));
    assert_eq!(entities[0].position, point([3.5, 2.5]));
    assert_eq!(entities[1].position, point([6.0, 7.0]));
    assert_eq!(entities[2].position, point([2.5, 2.5]));
}

#[test]
fn a_workbench_starts_at_the_agent() {
    let bench = Workbench::new(scene(vec![entity("hero", "agent", [2.5, 3.5])]));
    assert_eq!(bench.start, Some(point([2.5, 3.5])));
    assert_eq!(bench.navigator.position(), point([2.5, 3.5]));
    assert_eq!(bench.navigator.status(), NavStatus::Idle);
    assert_eq!(bench.status.text(), "left click: start · right click: goal");
    assert!(bench.steering && bench.include_dynamic_colliders && bench.path.is_none());
    let empty = Workbench::new(scene(vec![]));
    assert_eq!(empty.start, None);
    assert_eq!(empty.navigator.position(), point([8.0, 4.0]));
    assert_eq!(middle_of(&empty.scene.grid), point([8.0, 4.0]));
}

#[test]
fn a_workbench_populates_its_scene() {
    let mut bench = Workbench::new(scene(vec![
        entity("hero", "agent", [2.5, 3.5]),
        entity("wolf", "actor", [3.5, 3.5]),
    ]));
    assert_eq!(bench.population.observed_actors, 1);
    assert_eq!(bench.wander.actor_count(), 1);
    assert!(bench.wander.enabled);
    assert_eq!(float(bench.wander.radius), 7.0);
    assert_eq!(float(bench.wander.speed), 1.5);
    assert_eq!(float(bench.population.sensing_radius), 72.0);
    bench.clear_route();
    assert_eq!(bench.status, RouteStatus::Prompt);
}

#[test]
fn clicks_steer_the_agent() {
    let mut bench = Workbench::new(scene(vec![entity("hero", "agent", [2.5, 3.5])]));
    bench.primary_click(point([4.5, 4.5]));
    assert_eq!(bench.navigator.position(), point([4.5, 4.5]));
    assert_eq!(bench.scene.entities[0].position, point([4.5, 4.5]));
    assert_eq!(bench.start, Some(point([2.5, 3.5])));
    bench.secondary_click(point([12.5, 4.5]));
    assert_eq!(bench.status.text(), "hta*: moving");
    for _ in 0..2000 {
        bench.tick_navigator(number(0.5));
        assert_eq!(bench.scene.entities[0].position, bench.navigator.position());
        if bench.navigator.status() != NavStatus::Moving {
            break;
        }
    }
    assert_eq!(bench.status.text(), "hta*: arrived");
    let before = bench.navigator.position();
    bench.tick_navigator(number(0.5));
    assert_eq!(bench.navigator.position(), before);
    bench.stop_agent();
    assert_eq!(bench.status.text(), "hta*: idle");
    assert_eq!(bench.navigator.goal(), None);
}

#[test]
fn clicks_choose_a_route_without_steering() {
    let mut bench = Workbench::new(scene(vec![entity("hero", "agent", [2.5, 3.5])]));
    bench.steering = false;
    bench.start = None;
    bench.secondary_click(point([5.5, 1.5]));
    assert_eq!(bench.status.text(), "select both a start and a goal");
    bench.primary_click(point([1.5, 1.5]));
    assert_eq!(bench.status.text(), "route: 5 cells");
    let options = PathOptions::default();
    assert_eq!(
        bench.path,
        find_path(&bench.scene, point([1.5, 1.5]), point([5.5, 1.5]), options)
    );
    bench.start_at_agent();
    assert_eq!(bench.start, Some(point([2.5, 3.5])));
    assert_eq!(bench.status, RouteStatus::Route { cells: 4 });
    bench.secondary_click(point([50.0, 1.5]));
    assert_eq!(bench.status.text(), "no route");
    assert_eq!(bench.path, None);
    bench.clear_route();
    assert_eq!(bench.goal, None);
    bench.tick_navigator(number(0.1));
    assert_eq!(bench.status, RouteStatus::Prompt);
}

#[test]
fn every_status_has_its_words() {
    let steering = |status| RouteStatus::Steering { status }.text();
    assert_eq!(steering(NavStatus::Blocked), "hta*: blocked (no route outside enemy radii)");
    assert_eq!(RouteStatus::NoRoute.text(), "no route");
    assert_eq!(RouteStatus::Route { cells: 1203 }.text(), "route: 1203 cells");
}

#[test]
fn the_screen_and_the_world_agree() {
    let camera = Camera { center: point([10.0, -4.0]), zoom: single(2.5) };
    let middle = spot(400.0, 300.0);
    assert_eq!(camera.to_screen(point([10.0, -4.0]), middle), middle);
    assert_eq!(camera.to_screen(point([12.0, -3.0]), middle), spot(405.0, 297.5));
    assert_eq!(camera.to_world(spot(405.0, 297.5), middle), point([12.0, -3.0]));
    for step in 0..200 {
        let world = [step as f64 * 0.37 - 20.0, step as f64 * -0.91 + 7.0];
        let seen = camera.to_screen(point(world), middle);
        let x = 400.0_f32 + (world[0] - 10.0) as f32 * 2.5;
        let y = 300.0_f32 - (world[1] + 4.0) as f32 * 2.5;
        assert_eq!(seen, spot(x, y));
        let back = camera.to_world(seen, middle);
        assert_eq!(float(back.x), 10.0 + f64::from((x - 400.0_f32) / 2.5));
        assert_eq!(float(back.z), -4.0 - f64::from((y - 300.0_f32) / 2.5));
    }
}

#[test]
fn a_fitted_camera_shows_the_whole_grid() {
    let grid = grid(16, 8, vec![0; 128]);
    let camera = Camera::fitted(&grid, single(800.0), single(600.0));
    assert_eq!(camera.center, point([8.0, 4.0]));
    assert_eq!(camera.zoom, single((800.0_f32 / 16.0).min(600.0 / 8.0) * 0.94));
    let huge = Camera::fitted(&grid, single(80000.0), single(60000.0));
    assert_eq!(huge.zoom, single(80.0));
    let tiny = Camera::fitted(&grid, single(0.5), single(0.5));
    assert_eq!(tiny.zoom, single(0.08));
}

#[test]
fn zooming_keeps_what_is_under_the_pointer() {
    let camera = Camera { center: point([10.0, -4.0]), zoom: single(2.0) };
    let middle = spot(400.0, 300.0);
    let pointer = spot(500.0, 200.0);
    let closer = camera.zoomed(single(2.0), Some(pointer), middle);
    assert_eq!(closer.zoom, single(4.0));
    assert_eq!(closer.to_world(pointer, middle), camera.to_world(pointer, middle));
    assert_eq!(camera.zoomed(single(2.0), None, middle).center, camera.center);
    assert_eq!(camera.zoomed(single(1000.0), None, middle).zoom, single(100.0));
    assert_eq!(camera.zoomed(single(0.001), None, middle).zoom, single(0.04));
}

#[test]
fn dragging_moves_the_world_along() {
    let camera = Camera { center: point([10.0, -4.0]), zoom: single(2.0) };
    let moved = camera.dragged(single(30.0), single(-10.0));
    assert_eq!(moved.center, point([-5.0, -9.0]));
    assert_eq!(moved.zoom, camera.zoom);
}

#[test]
fn labels_and_entities_are_shown_by_kind_and_zoom() {
    let mut ghost = entity("ghost", "actor", [0.0, 0.0]);
    ghost.attributes.insert("synthetic".into(), "true".into());
    let wolf = entity("wolf", "actor", [0.0, 0.0]);
    let at = |zoom: f32| Camera { center: point([0.0, 0.0]), zoom: single(zoom) };
    assert!(!at(0.44).labels(&wolf));
    assert!(at(0.45).labels(&wolf));
    assert!(!at(3.9).labels(&ghost));
    assert!(at(4.0).labels(&ghost));
    let rock = entity("rock", "resource", [0.0, 0.0]);
    let hero = entity("hero", "agent", [0.0, 0.0]);
    assert!(is_drawn(&wolf, false, true) && !is_drawn(&wolf, true, false));
    assert!(is_drawn(&rock, true, false) && !is_drawn(&rock, false, true));
    assert!(is_drawn(&hero, false, false));
}

#[test]
fn coordinate_lines_are_two_five_or_ten_apart() {
    let at = |zoom: f32| Camera { center: point([0.0, 0.0]), zoom: single(zoom) };
    assert_eq!(at(2.0).line_target(), single(36.0));
    assert_eq!(at(0.0).line_target(), single(72.0 / 0.001));
    assert_eq!(line_step(single(36.0), single(10.0)), single(50.0));
    assert_eq!(line_step(single(20.0), single(10.0)), single(20.0));
    assert_eq!(line_step(single(72.0), single(10.0)), single(100.0));
    assert_eq!(first_line(number(-13.0), number(5.0)), number(-15.0));
    assert_eq!(first_line(number(13.0), number(5.0)), number(10.0));
    assert_eq!(line_count(number(-15.0), number(13.0), number(5.0)), 6);
    assert_eq!(line_count(number(0.0), number(1e9), number(5.0)), MOST_LINES);
    assert_eq!(line_count(number(10.0), number(0.0), number(5.0)), 0);
}

#[test]
fn only_cells_in_view_are_visited() {
    let grid = grid(16, 8, vec![0; 128]);
    assert_eq!(
        visible_cells(&grid, point([2.5, -3.0]), point([5.25, 3.0])),
        CellRange { min_col: 2, max_col: 6, min_row: 0, max_row: 3 }
    );
    assert_eq!(
        visible_cells(&grid, point([-100.0, -100.0]), point([100.0, 100.0])),
        CellRange { min_col: 0, max_col: 15, min_row: 0, max_row: 7 }
    );
}

#[test]
fn blocked_cells_of_a_row_are_joined() {
    let mut blocked = vec![0; 16];
    for col in [8, 9, 10, 12, 15] {
        blocked[col] = 1;
    }
    let grid = grid(8, 2, blocked);
    let run = |start, past| Run { start, past };
    assert_eq!(blocked_runs(&grid, 1, 0, 7), vec![run(0, 3), run(4, 5), run(7, 8)]);
    assert_eq!(blocked_runs(&grid, 1, 1, 4), vec![run(1, 3), run(4, 5)]);
    assert_eq!(blocked_runs(&grid, 1, 3, 3), vec![]);
    assert_eq!(blocked_runs(&grid, 0, 0, 7), vec![]);
    assert_eq!(run_corners(&grid, run(4, 6), 1), (point([4.0, 1.0]), point([6.0, 2.0])));
}
