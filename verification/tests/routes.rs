//! Routes over the grid of a scene.
use std::collections::BTreeMap;

use nav_scene::{
    find_path, Attributes, CellPrimitive, Collider, Entity, NavGrid, PathOptions, Point, Real,
    Scene, SceneMetadata, SCHEMA_VERSION,
};

fn number(value: f64) -> Real {
    Real { bits: value.to_bits() }
}

fn point(world: [f64; 2]) -> Point {
    Point { x: number(world[0]), z: number(world[1]) }
}

fn scene(width: usize, height: usize, blocked: Vec<u8>) -> Scene {
    Scene {
        metadata: SceneMetadata {
            schema_version: SCHEMA_VERSION,
            scene_id: "test".into(),
            label: "test".into(),
            captured_at_unix_ms: 0,
            source: "test".into(),
            source_revision: None,
            attributes: Attributes::new(),
        },
        grid: NavGrid {
            width,
            height,
            origin: point([0.0, 0.0]),
            cell_size: number(1.0),
            blocked,
            shape_ids: vec![0; width * height],
            shapes: BTreeMap::from([(0, CellPrimitive::Full)]),
        },
        entities: vec![],
        prefab_collisions: vec![],
        placements: vec![],
    }
}

fn obstacle(id: &str, category: &str, position: [f64; 2], collider: Collider) -> Entity {
    Entity {
        id: id.into(),
        category: category.into(),
        label: id.into(),
        position: point(position),
        heading_degrees: None,
        collider: Some(collider),
        ranges: vec![],
        attributes: Attributes::new(),
    }
}

fn wall_with_gap() -> Vec<u8> {
    let mut blocked = vec![0; 25];
    for row in 0..5 {
        if row != 2 {
            blocked[row * 5 + 2] = 1;
        }
    }
    blocked
}

#[test]
fn astar_routes_through_gap_without_corner_cutting() {
    let scene = scene(5, 5, wall_with_gap());
    let path = find_path(&scene, point([0.5, 0.5]), point([4.5, 4.5]), PathOptions::default())
        .unwrap();
    assert!(path.contains(&point([2.5, 2.5])));
}

#[test]
fn a_route_runs_from_cell_to_cell() {
    let scene = scene(5, 5, wall_with_gap());
    let path = find_path(&scene, point([0.2, 0.9]), point([4.1, 4.3]), PathOptions::default())
        .unwrap();
    assert_eq!(path[0], point([0.5, 0.5]));
    assert_eq!(path[path.len() - 1], point([4.5, 4.5]));
    for pair in path.windows(2) {
        let dx = (f64::from_bits(pair[0].x.bits) - f64::from_bits(pair[1].x.bits)).abs();
        let dz = (f64::from_bits(pair[0].z.bits) - f64::from_bits(pair[1].z.bits)).abs();
        assert!(dx <= 1.0 && dz <= 1.0 && dx + dz > 0.0);
    }
}

#[test]
fn a_diagonal_between_two_blocked_corners_is_no_route() {
    let blocked = vec![0, 1, 1, 0];
    let scene = scene(2, 2, blocked);
    assert!(find_path(&scene, point([0.5, 0.5]), point([1.5, 1.5]), PathOptions::default())
        .is_none());
}

#[test]
fn a_route_within_one_cell_is_that_cell() {
    let scene = scene(2, 2, vec![0; 4]);
    let path = find_path(&scene, point([0.1, 0.1]), point([0.9, 0.9]), PathOptions::default());
    assert_eq!(path, Some(vec![point([0.5, 0.5])]));
}

#[test]
fn routes_need_both_ends_on_open_cells_of_the_grid() {
    let open = scene(2, 1, vec![0, 1]);
    let options = PathOptions::default();
    assert!(find_path(&open, point([-0.5, 0.5]), point([0.5, 0.5]), options).is_none());
    assert!(find_path(&open, point([0.5, 0.5]), point([2.5, 0.5]), options).is_none());
    assert!(find_path(&open, point([0.5, 0.5]), point([1.5, 0.5]), options).is_none());
    assert!(find_path(&open, point([1.5, 0.5]), point([0.5, 0.5]), options).is_none());
    assert!(find_path(&open, point([0.5, 0.5]), point([0.5, 0.5]), options).is_some());
}

#[test]
fn entity_colliders_are_avoided_on_request() {
    let mut crowded = scene(5, 1, vec![0; 5]);
    crowded.entities.push(obstacle(
        "crate",
        "resource",
        [2.5, 0.5],
        Collider::Box { half_extents: point([0.4, 0.4]) },
    ));
    let (start, goal) = (point([0.5, 0.5]), point([4.5, 0.5]));
    assert!(find_path(&crowded, start, goal, PathOptions::default()).is_none());
    let through = PathOptions { include_dynamic_colliders: false, ..PathOptions::default() };
    assert_eq!(find_path(&crowded, start, goal, through).unwrap().len(), 5);
    // The agent itself is no obstacle.
    crowded.entities[0].category = "agent".into();
    assert_eq!(find_path(&crowded, start, goal, PathOptions::default()).unwrap().len(), 5);
}

#[test]
fn clearance_keeps_routes_off_walls() {
    let mut blocked = vec![0; 35];
    blocked[3] = 1;
    let scene = scene(7, 5, blocked);
    let (start, goal) = (point([0.5, 1.5]), point([6.5, 1.5]));
    let near = find_path(&scene, start, goal, PathOptions::default()).unwrap();
    assert!(near.contains(&point([3.5, 1.5])));
    let wide = PathOptions { clearance: number(1.0), ..PathOptions::default() };
    let far = find_path(&scene, start, goal, wide).unwrap();
    assert!(!far.contains(&point([3.5, 1.5])));
    assert!(far.contains(&point([3.5, 2.5])));
}

/// Length of the shortest route between two cells, by trying every step until
/// nothing improves.
fn shortest(width: usize, height: usize, blocked: &[u8], from: usize, to: usize) -> Option<f64> {
    let open = |col: isize, row: isize| {
        col >= 0
            && row >= 0
            && col < width as isize
            && row < height as isize
            && blocked[row as usize * width + col as usize] == 0
    };
    let mut length = vec![f64::INFINITY; width * height];
    length[from] = 0.0;
    let mut improved = true;
    while improved {
        improved = false;
        for index in 0..width * height {
            let (col, row) = ((index % width) as isize, (index / width) as isize);
            for dz in -1..=1_isize {
                for dx in -1..=1_isize {
                    if (dx, dz) == (0, 0) || !open(col + dx, row + dz) {
                        continue;
                    }
                    if dx != 0 && dz != 0 && !(open(col + dx, row) && open(col, row + dz)) {
                        continue;
                    }
                    let next = (row + dz) as usize * width + (col + dx) as usize;
                    let step = if dx != 0 && dz != 0 { 2.0_f64.sqrt() } else { 1.0 };
                    if length[index] + step < length[next] - 1e-9 {
                        length[next] = length[index] + step;
                        improved = true;
                    }
                }
            }
        }
    }
    if length[to].is_finite() {
        Some(length[to])
    } else {
        None
    }
}

#[test]
fn no_route_is_shorter_than_the_one_found() {
    let (width, height) = (13, 11);
    let mut state = 5_u64;
    for turn in 0..60 {
        let dense = 2 + turn % 4;
        let mut blocked: Vec<u8> = (0..width * height)
            .map(|_| u8::from(nav_scene::next_u64(&mut state) % 10 < dense))
            .collect();
        let (from, to) = (0, width * height - 1);
        blocked[from] = 0;
        blocked[to] = 0;
        let best = shortest(width, height, &blocked, from, to);
        let scene = scene(width, height, blocked);
        let found = find_path(
            &scene,
            point([0.5, 0.5]),
            point([width as f64 - 0.5, height as f64 - 0.5]),
            PathOptions::default(),
        );
        let length = found.map(|path| {
            path.windows(2)
                .map(|leg| {
                    let dx = f64::from_bits(leg[1].x.bits) - f64::from_bits(leg[0].x.bits);
                    let dz = f64::from_bits(leg[1].z.bits) - f64::from_bits(leg[0].z.bits);
                    dx.hypot(dz)
                })
                .sum::<f64>()
        });
        match (best, length) {
            (None, None) => {}
            (Some(best), Some(length)) => {
                assert!((best - length).abs() < 1e-9, "{turn}: {length} against {best}");
            }
            (best, length) => panic!("{turn}: {length:?} against {best:?}"),
        }
    }
}
