//! Populating the unobserved part of a scene.
use std::collections::BTreeMap;

use nav_scene::{
    position_is_walkable, synthetically_populate_actors, Attributes, CellPrimitive, Collider,
    Entity, NavGrid, Point, Real, Scene, SceneMetadata, SENSING_RADIUS,
};

fn number(value: f64) -> Real {
    Real { bits: value.to_bits() }
}

fn float(value: Real) -> f64 {
    f64::from_bits(value.bits)
}

fn point(world: [f64; 2]) -> Point {
    Point { x: number(world[0]), z: number(world[1]) }
}

fn squared_distance(left: Point, right: [f64; 2]) -> f64 {
    (float(left.x) - right[0]).powi(2) + (float(left.z) - right[1]).powi(2)
}

fn entity(id: &str, category: &str, position: [f64; 2]) -> Entity {
    Entity {
        id: id.into(),
        category: category.into(),
        label: id.into(),
        position: point(position),
        heading_degrees: None,
        collider: Some(Collider::Circle { radius: number(0.2) }),
        ranges: Vec::new(),
        attributes: Attributes::new(),
    }
}

fn scene() -> Scene {
    Scene {
        metadata: SceneMetadata {
            schema_version: 1,
            scene_id: "population-test".into(),
            label: "population test".into(),
            captured_at_unix_ms: 0,
            source: "test".into(),
            source_revision: None,
            attributes: Attributes::new(),
        },
        grid: NavGrid {
            width: 10,
            height: 10,
            origin: point([0.0, 0.0]),
            cell_size: number(1.0),
            blocked: vec![0; 100],
            shape_ids: vec![0; 100],
            shapes: BTreeMap::from([(0, CellPrimitive::Full)]),
        },
        entities: vec![
            entity("agent", "agent", [5.5, 5.5]),
            entity("wolf", "actor", [5.5, 6.5]),
        ],
        prefab_collisions: Vec::new(),
        placements: Vec::new(),
    }
}

#[test]
fn density_populates_only_the_unobserved_walkable_area() {
    let mut scene = scene();
    let report = synthetically_populate_actors(&mut scene, number(2.0));
    assert_eq!(report.observed_actors, 1);
    assert_eq!(report.synthetic_actors, 7);
    assert!((float(report.density_per_square_unit) - 1.0 / 13.0).abs() < f64::EPSILON);
    for actor in
        scene.entities.iter().filter(|entity| entity.attributes.contains_key("synthetic"))
    {
        assert!(squared_distance(actor.position, [5.5, 5.5]) > 4.0);
        assert!(position_is_walkable(&scene.grid, actor.position, actor.collider));
    }
}

#[test]
fn population_is_deterministic_for_the_same_scene() {
    let mut left = scene();
    let mut right = scene();
    let left_report = synthetically_populate_actors(&mut left, number(2.0));
    let right_report = synthetically_populate_actors(&mut right, number(2.0));
    assert_eq!(left_report.synthetic_actors, right_report.synthetic_actors);
    assert_eq!(left.entities, right.entities);
}

#[test]
fn no_observed_actors_means_no_synthetic_population() {
    let mut scene = scene();
    scene.entities.retain(|entity| entity.category != "actor");
    let report = synthetically_populate_actors(&mut scene, number(2.0));
    assert_eq!(report.observed_actors, 0);
    assert_eq!(report.synthetic_actors, 0);
}

#[test]
fn loaded_entities_are_kept() {
    let mut scene = scene();
    let before = scene.entities.clone();
    synthetically_populate_actors(&mut scene, number(2.0));
    for entity in &before {
        assert!(scene.entities.contains(entity));
    }
    assert_eq!(scene.entities.len(), before.len() + 7);
    for pair in scene.entities.windows(2) {
        let left = (&pair[0].category, &pair[0].id);
        let right = (&pair[1].category, &pair[1].id);
        assert!(left <= right, "{left:?} before {right:?}");
    }
}

#[test]
fn synthetic_actors_take_after_observed_ones() {
    let mut scene = scene();
    scene.entities[1].attributes.insert("tier".into(), "2".into());
    synthetically_populate_actors(&mut scene, number(2.0));
    for actor in
        scene.entities.iter().filter(|entity| entity.attributes.contains_key("synthetic"))
    {
        assert_eq!(actor.category, "actor");
        assert_eq!(actor.attributes.get("synthetic"), Some("true"));
        assert_eq!(actor.attributes.get("tier"), Some("2"));
        assert_eq!(actor.label, "wolf");
        assert_eq!(actor.collider, scene_collider());
        let heading = float(actor.heading_degrees.unwrap());
        assert!((0.0..360.0).contains(&heading));
    }
}

fn scene_collider() -> Option<Collider> {
    Some(Collider::Circle { radius: number(0.2) })
}

#[test]
fn a_scene_without_an_agent_is_left_alone() {
    let mut scene = scene();
    scene.entities.retain(|entity| entity.category != "agent");
    let before = scene.entities.clone();
    let report = synthetically_populate_actors(&mut scene, number(2.0));
    assert_eq!(report.synthetic_actors, 0);
    assert_eq!(scene.entities, before);
}

#[test]
fn the_sensing_radius_is_that_of_the_viewer() {
    assert_eq!(f64::from_bits(SENSING_RADIUS), 72.0);
}

#[test]
fn synthetic_actors_differ() {
    let mut scene = scene();
    synthetically_populate_actors(&mut scene, number(2.0));
    let made: Vec<&Entity> =
        scene.entities.iter().filter(|entity| entity.id.starts_with("actor:synthetic:")).collect();
    assert!(made.len() > 1);
    for (i, left) in made.iter().enumerate() {
        for right in &made[i + 1..] {
            assert_ne!(left.id, right.id);
            assert_ne!(left.position, right.position);
        }
    }
}
