//! The scene contract, and the small parts of a scene.
use std::collections::BTreeMap;

use nav_scene::{
    Attributes, CellPrimitive, Collider, Entity, NavGrid, Point, PrefabCollision, PrefabPlacement,
    RangeRing, Real, Scene, SceneError, SceneMetadata, SCHEMA_VERSION,
};

fn number(value: f64) -> Real {
    Real { bits: value.to_bits() }
}

fn point(world: [f64; 2]) -> Point {
    Point { x: number(world[0]), z: number(world[1]) }
}

fn scene() -> Scene {
    Scene {
        metadata: SceneMetadata {
            schema_version: SCHEMA_VERSION,
            scene_id: "contract".into(),
            label: "Contract".into(),
            captured_at_unix_ms: 0,
            source: "fixture".into(),
            source_revision: None,
            attributes: Attributes::new(),
        },
        grid: NavGrid {
            width: 3,
            height: 2,
            origin: point([-1.5, 2.0]),
            cell_size: number(0.5),
            blocked: vec![0, 7, 0, 0, 0, 0],
            shape_ids: vec![9, 4, 9, 9, 9, 9],
            shapes: BTreeMap::from([(4, CellPrimitive::Disc { radius: number(0.5) })]),
        },
        entities: vec![entity("one"), entity("two")],
        prefab_collisions: vec![prefab("rock"), prefab("tree")],
        placements: vec![PrefabPlacement {
            prefab: "tree".into(),
            position: point([0.0, 0.0]),
            yaw_degrees: number(0.0),
            source: "map".into(),
            attributes: Attributes::new(),
        }],
    }
}

fn entity(id: &str) -> Entity {
    Entity {
        id: id.into(),
        category: "actor".into(),
        label: id.into(),
        position: point([0.0, 0.0]),
        heading_degrees: None,
        collider: Some(Collider::Circle { radius: number(0.5) }),
        ranges: vec![RangeRing {
            role: "awareness".into(),
            label: "near".into(),
            radius: number(0.0),
        }],
        attributes: Attributes::new(),
    }
}

fn prefab(name: &str) -> PrefabCollision {
    PrefabCollision {
        name: name.into(),
        width: 2,
        height: 1,
        offset: point([0.0, 0.0]),
        cell_size: number(1.0),
        blocked: vec![0, 1],
        attributes: Attributes::new(),
    }
}

fn refused(change: impl Fn(&mut Scene)) -> SceneError {
    let mut broken = scene();
    change(&mut broken);
    broken.validate().unwrap_err()
}

#[test]
fn a_sound_scene_is_accepted() {
    assert_eq!(scene().validate(), Ok(()));
    assert_eq!(scene().grid.validate(), Ok(()));
    assert_eq!(prefab("rock").validate(), Ok(()));
}

#[test]
fn grids_that_break_the_contract_are_refused() {
    assert_eq!(refused(|scene| scene.grid.width = 0), SceneError::InvalidGeometry);
    assert_eq!(refused(|scene| scene.grid.height = 0), SceneError::InvalidGeometry);
    assert_eq!(
        refused(|scene| scene.grid.cell_size = number(0.0)),
        SceneError::InvalidGeometry
    );
    assert_eq!(
        refused(|scene| scene.grid.cell_size = number(-1.0)),
        SceneError::InvalidGeometry
    );
    assert_eq!(
        refused(|scene| scene.grid.blocked.push(0)),
        SceneError::CellCount { cells: 6, blocked: 7, shapes: 6 }
    );
    assert_eq!(
        refused(|scene| scene.grid.shape_ids.truncate(5)),
        SceneError::CellCount { cells: 6, blocked: 6, shapes: 5 }
    );
    assert_eq!(
        refused(|scene| scene.grid.shape_ids[1] = 5),
        SceneError::MissingShape { shape: 5 }
    );
}

#[test]
fn scenes_of_another_layout_are_refused() {
    assert_eq!(
        refused(|scene| scene.metadata.schema_version = 2),
        SceneError::UnsupportedSchema { found: 2 }
    );
}

#[test]
fn prefabs_that_break_the_contract_are_refused() {
    let name = String::from("rock");
    assert_eq!(
        refused(|scene| scene.prefab_collisions[0].width = 0),
        SceneError::InvalidPrefab { name: name.clone() }
    );
    assert_eq!(
        refused(|scene| scene.prefab_collisions[0].height = 2),
        SceneError::InvalidPrefab { name: name.clone() }
    );
    assert_eq!(
        refused(|scene| scene.prefab_collisions[0].cell_size = number(0.0)),
        SceneError::InvalidPrefab { name: name.clone() }
    );
    assert_eq!(
        refused(|scene| scene.prefab_collisions[0].blocked[1] = 0),
        SceneError::EmptyPrefab { name: name.clone() }
    );
    assert_eq!(
        refused(|scene| scene.prefab_collisions[1].name = "rock".into()),
        SceneError::DuplicatePrefab { name }
    );
}

#[test]
fn entities_that_break_the_contract_are_refused() {
    let id = String::from("two");
    assert_eq!(
        refused(|scene| scene.entities[1].id = "one".into()),
        SceneError::DuplicateEntity { id: "one".into() }
    );
    for bad in [f64::NAN, f64::INFINITY, f64::NEG_INFINITY] {
        assert_eq!(
            refused(|scene| scene.entities[1].position.x = number(bad)),
            SceneError::NonFinitePosition { id: id.clone() }
        );
        assert_eq!(
            refused(|scene| scene.entities[1].position.z = number(bad)),
            SceneError::NonFinitePosition { id: id.clone() }
        );
    }
    for bad in [f64::NAN, f64::INFINITY, 0.0, -0.5] {
        assert_eq!(
            refused(|scene| {
                scene.entities[1].collider = Some(Collider::Circle { radius: number(bad) });
            }),
            SceneError::InvalidCircle { id: id.clone() }
        );
        assert_eq!(
            refused(|scene| {
                scene.entities[1].collider =
                    Some(Collider::Box { half_extents: point([0.5, bad]) });
            }),
            SceneError::InvalidBox { id: id.clone() }
        );
    }
    for bad in [f64::NAN, f64::INFINITY, -0.5] {
        assert_eq!(
            refused(|scene| scene.entities[1].ranges[0].radius = number(bad)),
            SceneError::InvalidRange { id: id.clone() }
        );
    }
}

#[test]
fn placements_need_their_prefab() {
    assert_eq!(
        refused(|scene| scene.placements[0].prefab = "bush".into()),
        SceneError::MissingPrefab { prefab: "bush".into() }
    );
}

#[test]
fn the_contract_ignores_the_order_of_entities_and_prefabs() {
    let mut turned = scene();
    turned.entities.reverse();
    turned.prefab_collisions.reverse();
    assert_eq!(turned.validate(), Ok(()));
}

#[test]
fn cells_have_indices_places_and_middles() {
    let grid = scene().grid;
    assert_eq!(grid.index(2, 1), 5);
    assert!(grid.in_bounds(2, 1));
    assert!(!grid.in_bounds(3, 1));
    assert!(!grid.in_bounds(0, -1));
    assert_eq!(grid.cell(point([-1.25, 2.75])), Some((0, 1)));
    assert_eq!(grid.cell(point([-1.5, 2.0])), Some((0, 0)));
    assert_eq!(grid.cell(point([0.0, 2.0])), None);
    assert_eq!(grid.cell(point([-1.75, 2.0])), None);
    assert_eq!(grid.center(2, 1), point([-0.25, 2.75]));
    assert_eq!(grid.bounds(), (point([-1.5, 2.0]), point([0.0, 3.0])));
}

#[test]
fn attributes_keep_their_keys_in_order() {
    let mut attributes = Attributes::new();
    attributes.insert("b".into(), "2".into());
    attributes.insert("a".into(), "1".into());
    attributes.insert("b".into(), "3".into());
    assert_eq!(attributes.len(), 2);
    assert_eq!(attributes.entry(0), ("a", "1"));
    assert_eq!(attributes.entry(1), ("b", "3"));
    assert_eq!(attributes.get("b"), Some("3"));
    assert_eq!(attributes.get("c"), None);
    assert!(attributes.contains_key("a"));
    assert!(!attributes.contains_key(""));
    assert_eq!(attributes.clone(), attributes);
}
