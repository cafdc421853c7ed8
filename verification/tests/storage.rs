//! Scenes as rows, and back.
use std::collections::BTreeMap;

use nav_scene::{
    Attributes, CellPrimitive, Collider, Entity, NavGrid, Point, PrefabCollision, PrefabPlacement,
    RangeRing, Real, Scene, SceneError, SceneMetadata, SceneRows, SceneStore, StoreError,
    SCHEMA_VERSION,
};

fn number(value: f64) -> Real {
    Real { bits: value.to_bits() }
}

fn point(world: [f64; 2]) -> Point {
    Point { x: number(world[0]), z: number(world[1]) }
}

fn attributes(entries: &[(&str, &str)]) -> Attributes {
    let mut attributes = Attributes::new();
    for (key, value) in entries {
        attributes.insert(key.to_string(), value.to_string());
    }
    attributes
}

fn plain() -> Scene {
    Scene {
        metadata: SceneMetadata {
            schema_version: SCHEMA_VERSION,
            scene_id: "roundtrip".into(),
            label: "Round trip".into(),
            captured_at_unix_ms: 7,
            source: "fixture".into(),
            source_revision: Some("1".into()),
            attributes: Attributes::new(),
        },
        grid: NavGrid {
            width: 2,
            height: 2,
            origin: point([-1.0, -1.0]),
            cell_size: number(1.0),
            blocked: vec![0, 1, 0, 0],
            shape_ids: vec![0; 4],
            shapes: BTreeMap::from([(0, CellPrimitive::Full)]),
        },
        entities: vec![],
        prefab_collisions: vec![],
        placements: vec![],
    }
}

fn furnished() -> Scene {
    let mut scene = plain();
    scene.metadata.attributes = attributes(&[("zone", "north"), ("note", "a \"quoted\" \\ line\n")]);
    scene.entities.push(Entity {
        id: "wolf".into(),
        category: "actor".into(),
        label: "Wolf".into(),
        position: point([-0.5, -0.25]),
        heading_degrees: Some(number(45.0)),
        collider: Some(Collider::Circle { radius: number(0.5) }),
        ranges: vec![RangeRing {
            role: "awareness".into(),
            label: "aggro".into(),
            radius: number(6.0),
        }],
        attributes: attributes(&[("é", "ü\u{1f43a}"), ("", "\u{7}")]),
    });
    scene.prefab_collisions.push(PrefabCollision {
        name: "rock".into(),
        width: 1,
        height: 1,
        offset: point([0.0, 0.0]),
        cell_size: number(0.5),
        blocked: vec![1],
        attributes: attributes(&[("b", "2"), ("a", "1")]),
    });
    scene.placements.push(PrefabPlacement {
        prefab: "rock".into(),
        position: point([0.5, 0.5]),
        yaw_degrees: number(90.0),
        source: "map".into(),
        attributes: Attributes::new(),
    });
    scene
}

fn load(rows: SceneRows, grid: NavGrid) -> Result<Scene, StoreError> {
    let metadata = SceneStore::open(rows.metadata)?;
    SceneStore::assemble(metadata, grid, rows.entities, rows.prefab_collisions, rows.placements)
}

#[test]
fn sqlite_contract_round_trips_without_source_adapter_types() {
    let scene = plain();
    let rows = SceneStore::rows(&scene).unwrap();
    let loaded = load(rows, scene.grid.clone()).unwrap();
    assert_eq!(loaded, scene);
}

#[test]
fn a_furnished_scene_round_trips() {
    let scene = furnished();
    let rows = SceneStore::rows(&scene).unwrap();
    assert_eq!(rows.entities.len(), 1);
    assert_eq!(rows.entities[0].id, "wolf");
    assert_eq!(rows.prefab_collisions[0].blocked, vec![1]);
    assert_eq!(rows.placements[0].prefab, "rock");
    let loaded = load(rows, scene.grid.clone()).unwrap();
    assert_eq!(loaded, scene);
}

#[test]
fn attributes_are_json_objects_in_key_order() {
    let rows = SceneStore::rows(&furnished()).unwrap();
    assert_eq!(
        rows.metadata.attributes_json,
        "{\"note\":\"a \\\"quoted\\\" \\\\ line\\n\",\"zone\":\"north\"}"
    );
    assert_eq!(rows.prefab_collisions[0].attributes_json, "{\"a\":\"1\",\"b\":\"2\"}");
    assert_eq!(rows.placements[0].attributes_json, "{}");
    assert_eq!(rows.entities[0].attributes_json, "{\"\":\"\\u0007\",\"é\":\"ü\u{1f43a}\"}");
}

#[test]
fn attributes_are_read_from_any_json_object_of_strings() {
    let mut rows = SceneStore::rows(&plain()).unwrap();
    rows.metadata.attributes_json = " { \"b\" : \"x\", \"a\":\"\\u00e9\", \"b\":\"y\" } ".into();
    let metadata = SceneStore::open(rows.metadata).unwrap();
    assert_eq!(metadata.attributes, attributes(&[("a", "é"), ("b", "y")]));
}

#[test]
fn unreadable_attributes_are_refused_by_column() {
    let spoil = |text: &str| text.replace('{', "[");
    let scene = furnished();
    let mut rows = SceneStore::rows(&scene).unwrap();
    rows.metadata.attributes_json = spoil(&rows.metadata.attributes_json);
    assert_eq!(
        load(rows, scene.grid.clone()),
        Err(StoreError::InvalidAttributes { column: 6 })
    );
    let mut rows = SceneStore::rows(&scene).unwrap();
    rows.entities[0].attributes_json = "{\"a\":1}".into();
    assert_eq!(
        load(rows, scene.grid.clone()),
        Err(StoreError::InvalidAttributes { column: 8 })
    );
    let mut rows = SceneStore::rows(&scene).unwrap();
    rows.prefab_collisions[0].attributes_json = "".into();
    assert_eq!(
        load(rows, scene.grid.clone()),
        Err(StoreError::InvalidAttributes { column: 7 })
    );
    let mut rows = SceneStore::rows(&scene).unwrap();
    rows.placements[0].attributes_json = "null".into();
    assert_eq!(
        load(rows, scene.grid.clone()),
        Err(StoreError::InvalidAttributes { column: 5 })
    );
}

#[test]
fn a_database_of_another_layout_is_refused() {
    let scene = plain();
    let mut rows = SceneStore::rows(&scene).unwrap();
    rows.metadata.schema_version = 2;
    assert_eq!(
        load(rows, scene.grid.clone()),
        Err(StoreError::UnsupportedDatabase { found: 2 })
    );
}

#[test]
fn a_scene_that_breaks_the_contract_is_neither_stored_nor_loaded() {
    let mut scene = plain();
    scene.metadata.schema_version = 9;
    let error = StoreError::Scene { error: SceneError::UnsupportedSchema { found: 9 } };
    assert!(matches!(SceneStore::rows(&scene), Err(found) if found == error));
    let scene = furnished();
    let mut rows = SceneStore::rows(&scene).unwrap();
    rows.placements[0].prefab = "tree".into();
    assert_eq!(
        load(rows, scene.grid.clone()),
        Err(StoreError::Scene { error: SceneError::MissingPrefab { prefab: "tree".into() } })
    );
}

#[test]
fn rows_may_come_back_in_another_order() {
    let mut scene = furnished();
    for (category, id) in [("actor", "fox"), ("resource", "ant"), ("actor", "bear")] {
        let mut entity = scene.entities[0].clone();
        entity.category = category.into();
        entity.id = id.into();
        scene.entities.push(entity);
    }
    for name in ["tree", "ash"] {
        let mut prefab = scene.prefab_collisions[0].clone();
        prefab.name = name.into();
        scene.prefab_collisions.push(prefab);
    }
    let mut placement = scene.placements[0].clone();
    placement.prefab = "ash".into();
    scene.placements.push(placement);
    let mut sorted = scene.clone();
    sorted.entities.sort_by(|a, b| (&a.category, &a.id).cmp(&(&b.category, &b.id)));
    sorted.prefab_collisions.sort_by(|a, b| a.name.cmp(&b.name));
    assert_ne!(sorted, scene);
    for turn in 0..4 {
        let mut rows = SceneStore::rows(&scene).unwrap();
        rows.entities.rotate_left(turn);
        rows.prefab_collisions.rotate_left(turn % 3);
        assert_eq!(load(rows, scene.grid.clone()).unwrap(), sorted);
    }
    let mut rows = SceneStore::rows(&scene).unwrap();
    rows.entities.reverse();
    rows.prefab_collisions.reverse();
    assert_eq!(load(rows, scene.grid.clone()).unwrap(), sorted);
}
