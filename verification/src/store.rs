//! Scenes as rows of database tables.
//!
//! A row holds what a table's columns hold; attributes are JSON text. Turning a
//! scene into rows and rows into a scene is done here, reading and writing the
//! tables is left to the caller.
use vstd::multiset::Multiset;
use vstd::prelude::*;

use crate::attributes::{map_of_pairs, Attributes};
use crate::geometry::Point;
use crate::json::{json_pairs, json_text, read_json, write_json};
use crate::number::Real;
use crate::roster::{
    by_name, in_listing_order, in_name_order, lemma_by_name, lemma_listed, list_entities, listed,
    order_prefabs, views,
};
use crate::scene::{
    copy_ranges, lemma_contract_ignores_order, lemma_valid_scene, optional_text, scene_contract,
    Collider, Entity, EntityView, MetadataView, NavGrid, PlacementView, PrefabCollision,
    PrefabPlacement, PrefabView, RangeRing, Scene, SceneError, SceneMetadata, SceneView,
    SCHEMA_VERSION,
};

verus! {

/// Column of the attributes in the metadata table.
pub const METADATA_COLUMN: usize = 6;

/// Column of the attributes in the entities table.
pub const ENTITY_COLUMN: usize = 8;

/// Column of the attributes in the prefab collisions table.
pub const PREFAB_COLUMN: usize = 7;

/// Column of the attributes in the prefab placements table.
pub const PLACEMENT_COLUMN: usize = 5;

/// Why a scene cannot be stored or loaded.
#[derive(Clone, Debug, PartialEq)]
pub enum StoreError {
    /// The scene breaks the contract.
    Scene { error: SceneError },
    /// The database has another layout.
    UnsupportedDatabase { found: u32 },
    /// A column of attributes does not hold a JSON object of strings.
    InvalidAttributes { column: usize },
}

/// A row of the metadata table.
#[derive(Clone, Debug, PartialEq)]
pub struct MetadataRow {
    pub schema_version: u32,
    pub scene_id: String,
    pub label: String,
    pub captured_at_unix_ms: i64,
    pub source: String,
    pub source_revision: Option<String>,
    pub attributes_json: String,
}

/// A row of the entities table.
#[derive(Clone, Debug, PartialEq)]
pub struct EntityRow {
    pub id: String,
    pub category: String,
    pub label: String,
    pub position: Point,
    pub heading_degrees: Option<Real>,
    pub collider: Option<Collider>,
    pub ranges: Vec<RangeRing>,
    pub attributes_json: String,
}

/// A row of the prefab collisions table.
#[derive(Clone, Debug, PartialEq)]
pub struct PrefabRow {
    pub name: String,
    pub width: usize,
    pub height: usize,
    pub offset: Point,
    pub cell_size: Real,
    pub blocked: Vec<u8>,
    pub attributes_json: String,
}

/// A row of the prefab placements table.
#[derive(Clone, Debug, PartialEq)]
pub struct PlacementRow {
    pub prefab: String,
    pub position: Point,
    pub yaw_degrees: Real,
    pub source: String,
    pub attributes_json: String,
}

/// The rows of a scene. The grid is a row by itself.
#[derive(Debug)]
pub struct SceneRows {
    pub metadata: MetadataRow,
    pub entities: Vec<EntityRow>,
    pub prefab_collisions: Vec<PrefabRow>,
    pub placements: Vec<PlacementRow>,
}

/// The attributes that a JSON text holds, if it holds any.
pub open spec fn attributes_in(text: Seq<char>) -> Option<Map<Seq<char>, Seq<char>>> {
    match json_pairs(text) {
        Some(pairs) => Some(map_of_pairs(pairs)),
        None => None,
    }
}

/// The JSON text of attributes.
fn attributes_text(attributes: &Attributes) -> (r: String)
    ensures
        r@ == json_text(attributes.pairs()),
        attributes_in(r@) == Some(attributes@),
{
    match write_json(attributes.entries()) {
        Ok(text) => text,
        Err(_) => String::new(),
    }
}

/// The attributes that a column's JSON text holds.
fn attributes_from(column: usize, text: &str) -> (r: Result<Attributes, StoreError>)
    ensures
        match r {
            Ok(attributes) => attributes_in(text@) == Some(attributes@),
            Err(error) => attributes_in(text@) is None && error
                == (StoreError::InvalidAttributes { column }),
        },
{
    match read_json(text) {
        Ok(entries) => Ok(Attributes::from_entries(entries)),
        Err(_) => Err(StoreError::InvalidAttributes { column }),
    }
}

impl MetadataRow {
    /// What the row stands for, if its attributes can be read.
    pub open spec fn meaning(&self) -> Option<MetadataView> {
        match attributes_in(self.attributes_json@) {
            Some(attributes) => Some(
                MetadataView {
                    schema_version: self.schema_version,
                    scene_id: self.scene_id@,
                    label: self.label@,
                    captured_at_unix_ms: self.captured_at_unix_ms,
                    source: self.source@,
                    source_revision: optional_text(self.source_revision),
                    attributes,
                },
            ),
            None => None,
        }
    }

    fn of(metadata: &SceneMetadata) -> (r: MetadataRow)
        ensures
            r.meaning() == Some(metadata@),
            r.attributes_json@ == json_text(metadata.attributes.pairs()),
    {
        let source_revision: Option<String> = match &metadata.source_revision {
            Some(revision) => Some(revision.clone()),
            None => None,
        };
        MetadataRow {
            schema_version: metadata.schema_version,
            scene_id: metadata.scene_id.clone(),
            label: metadata.label.clone(),
            captured_at_unix_ms: metadata.captured_at_unix_ms,
            source: metadata.source.clone(),
            source_revision,
            attributes_json: attributes_text(&metadata.attributes),
        }
    }
}

impl EntityRow {
    /// What the row stands for, if its attributes can be read.
    pub open spec fn meaning(&self) -> Option<EntityView> {
        match attributes_in(self.attributes_json@) {
            Some(attributes) => Some(
                EntityView {
                    id: self.id@,
                    category: self.category@,
                    label: self.label@,
                    position: self.position,
                    heading_degrees: self.heading_degrees,
                    collider: self.collider,
                    ranges: self.ranges@.map_values(|ring: RangeRing| ring@),
                    attributes,
                },
            ),
            None => None,
        }
    }

    fn of(entity: &Entity) -> (r: EntityRow)
        ensures
            r.meaning() == Some(entity@),
            r.attributes_json@ == json_text(entity.attributes.pairs()),
    {
        EntityRow {
            id: entity.id.clone(),
            category: entity.category.clone(),
            label: entity.label.clone(),
            position: entity.position,
            heading_degrees: entity.heading_degrees,
            collider: entity.collider,
            ranges: copy_ranges(&entity.ranges),
            attributes_json: attributes_text(&entity.attributes),
        }
    }

    fn decode(&self) -> (r: Result<Entity, StoreError>)
        ensures
            match r {
                Ok(entity) => self.meaning() == Some(entity@),
                Err(error) => self.meaning() is None && error == (StoreError::InvalidAttributes {
                    column: ENTITY_COLUMN,
                }),
            },
    {
        let attributes: Attributes = attributes_from(
            ENTITY_COLUMN,
            self.attributes_json.as_str(),
        )?;
        Ok(
            Entity {
                id: self.id.clone(),
                category: self.category.clone(),
                label: self.label.clone(),
                position: self.position,
                heading_degrees: self.heading_degrees,
                collider: self.collider,
                ranges: copy_ranges(&self.ranges),
                attributes,
            },
        )
    }
}

impl PrefabRow {
    /// What the row stands for, if its attributes can be read.
    pub open spec fn meaning(&self) -> Option<PrefabView> {
        match attributes_in(self.attributes_json@) {
            Some(attributes) => Some(
                PrefabView {
                    name: self.name@,
                    width: self.width,
                    height: self.height,
                    offset: self.offset,
                    cell_size: self.cell_size,
                    blocked: self.blocked@,
                    attributes,
                },
            ),
            None => None,
        }
    }

    fn of(prefab: &PrefabCollision) -> (r: PrefabRow)
        ensures
            r.meaning() == Some(prefab@),
            r.attributes_json@ == json_text(prefab.attributes.pairs()),
    {
        let blocked: Vec<u8> = prefab.blocked.clone();
        assert(blocked@ =~= prefab.blocked@);
        PrefabRow {
            name: prefab.name.clone(),
            width: prefab.width,
            height: prefab.height,
            offset: prefab.offset,
            cell_size: prefab.cell_size,
            blocked,
            attributes_json: attributes_text(&prefab.attributes),
        }
    }

    fn decode(&self) -> (r: Result<PrefabCollision, StoreError>)
        ensures
            match r {
                Ok(prefab) => self.meaning() == Some(prefab@),
                Err(error) => self.meaning() is None && error == (StoreError::InvalidAttributes {
                    column: PREFAB_COLUMN,
                }),
            },
    {
        let attributes: Attributes = attributes_from(
            PREFAB_COLUMN,
            self.attributes_json.as_str(),
        )?;
        let blocked: Vec<u8> = self.blocked.clone();
        assert(blocked@ =~= self.blocked@);
        Ok(
            PrefabCollision {
                name: self.name.clone(),
                width: self.width,
                height: self.height,
                offset: self.offset,
                cell_size: self.cell_size,
                blocked,
                attributes,
            },
        )
    }
}

impl PlacementRow {
    /// What the row stands for, if its attributes can be read.
    pub open spec fn meaning(&self) -> Option<PlacementView> {
        match attributes_in(self.attributes_json@) {
            Some(attributes) => Some(
                PlacementView {
                    prefab: self.prefab@,
                    position: self.position,
                    yaw_degrees: self.yaw_degrees,
                    source: self.source@,
                    attributes,
                },
            ),
            None => None,
        }
    }

    fn of(placement: &PrefabPlacement) -> (r: PlacementRow)
        ensures
            r.meaning() == Some(placement@),
            r.attributes_json@ == json_text(placement.attributes.pairs()),
    {
        PlacementRow {
            prefab: placement.prefab.clone(),
            position: placement.position,
            yaw_degrees: placement.yaw_degrees,
            source: placement.source.clone(),
            attributes_json: attributes_text(&placement.attributes),
        }
    }

    fn decode(&self) -> (r: Result<PrefabPlacement, StoreError>)
        ensures
            match r {
                Ok(placement) => self.meaning() == Some(placement@),
                Err(error) => self.meaning() is None && error == (StoreError::InvalidAttributes {
                    column: PLACEMENT_COLUMN,
                }),
            },
    {
        let attributes: Attributes = attributes_from(
            PLACEMENT_COLUMN,
            self.attributes_json.as_str(),
        )?;
        Ok(
            PrefabPlacement {
                prefab: self.prefab.clone(),
                position: self.position,
                yaw_degrees: self.yaw_degrees,
                source: self.source.clone(),
                attributes,
            },
        )
    }
}

/// Whether every row of a list can be read.
pub open spec fn all_read<T>(meanings: Seq<Option<T>>) -> bool {
    forall|i: int| 0 <= i < meanings.len() ==> (#[trigger] meanings[i]) is Some
}

/// What the rows of a list stand for.
pub open spec fn read_all<T>(meanings: Seq<Option<T>>) -> Seq<T> {
    meanings.map_values(|meaning: Option<T>| meaning.unwrap())
}

pub open spec fn entity_meanings(rows: Seq<EntityRow>) -> Seq<Option<EntityView>> {
    rows.map_values(|row: EntityRow| row.meaning())
}

pub open spec fn prefab_meanings(rows: Seq<PrefabRow>) -> Seq<Option<PrefabView>> {
    rows.map_values(|row: PrefabRow| row.meaning())
}

pub open spec fn placement_meanings(rows: Seq<PlacementRow>) -> Seq<Option<PlacementView>> {
    rows.map_values(|row: PlacementRow| row.meaning())
}

/// The scene that metadata, a grid and rows stand for.
pub open spec fn assembled(
    metadata: MetadataView,
    grid: NavGrid,
    entities: Seq<EntityRow>,
    prefabs: Seq<PrefabRow>,
    placements: Seq<PlacementRow>,
) -> SceneView {
    SceneView {
        metadata,
        grid,
        entities: read_all(entity_meanings(entities)),
        prefab_collisions: read_all(prefab_meanings(prefabs)),
        placements: read_all(placement_meanings(placements)),
    }
}

/// A scene with its entities in listing order and its prefabs ordered by name:
/// the order in which scenes are loaded.
pub open spec fn filed(scene: SceneView) -> SceneView {
    SceneView {
        entities: listed(scene.entities, scene.entities.len() as int),
        prefab_collisions: by_name(scene.prefab_collisions),
        ..scene
    }
}

/// The way between scenes and their tables.
pub struct SceneStore;

impl SceneStore {
    /// Turns a scene into rows. Only a scene that keeps the contract is stored.
    pub fn rows(scene: &Scene) -> (r: Result<SceneRows, StoreError>)
        ensures
            match r {
                Ok(rows) => {
                    &&& scene.fault() is None
                    &&& rows.metadata.meaning() == Some(scene@.metadata)
                    &&& all_read(entity_meanings(rows.entities@))
                    &&& all_read(prefab_meanings(rows.prefab_collisions@))
                    &&& all_read(placement_meanings(rows.placements@))
                    &&& assembled(
                        scene@.metadata,
                        scene.grid,
                        rows.entities@,
                        rows.prefab_collisions@,
                        rows.placements@,
                    ) == scene@
                },
                Err(StoreError::Scene { error }) => scene.fault() == Some(error),
                Err(_) => false,
            },
    {
        if let Err(error) = scene.validate() {
            return Err(StoreError::Scene { error });
        }
        let mut entities: Vec<EntityRow> = Vec::new();
        let mut i: usize = 0;
        while i < scene.entities.len()
            invariant
                i <= scene.entities@.len(),
                entities@.len() == i,
                forall|j: int|
                    0 <= j < i ==> (#[trigger] entities@[j]).meaning() == Some(
                        scene.entities@[j]@,
                    ),
            decreases scene.entities@.len() - i,
        {
            entities.push(EntityRow::of(&scene.entities[i]));
            i = i + 1;
        }
        let mut prefab_collisions: Vec<PrefabRow> = Vec::new();
        let mut i: usize = 0;
        while i < scene.prefab_collisions.len()
            invariant
                i <= scene.prefab_collisions@.len(),
                prefab_collisions@.len() == i,
                forall|j: int|
                    0 <= j < i ==> (#[trigger] prefab_collisions@[j]).meaning() == Some(
                        scene.prefab_collisions@[j]@,
                    ),
            decreases scene.prefab_collisions@.len() - i,
        {
            prefab_collisions.push(PrefabRow::of(&scene.prefab_collisions[i]));
            i = i + 1;
        }
        let mut placements: Vec<PlacementRow> = Vec::new();
        let mut i: usize = 0;
        while i < scene.placements.len()
            invariant
                i <= scene.placements@.len(),
                placements@.len() == i,
                forall|j: int|
                    0 <= j < i ==> (#[trigger] placements@[j]).meaning() == Some(
                        scene.placements@[j]@,
                    ),
            decreases scene.placements@.len() - i,
        {
            placements.push(PlacementRow::of(&scene.placements[i]));
            i = i + 1;
        }
        let rows: SceneRows = SceneRows {
            metadata: MetadataRow::of(&scene.metadata),
            entities,
            prefab_collisions,
            placements,
        };
        proof {
            let again: SceneView = assembled(
                scene@.metadata,
                scene.grid,
                rows.entities@,
                rows.prefab_collisions@,
                rows.placements@,
            );
            assert(again.entities =~= scene@.entities);
            assert(again.prefab_collisions =~= scene@.prefab_collisions);
            assert(again.placements =~= scene@.placements);
        }
        Ok(rows)
    }

    /// Reads the metadata row. A database of another layout is refused before
    /// anything else is read.
    pub fn open(row: MetadataRow) -> (r: Result<SceneMetadata, StoreError>)
        ensures
            match r {
                Ok(metadata) => row.meaning() == Some(metadata@) && row.schema_version
                    == SCHEMA_VERSION,
                Err(StoreError::InvalidAttributes { column }) => row.meaning() is None && column
                    == METADATA_COLUMN,
                Err(StoreError::UnsupportedDatabase { found }) => row.meaning() is Some && found
                    == row.schema_version && found != SCHEMA_VERSION,
                Err(_) => false,
            },
    {
        let attributes: Attributes = attributes_from(
            METADATA_COLUMN,
            row.attributes_json.as_str(),
        )?;
        if row.schema_version != SCHEMA_VERSION {
            return Err(StoreError::UnsupportedDatabase { found: row.schema_version });
        }
        Ok(
            SceneMetadata {
                schema_version: row.schema_version,
                scene_id: row.scene_id,
                label: row.label,
                captured_at_unix_ms: row.captured_at_unix_ms,
                source: row.source,
                source_revision: row.source_revision,
                attributes,
            },
        )
    }

    /// Puts a scene together from its rows, in whatever order the tables hand
    /// them out: entities come by category and identifier, prefabs by name, and
    /// placements as they were stored. Only a scene that keeps the contract is
    /// returned.
    pub fn assemble(
        metadata: SceneMetadata,
        grid: NavGrid,
        entities: Vec<EntityRow>,
        prefab_collisions: Vec<PrefabRow>,
        placements: Vec<PlacementRow>,
    ) -> (r: Result<Scene, StoreError>)
        ensures
            ({
                let whole: SceneView = filed(
                    assembled(metadata@, grid, entities@, prefab_collisions@, placements@),
                );
                match r {
                    Ok(scene) => {
                        &&& all_read(entity_meanings(entities@))
                        &&& all_read(prefab_meanings(prefab_collisions@))
                        &&& all_read(placement_meanings(placements@))
                        &&& scene@ == whole
                        &&& scene_contract(whole)
                    },
                    Err(StoreError::InvalidAttributes { column }) => {
                        if !all_read(entity_meanings(entities@)) {
                            column == ENTITY_COLUMN
                        } else if !all_read(prefab_meanings(prefab_collisions@)) {
                            column == PREFAB_COLUMN
                        } else {
                            !all_read(placement_meanings(placements@)) && column
                                == PLACEMENT_COLUMN
                        }
                    },
                    Err(StoreError::Scene { error }) => {
                        &&& all_read(entity_meanings(entities@))
                        &&& all_read(prefab_meanings(prefab_collisions@))
                        &&& all_read(placement_meanings(placements@))
                        &&& !scene_contract(whole)
                        &&& exists|scene: Scene|
                            scene@ == whole && #[trigger] scene.fault() == Some(error)
                    },
                    Err(_) => false,
                }
            }),
    {
        let mut entities: Vec<Entity> = read_entities(&entities)?;
        let mut prefab_collisions: Vec<PrefabCollision> = read_prefabs(&prefab_collisions)?;
        let placements: Vec<PrefabPlacement> = read_placements(&placements)?;
        assert(views(entities@) =~= entities@.map_values(|entity: Entity| entity@));
        list_entities(&mut entities);
        order_prefabs(&mut prefab_collisions);
        assert(views(entities@) =~= entities@.map_values(|entity: Entity| entity@));
        let scene: Scene = Scene { metadata, grid, entities, prefab_collisions, placements };
        proof {
            lemma_valid_scene(&scene);
        }
        match scene.validate() {
            Ok(()) => Ok(scene),
            Err(error) => Err(StoreError::Scene { error }),
        }
    }
}

fn read_entities(rows: &Vec<EntityRow>) -> (r: Result<Vec<Entity>, StoreError>)
    ensures
        match r {
            Ok(read) => all_read(entity_meanings(rows@)) && read@.map_values(|entity: Entity| entity@)
                == read_all(entity_meanings(rows@)),
            Err(error) => !all_read(entity_meanings(rows@)) && error == (StoreError::InvalidAttributes {
                column: ENTITY_COLUMN,
            }),
        },
{
    let mut read: Vec<Entity> = Vec::new();
    let mut i: usize = 0;
    while i < rows.len()
        invariant
            i <= rows@.len(),
            read@.len() == i,
            forall|j: int|
                0 <= j < i ==> rows@[j].meaning() == Some((#[trigger] read@[j])@),
        decreases rows@.len() - i,
    {
        match rows[i].decode() {
            Ok(entity) => {
                read.push(entity);
            },
            Err(error) => {
                assert(entity_meanings(rows@)[i as int] is None);
                return Err(error);
            },
        }
        i = i + 1;
    }
    proof {
        assert forall|j: int| 0 <= j < rows@.len() implies (#[trigger] entity_meanings(rows@)[j]) is Some by {
            assert(rows@[j].meaning() == Some(read@[j]@));
        }
        let all: Seq<_> = read_all(entity_meanings(rows@));
        assert forall|j: int| 0 <= j < all.len() implies read@[j]@ == #[trigger] all[j] by {
            assert(rows@[j].meaning() == Some(read@[j]@));
        }
        assert(read@.map_values(|entity: Entity| entity@) =~= all);
    }
    Ok(read)
}

fn read_prefabs(rows: &Vec<PrefabRow>) -> (r: Result<Vec<PrefabCollision>, StoreError>)
    ensures
        match r {
            Ok(read) => all_read(prefab_meanings(rows@)) && read@.map_values(|prefab: PrefabCollision| prefab@)
                == read_all(prefab_meanings(rows@)),
            Err(error) => !all_read(prefab_meanings(rows@)) && error == (StoreError::InvalidAttributes {
                column: PREFAB_COLUMN,
            }),
        },
{
    let mut read: Vec<PrefabCollision> = Vec::new();
    let mut i: usize = 0;
    while i < rows.len()
        invariant
            i <= rows@.len(),
            read@.len() == i,
            forall|j: int|
                0 <= j < i ==> rows@[j].meaning() == Some((#[trigger] read@[j])@),
        decreases rows@.len() - i,
    {
        match rows[i].decode() {
            Ok(prefab) => {
                read.push(prefab);
            },
            Err(error) => {
                assert(prefab_meanings(rows@)[i as int] is None);
                return Err(error);
            },
        }
        i = i + 1;
    }
    proof {
        assert forall|j: int| 0 <= j < rows@.len() implies (#[trigger] prefab_meanings(rows@)[j]) is Some by {
            assert(rows@[j].meaning() == Some(read@[j]@));
        }
        let all: Seq<_> = read_all(prefab_meanings(rows@));
        assert forall|j: int| 0 <= j < all.len() implies read@[j]@ == #[trigger] all[j] by {
            assert(rows@[j].meaning() == Some(read@[j]@));
        }
        assert(read@.map_values(|prefab: PrefabCollision| prefab@) =~= all);
    }
    Ok(read)
}

fn read_placements(rows: &Vec<PlacementRow>) -> (r: Result<Vec<PrefabPlacement>, StoreError>)
    ensures
        match r {
            Ok(read) => all_read(placement_meanings(rows@)) && read@.map_values(|placement: PrefabPlacement| placement@)
                == read_all(placement_meanings(rows@)),
            Err(error) => !all_read(placement_meanings(rows@)) && error == (StoreError::InvalidAttributes {
                column: PLACEMENT_COLUMN,
            }),
        },
{
    let mut read: Vec<PrefabPlacement> = Vec::new();
    let mut i: usize = 0;
    while i < rows.len()
        invariant
            i <= rows@.len(),
            read@.len() == i,
            forall|j: int|
                0 <= j < i ==> rows@[j].meaning() == Some((#[trigger] read@[j])@),
        decreases rows@.len() - i,
    {
        match rows[i].decode() {
            Ok(placement) => {
                read.push(placement);
            },
            Err(error) => {
                assert(placement_meanings(rows@)[i as int] is None);
                return Err(error);
            },
        }
        i = i + 1;
    }
    proof {
        assert forall|j: int| 0 <= j < rows@.len() implies (#[trigger] placement_meanings(rows@)[j]) is Some by {
            assert(rows@[j].meaning() == Some(read@[j]@));
        }
        let all: Seq<_> = read_all(placement_meanings(rows@));
        assert forall|j: int| 0 <= j < all.len() implies read@[j]@ == #[trigger] all[j] by {
            assert(rows@[j].meaning() == Some(read@[j]@));
        }
        assert(read@.map_values(|placement: PrefabPlacement| placement@) =~= all);
    }
    Ok(read)
}

/// What reordered rows stand for is reordered in the same way.
proof fn lemma_reordered_read<T>(list: Seq<Option<T>>, other: Seq<Option<T>>)
    requires
        all_read(list),
        other.to_multiset() == list.to_multiset(),
    ensures
        all_read(other),
        read_all(other).to_multiset() == read_all(list).to_multiset(),
    decreases list.len(),
{
    broadcast use vstd::seq_lib::group_to_multiset_ensures;

    assert(list.to_multiset().len() == list.len());
    assert(other.to_multiset().len() == other.len());
    if list.len() > 0 {
        let last: int = list.len() - 1;
        assert(list.to_multiset().count(list[last]) > 0);
        assert(other.contains(list[last]));
        let i: int = choose|i: int| 0 <= i < other.len() && other[i] == list[last];
        let fewer: Seq<Option<T>> = list.remove(last);
        let rest: Seq<Option<T>> = other.remove(i);
        lemma_reordered_read(fewer, rest);
        assert(read_all(fewer) =~= read_all(list).remove(last));
        assert(read_all(rest) =~= read_all(other).remove(i));
        assert(read_all(list)[last] == read_all(other)[i]);
        assert(read_all(list).to_multiset() =~= read_all(other).to_multiset()) by {
            let x: T = read_all(list)[last];
            let a: Multiset<T> = read_all(list).to_multiset();
            let b: Multiset<T> = read_all(other).to_multiset();
            assert(a.remove(x) == b.remove(x));
            assert(a.count(x) > 0 && b.count(x) > 0);
            assert(a =~= a.remove(x).insert(x));
            assert(b =~= b.remove(x).insert(x));
        }
        assert forall|j: int| 0 <= j < other.len() implies (#[trigger] other[j]) is Some by {
            if j < i {
                assert(rest[j] == other[j]);
            } else if j > i {
                assert(rest[j - 1] == other[j]);
            }
        }
    }
}

/// Loading gives back what was stored: the rows of a scene that keeps the
/// contract can be read and, in whatever order the tables hand out entities and
/// prefabs, what they are put together to keeps the contract and is the scene
/// itself, its entities sorted by category and identifier and its prefabs by
/// name.
pub proof fn lemma_stored_scene_loads(
    scene: &Scene,
    rows: SceneRows,
    entities: Seq<EntityRow>,
    prefabs: Seq<PrefabRow>,
)
    requires
        scene.fault() is None,
        rows.metadata.meaning() == Some(scene@.metadata),
        assembled(
            scene@.metadata,
            scene.grid,
            rows.entities@,
            rows.prefab_collisions@,
            rows.placements@,
        ) == scene@,
        all_read(entity_meanings(rows.entities@)),
        all_read(prefab_meanings(rows.prefab_collisions@)),
        entity_meanings(entities).to_multiset() == entity_meanings(rows.entities@).to_multiset(),
        prefab_meanings(prefabs).to_multiset() == prefab_meanings(
            rows.prefab_collisions@,
        ).to_multiset(),
    ensures
        rows.metadata.schema_version == SCHEMA_VERSION,
        all_read(entity_meanings(entities)),
        all_read(prefab_meanings(prefabs)),
        ({
            let loaded: SceneView = filed(
                assembled(
                    rows.metadata.meaning().unwrap(),
                    scene.grid,
                    entities,
                    prefabs,
                    rows.placements@,
                ),
            );
            &&& scene_contract(loaded)
            &&& loaded.metadata == scene@.metadata
            &&& loaded.grid == scene@.grid
            &&& loaded.placements == scene@.placements
            &&& loaded.entities.to_multiset() == scene@.entities.to_multiset()
            &&& in_listing_order(loaded.entities)
            &&& loaded.prefab_collisions.to_multiset() == scene@.prefab_collisions.to_multiset()
            &&& in_name_order(loaded.prefab_collisions)
        }),
{
    let read: SceneView = assembled(
        scene@.metadata,
        scene.grid,
        entities,
        prefabs,
        rows.placements@,
    );
    lemma_valid_scene(scene);
    lemma_reordered_read(entity_meanings(rows.entities@), entity_meanings(entities));
    lemma_reordered_read(prefab_meanings(rows.prefab_collisions@), prefab_meanings(prefabs));
    lemma_listed(read.entities, read.entities.len() as int);
    lemma_by_name(read.prefab_collisions);
    assert(read.entities.take(read.entities.len() as int) =~= read.entities);
    lemma_contract_ignores_order(
        scene@,
        filed(read).entities,
        filed(read).prefab_collisions,
    );
}

} // verus!
