//! Game-neutral scene model used by the viewer, database, and navigation code.
//!
//! Producers turn a source's native map and live state into this model. The
//! contract has no knowledge of protocols or file formats.
use std::collections::BTreeMap;
use vstd::prelude::*;

use crate::attributes::Attributes;
use crate::geometry::{cell_containing, cell_middle, locate, Point, ZERO};
use crate::number::Real;
use crate::text::same_text;

verus! {

/// The scene layout that this library reads and writes.
pub const SCHEMA_VERSION: u32 = 1;

#[derive(Clone, Debug, PartialEq)]
pub struct Scene {
    pub metadata: SceneMetadata,
    pub grid: NavGrid,
    pub entities: Vec<Entity>,
    pub prefab_collisions: Vec<PrefabCollision>,
    pub placements: Vec<PrefabPlacement>,
}

#[derive(Clone, Debug, PartialEq)]
pub struct SceneMetadata {
    pub schema_version: u32,
    pub scene_id: String,
    pub label: String,
    pub captured_at_unix_ms: i64,
    pub source: String,
    pub source_revision: Option<String>,
    pub attributes: Attributes,
}

#[derive(Clone, Debug, PartialEq)]
pub struct NavGrid {
    pub width: usize,
    pub height: usize,
    pub origin: Point,
    pub cell_size: Real,
    /// One byte per cell, row-major: zero is traversable, non-zero is blocked.
    pub blocked: Vec<u8>,
    /// One generic shape identifier per cell. Values resolve through `shapes`.
    pub shape_ids: Vec<u8>,
    pub shapes: BTreeMap<u8, CellPrimitive>,
}

#[derive(Clone, Debug, PartialEq)]
pub enum CellPrimitive {
    Full,
    Disc { radius: Real },
    Polygon { points: Vec<Point> },
    Edge { from: Point, to: Point },
}

#[derive(Debug, PartialEq)]
pub struct Entity {
    pub id: String,
    /// Free-form semantic role such as `agent`, `resource`, or `actor`.
    pub category: String,
    pub label: String,
    pub position: Point,
    pub heading_degrees: Option<Real>,
    pub collider: Option<Collider>,
    pub ranges: Vec<RangeRing>,
    pub attributes: Attributes,
}

#[derive(Clone, Copy, PartialEq, Eq, Structural, Debug)]
pub enum Collider {
    Circle { radius: Real },
    Box { half_extents: Point },
}

#[derive(Debug, PartialEq)]
pub struct RangeRing {
    pub role: String,
    pub label: String,
    pub radius: Real,
}

#[derive(Clone, Debug, PartialEq)]
pub struct PrefabCollision {
    pub name: String,
    pub width: usize,
    pub height: usize,
    pub offset: Point,
    pub cell_size: Real,
    pub blocked: Vec<u8>,
    pub attributes: Attributes,
}

#[derive(Clone, Debug, PartialEq)]
pub struct PrefabPlacement {
    pub prefab: String,
    pub position: Point,
    pub yaw_degrees: Real,
    pub source: String,
    pub attributes: Attributes,
}

/// What a range ring holds.
pub struct RangeView {
    pub role: Seq<char>,
    pub label: Seq<char>,
    pub radius: Real,
}

impl View for RangeRing {
    type V = RangeView;

    open spec fn view(&self) -> RangeView {
        RangeView { role: self.role@, label: self.label@, radius: self.radius }
    }
}

impl Clone for RangeRing {
    fn clone(&self) -> (r: RangeRing)
        ensures
            r@ == self@,
    {
        RangeRing { role: self.role.clone(), label: self.label.clone(), radius: self.radius }
    }
}

/// Copies range rings.
pub(crate) fn copy_ranges(ranges: &Vec<RangeRing>) -> (r: Vec<RangeRing>)
    ensures
        r@.map_values(|ring: RangeRing| ring@) == ranges@.map_values(|ring: RangeRing| ring@),
{
    let mut r: Vec<RangeRing> = Vec::new();
    let mut i: usize = 0;
    while i < ranges.len()
        invariant
            i <= ranges@.len(),
            r@.len() == i,
            forall|j: int| 0 <= j < i ==> #[trigger] r@[j]@ == ranges@[j]@,
        decreases ranges@.len() - i,
    {
        r.push(ranges[i].clone());
        i = i + 1;
    }
    assert(r@.map_values(|ring: RangeRing| ring@) =~= ranges@.map_values(|ring: RangeRing| ring@));
    r
}

/// What an entity holds.
pub struct EntityView {
    pub id: Seq<char>,
    pub category: Seq<char>,
    pub label: Seq<char>,
    pub position: Point,
    pub heading_degrees: Option<Real>,
    pub collider: Option<Collider>,
    pub ranges: Seq<RangeView>,
    pub attributes: Map<Seq<char>, Seq<char>>,
}

impl View for Entity {
    type V = EntityView;

    open spec fn view(&self) -> EntityView {
        EntityView {
            id: self.id@,
            category: self.category@,
            label: self.label@,
            position: self.position,
            heading_degrees: self.heading_degrees,
            collider: self.collider,
            ranges: self.ranges@.map_values(|ring: RangeRing| ring@),
            attributes: self.attributes@,
        }
    }
}

impl Clone for Entity {
    fn clone(&self) -> (r: Entity)
        ensures
            r@ == self@,
    {
        let ranges: Vec<RangeRing> = copy_ranges(&self.ranges);
        let r: Entity = Entity {
            id: self.id.clone(),
            category: self.category.clone(),
            label: self.label.clone(),
            position: self.position,
            heading_degrees: self.heading_degrees,
            collider: self.collider,
            ranges,
            attributes: self.attributes.clone(),
        };
        r
    }
}

/// What a scene's metadata hold.
pub struct MetadataView {
    pub schema_version: u32,
    pub scene_id: Seq<char>,
    pub label: Seq<char>,
    pub captured_at_unix_ms: i64,
    pub source: Seq<char>,
    pub source_revision: Option<Seq<char>>,
    pub attributes: Map<Seq<char>, Seq<char>>,
}

/// The text of an optional string.
pub open spec fn optional_text(text: Option<String>) -> Option<Seq<char>> {
    match text {
        Some(text) => Some(text@),
        None => None,
    }
}

impl View for SceneMetadata {
    type V = MetadataView;

    open spec fn view(&self) -> MetadataView {
        MetadataView {
            schema_version: self.schema_version,
            scene_id: self.scene_id@,
            label: self.label@,
            captured_at_unix_ms: self.captured_at_unix_ms,
            source: self.source@,
            source_revision: optional_text(self.source_revision),
            attributes: self.attributes@,
        }
    }
}

/// What a prefab's collision definition holds.
pub struct PrefabView {
    pub name: Seq<char>,
    pub width: usize,
    pub height: usize,
    pub offset: Point,
    pub cell_size: Real,
    pub blocked: Seq<u8>,
    pub attributes: Map<Seq<char>, Seq<char>>,
}

impl View for PrefabCollision {
    type V = PrefabView;

    open spec fn view(&self) -> PrefabView {
        PrefabView {
            name: self.name@,
            width: self.width,
            height: self.height,
            offset: self.offset,
            cell_size: self.cell_size,
            blocked: self.blocked@,
            attributes: self.attributes@,
        }
    }
}

/// What a placement holds.
pub struct PlacementView {
    pub prefab: Seq<char>,
    pub position: Point,
    pub yaw_degrees: Real,
    pub source: Seq<char>,
    pub attributes: Map<Seq<char>, Seq<char>>,
}

impl View for PrefabPlacement {
    type V = PlacementView;

    open spec fn view(&self) -> PlacementView {
        PlacementView {
            prefab: self.prefab@,
            position: self.position,
            yaw_degrees: self.yaw_degrees,
            source: self.source@,
            attributes: self.attributes@,
        }
    }
}

/// What a scene holds.
pub struct SceneView {
    pub metadata: MetadataView,
    pub grid: NavGrid,
    pub entities: Seq<EntityView>,
    pub prefab_collisions: Seq<PrefabView>,
    pub placements: Seq<PlacementView>,
}

impl View for Scene {
    type V = SceneView;

    open spec fn view(&self) -> SceneView {
        SceneView {
            metadata: self.metadata@,
            grid: self.grid,
            entities: self.entities@.map_values(|entity: Entity| entity@),
            prefab_collisions: self.prefab_collisions@.map_values(
                |prefab: PrefabCollision| prefab@,
            ),
            placements: self.placements@.map_values(|placement: PrefabPlacement| placement@),
        }
    }
}

/// Whether an entity has a role.
pub fn has_category(entity: &Entity, category: &str) -> (r: bool)
    ensures
        r == (entity@.category == category@),
{
    same_text(entity.category.as_str(), category)
}

/// Why a scene breaks the contract.
#[derive(Clone, Debug, PartialEq)]
pub enum SceneError {
    /// The grid has no cells or no cell size.
    InvalidGeometry,
    /// The grid's arrays do not have one byte per cell.
    CellCount { cells: u128, blocked: usize, shapes: usize },
    /// A blocked cell's shape identifier does not resolve.
    MissingShape { shape: u8 },
    /// The scene has another layout.
    UnsupportedSchema { found: u32 },
    /// A prefab's mask does not have its size, or has none.
    InvalidPrefab { name: String },
    /// A prefab's mask blocks nothing.
    EmptyPrefab { name: String },
    /// Two prefabs have the same name.
    DuplicatePrefab { name: String },
    /// Two entities have the same identifier.
    DuplicateEntity { id: String },
    NonFinitePosition { id: String },
    InvalidCircle { id: String },
    InvalidBox { id: String },
    InvalidRange { id: String },
    /// A placement names no stored prefab.
    MissingPrefab { prefab: String },
}

/// The first fault among the first `n` things.
pub open spec fn first_fault(n: int, faults: spec_fn(int) -> Option<SceneError>) -> Option<
    SceneError,
>
    decreases n,
{
    if n <= 0 {
        None
    } else {
        match first_fault(n - 1, faults) {
            Some(fault) => Some(fault),
            None => faults(n - 1),
        }
    }
}

/// The first fault stays the first.
pub proof fn lemma_first_fault_stays(
    n: int,
    m: int,
    faults: spec_fn(int) -> Option<SceneError>,
)
    requires
        n <= m,
        first_fault(n, faults) is Some,
    ensures
        first_fault(m, faults) == first_fault(n, faults),
    decreases m,
{
    if n < m {
        lemma_first_fault_stays(n, m - 1, faults);
    }
}

/// Without a first fault there is none.
pub proof fn lemma_no_fault(n: int, faults: spec_fn(int) -> Option<SceneError>, i: int)
    requires
        first_fault(n, faults) is None,
        0 <= i < n,
    ensures
        faults(i) is None,
    decreases n,
{
    if i < n - 1 {
        lemma_no_fault(n - 1, faults, i);
    }
}

impl NavGrid {
    /// Number of cells.
    pub open spec fn cells(&self) -> int {
        self.width * self.height
    }

    pub open spec fn within(&self, col: int, row: int) -> bool {
        0 <= col < self.width && 0 <= row < self.height
    }

    /// The fault of each cell: a blocked one whose shape does not resolve.
    pub open spec fn shape_faults(&self) -> spec_fn(int) -> Option<SceneError> {
        |i: int|
            if self.blocked@[i] != 0 && !self.shapes@.dom().contains(self.shape_ids@[i]) {
                Some(SceneError::MissingShape { shape: self.shape_ids@[i] })
            } else {
                None
            }
    }

    /// Why the grid breaks the contract, if it does.
    pub open spec fn fault(&self) -> Option<SceneError> {
        if self.width == 0 || self.height == 0 || self.cell_size.le(Real::of(ZERO)) {
            Some(SceneError::InvalidGeometry)
        } else if self.blocked@.len() != self.cells() || self.shape_ids@.len() != self.cells() {
            Some(
                SceneError::CellCount {
                    cells: self.cells() as u128,
                    blocked: self.blocked@.len() as usize,
                    shapes: self.shape_ids@.len() as usize,
                },
            )
        } else {
            first_fault(self.cells(), self.shape_faults())
        }
    }

    /// Checks that the grid has cells, one byte per cell in either array, and a
    /// shape for every blocked cell.
    pub fn validate(&self) -> (r: Result<(), SceneError>)
        ensures
            match r {
                Ok(()) => self.fault() is None,
                Err(error) => self.fault() == Some(error),
            },
    {
        if self.width == 0 || self.height == 0 || self.cell_size.le(Real::of(ZERO)) {
            return Err(SceneError::InvalidGeometry);
        }
        proof {
            assert(self.width * self.height <= u64::MAX * u64::MAX) by (nonlinear_arith)
                requires
                    self.width <= u64::MAX,
                    self.height <= u64::MAX,
            ;
        }
        let cells: u128 = self.width as u128 * self.height as u128;
        if self.blocked.len() as u128 != cells || self.shape_ids.len() as u128 != cells {
            return Err(
                SceneError::CellCount {
                    cells,
                    blocked: self.blocked.len(),
                    shapes: self.shape_ids.len(),
                },
            );
        }
        let mut i: usize = 0;
        while i < self.blocked.len()
            invariant
                i <= self.blocked@.len(),
                self.blocked@.len() == self.cells(),
                self.shape_ids@.len() == self.cells(),
                first_fault(i as int, self.shape_faults()) is None,
                self.fault() == first_fault(self.cells(), self.shape_faults()),
            decreases self.blocked@.len() - i,
        {
            if self.blocked[i] != 0 && !self.shapes.contains_key(&self.shape_ids[i]) {
                proof {
                    lemma_first_fault_stays(i + 1, self.cells(), self.shape_faults());
                }
                return Err(SceneError::MissingShape { shape: self.shape_ids[i] });
            }
            i = i + 1;
        }
        Ok(())
    }

    /// Number of a cell, row by row.
    pub fn index(&self, col: usize, row: usize) -> (r: usize)
        requires
            row * self.width + col <= usize::MAX,
        ensures
            r == row * self.width + col,
    {
        proof {
            assert(row * self.width >= 0) by (nonlinear_arith);
        }
        row * self.width + col
    }

    pub fn in_bounds(&self, col: isize, row: isize) -> (r: bool)
        ensures
            r == self.within(col as int, row as int),
    {
        col >= 0 && row >= 0 && (col as usize) < self.width && (row as usize) < self.height
    }

    /// The cell that a point falls into, if it lies in the grid.
    pub open spec fn cell_at(&self, world: Point) -> Option<(usize, usize)> {
        cell_containing(world, self.origin, self.cell_size, self.width, self.height)
    }

    /// The cell that a point falls into, if it lies in the grid.
    pub fn cell(&self, world: Point) -> (r: Option<(usize, usize)>)
        ensures
            r == self.cell_at(world),
    {
        locate(world, self.origin, self.cell_size, self.width, self.height)
    }

    pub open spec fn spec_center(&self, col: usize, row: usize) -> Point {
        Point {
            x: cell_middle(col, self.origin.x, self.cell_size),
            z: cell_middle(row, self.origin.z, self.cell_size),
        }
    }

    /// The middle of a cell.
    #[verifier::when_used_as_spec(spec_center)]
    pub fn center(&self, col: usize, row: usize) -> (r: Point)
        ensures
            r == self.spec_center(col, row),
    {
        Point {
            x: cell_middle(col, self.origin.x, self.cell_size),
            z: cell_middle(row, self.origin.z, self.cell_size),
        }
    }

    pub open spec fn spec_bounds(&self) -> (Point, Point) {
        (
            self.origin,
            Point {
                x: self.origin.x.add(Real::from_count(self.width as u64).mul(self.cell_size)),
                z: self.origin.z.add(Real::from_count(self.height as u64).mul(self.cell_size)),
            },
        )
    }

    /// The least and the greatest corner of the grid.
    #[verifier::when_used_as_spec(spec_bounds)]
    pub fn bounds(&self) -> (r: (Point, Point))
        ensures
            r == self.spec_bounds(),
    {
        (
            self.origin,
            Point {
                x: self.origin.x.add(Real::from_count(self.width as u64).mul(self.cell_size)),
                z: self.origin.z.add(Real::from_count(self.height as u64).mul(self.cell_size)),
            },
        )
    }
}

impl PrefabCollision {
    /// Whether the mask blocks at least one cell.
    pub open spec fn blocks_something(&self) -> bool {
        exists|i: int| 0 <= i < self.blocked@.len() && #[trigger] self.blocked@[i] != 0
    }

    /// Why the prefab breaks the contract, if it does.
    pub open spec fn fault(&self) -> Option<SceneError> {
        if self.width == 0 || self.height == 0 || self.cell_size.le(Real::of(ZERO))
            || self.blocked@.len() != self.width * self.height {
            Some(SceneError::InvalidPrefab { name: self.name })
        } else if !self.blocks_something() {
            Some(SceneError::EmptyPrefab { name: self.name })
        } else {
            None
        }
    }

    /// Checks that the mask has its size and blocks at least one cell.
    pub fn validate(&self) -> (r: Result<(), SceneError>)
        ensures
            match r {
                Ok(()) => self.fault() is None,
                Err(error) => self.fault() == Some(error),
            },
    {
        proof {
            assert(self.width * self.height <= u64::MAX * u64::MAX) by (nonlinear_arith)
                requires
                    self.width <= u64::MAX,
                    self.height <= u64::MAX,
            ;
        }
        if self.width == 0 || self.height == 0 || self.cell_size.le(Real::of(ZERO))
            || self.blocked.len() as u128 != self.width as u128 * self.height as u128 {
            return Err(SceneError::InvalidPrefab { name: self.name.clone() });
        }
        let mut i: usize = 0;
        while i < self.blocked.len()
            invariant
                i <= self.blocked@.len(),
                self.width > 0 && self.height > 0 && !self.cell_size.le(Real::of(ZERO)),
                self.blocked@.len() == self.width * self.height,
                forall|j: int| 0 <= j < i ==> #[trigger] self.blocked@[j] == 0,
            decreases self.blocked@.len() - i,
        {
            if self.blocked[i] != 0 {
                assert(self.blocks_something());
                return Ok(());
            }
            i = i + 1;
        }
        Err(SceneError::EmptyPrefab { name: self.name.clone() })
    }
}

impl RangeRing {
    /// Whether the radius is finite and not negative.
    pub open spec fn valid(&self) -> bool {
        self.radius.finite() && !self.radius.lt(Real::of(ZERO))
    }
}

impl Entity {
    /// Why the entity by itself breaks the contract, if it does.
    pub open spec fn fault(&self) -> Option<SceneError> {
        if !self.position.x.finite() || !self.position.z.finite() {
            Some(SceneError::NonFinitePosition { id: self.id })
        } else {
            match self.collider_fault() {
                Some(fault) => Some(fault),
                None => if exists|i: int|
                    0 <= i < self.ranges@.len() && !#[trigger] self.ranges@[i].valid() {
                    Some(SceneError::InvalidRange { id: self.id })
                } else {
                    None
                },
            }
        }
    }

    pub open spec fn collider_fault(&self) -> Option<SceneError> {
        match self.collider {
            Some(Collider::Circle { radius }) => if !extent_valid(radius) {
                Some(SceneError::InvalidCircle { id: self.id })
            } else {
                None
            },
            Some(Collider::Box { half_extents }) => if !extent_valid(half_extents.x)
                || !extent_valid(half_extents.z) {
                Some(SceneError::InvalidBox { id: self.id })
            } else {
                None
            },
            None => None,
        }
    }

    /// Checks that the entity's position is finite and that its collider and
    /// ranges have valid sizes.
    fn validate(&self) -> (r: Result<(), SceneError>)
        ensures
            match r {
                Ok(()) => self.fault() is None,
                Err(error) => self.fault() == Some(error),
            },
    {
        if !self.position.x.is_finite() || !self.position.z.is_finite() {
            return Err(SceneError::NonFinitePosition { id: self.id.clone() });
        }
        match self.collider {
            Some(Collider::Circle { radius }) => {
                if !is_extent(radius) {
                    return Err(SceneError::InvalidCircle { id: self.id.clone() });
                }
            },
            Some(Collider::Box { half_extents }) => {
                if !is_extent(half_extents.x) || !is_extent(half_extents.z) {
                    return Err(SceneError::InvalidBox { id: self.id.clone() });
                }
            },
            None => {},
        }
        let mut i: usize = 0;
        while i < self.ranges.len()
            invariant
                i <= self.ranges@.len(),
                forall|j: int| 0 <= j < i ==> #[trigger] self.ranges@[j].valid(),
                self.position.x.finite() && self.position.z.finite(),
                self.collider_fault() is None,
            decreases self.ranges@.len() - i,
        {
            let radius: Real = self.ranges[i].radius;
            if !radius.is_finite() || radius.lt(Real::of(ZERO)) {
                assert(!self.ranges@[i as int].valid());
                return Err(SceneError::InvalidRange { id: self.id.clone() });
            }
            i = i + 1;
        }
        Ok(())
    }
}

/// Whether a collider's size is finite and positive.
pub open spec fn extent_valid(extent: Real) -> bool {
    extent.finite() && !extent.le(Real::of(ZERO))
}

fn is_extent(extent: Real) -> (r: bool)
    ensures
        r == extent_valid(extent),
{
    extent.is_finite() && !extent.le(Real::of(ZERO))
}

/// Whether one of the first `n` prefabs has a name.
pub open spec fn names_prefab(prefabs: Seq<PrefabCollision>, n: int, name: Seq<char>) -> bool {
    exists|i: int| 0 <= i < n && #[trigger] prefabs[i].name@ == name
}

/// Whether one of the first `n` entities has an identifier.
pub open spec fn names_entity(entities: Seq<Entity>, n: int, id: Seq<char>) -> bool {
    exists|i: int| 0 <= i < n && #[trigger] entities[i].id@ == id
}

impl Scene {
    /// The fault of each prefab by itself.
    pub open spec fn prefab_faults(&self) -> spec_fn(int) -> Option<SceneError> {
        |i: int| self.prefab_collisions@[i].fault()
    }

    /// The fault of each prefab whose name is taken.
    pub open spec fn prefab_name_faults(&self) -> spec_fn(int) -> Option<SceneError> {
        |i: int|
            if names_prefab(self.prefab_collisions@, i, self.prefab_collisions@[i].name@) {
                Some(SceneError::DuplicatePrefab { name: self.prefab_collisions@[i].name })
            } else {
                None
            }
    }

    /// The fault of each entity: its identifier is taken, or it is faulty by
    /// itself.
    pub open spec fn entity_faults(&self) -> spec_fn(int) -> Option<SceneError> {
        |i: int|
            if names_entity(self.entities@, i, self.entities@[i].id@) {
                Some(SceneError::DuplicateEntity { id: self.entities@[i].id })
            } else {
                self.entities@[i].fault()
            }
    }

    /// The fault of each placement: no prefab has the name it gives.
    pub open spec fn placement_faults(&self) -> spec_fn(int) -> Option<SceneError> {
        |i: int|
            if names_prefab(
                self.prefab_collisions@,
                self.prefab_collisions@.len() as int,
                self.placements@[i].prefab@,
            ) {
                None
            } else {
                Some(SceneError::MissingPrefab { prefab: self.placements@[i].prefab })
            }
    }

    /// The first reason for which the scene breaks the contract, if it does.
    pub open spec fn fault(&self) -> Option<SceneError> {
        let prefabs: int = self.prefab_collisions@.len() as int;
        if self.grid.fault() is Some {
            self.grid.fault()
        } else if self.metadata.schema_version != SCHEMA_VERSION {
            Some(SceneError::UnsupportedSchema { found: self.metadata.schema_version })
        } else if first_fault(prefabs, self.prefab_faults()) is Some {
            first_fault(prefabs, self.prefab_faults())
        } else if first_fault(prefabs, self.prefab_name_faults()) is Some {
            first_fault(prefabs, self.prefab_name_faults())
        } else if first_fault(self.entities@.len() as int, self.entity_faults()) is Some {
            first_fault(self.entities@.len() as int, self.entity_faults())
        } else {
            first_fault(self.placements@.len() as int, self.placement_faults())
        }
    }

    /// Checks the scene contract.
    pub fn validate(&self) -> (r: Result<(), SceneError>)
        ensures
            match r {
                Ok(()) => self.fault() is None,
                Err(error) => self.fault() == Some(error),
            },
    {
        self.grid.validate()?;
        if self.metadata.schema_version != SCHEMA_VERSION {
            return Err(SceneError::UnsupportedSchema { found: self.metadata.schema_version });
        }
        self.validate_prefabs()?;
        self.validate_entities()?;
        self.validate_placements()
    }

    fn validate_prefabs(&self) -> (r: Result<(), SceneError>)
        ensures
            ({
                let n: int = self.prefab_collisions@.len() as int;
                let fault: Option<SceneError> = if first_fault(n, self.prefab_faults()) is Some {
                    first_fault(n, self.prefab_faults())
                } else {
                    first_fault(n, self.prefab_name_faults())
                };
                match r {
                    Ok(()) => fault is None,
                    Err(error) => fault == Some(error),
                }
            }),
    {
        let mut i: usize = 0;
        while i < self.prefab_collisions.len()
            invariant
                i <= self.prefab_collisions@.len(),
                first_fault(i as int, self.prefab_faults()) is None,
            decreases self.prefab_collisions@.len() - i,
        {
            if let Err(error) = self.prefab_collisions[i].validate() {
                proof {
                    lemma_first_fault_stays(
                        i + 1,
                        self.prefab_collisions@.len() as int,
                        self.prefab_faults(),
                    );
                }
                return Err(error);
            }
            i = i + 1;
        }
        let mut i: usize = 0;
        while i < self.prefab_collisions.len()
            invariant
                i <= self.prefab_collisions@.len(),
                first_fault(
                    self.prefab_collisions@.len() as int,
                    self.prefab_faults(),
                ) is None,
                first_fault(i as int, self.prefab_name_faults()) is None,
            decreases self.prefab_collisions@.len() - i,
        {
            if self.has_prefab(i, self.prefab_collisions[i].name.as_str()) {
                proof {
                    lemma_first_fault_stays(
                        i + 1,
                        self.prefab_collisions@.len() as int,
                        self.prefab_name_faults(),
                    );
                }
                return Err(
                    SceneError::DuplicatePrefab { name: self.prefab_collisions[i].name.clone() },
                );
            }
            i = i + 1;
        }
        Ok(())
    }

    /// Whether one of the first `n` prefabs has a name.
    fn has_prefab(&self, n: usize, name: &str) -> (r: bool)
        requires
            n <= self.prefab_collisions@.len(),
        ensures
            r == names_prefab(self.prefab_collisions@, n as int, name@),
    {
        let mut i: usize = 0;
        while i < n
            invariant
                i <= n <= self.prefab_collisions@.len(),
                forall|j: int|
                    0 <= j < i ==> #[trigger] self.prefab_collisions@[j].name@ != name@,
            decreases n - i,
        {
            if same_text(self.prefab_collisions[i].name.as_str(), name) {
                return true;
            }
            i = i + 1;
        }
        false
    }

    /// Whether one of the first `n` entities has an identifier.
    fn has_entity(&self, n: usize, id: &str) -> (r: bool)
        requires
            n <= self.entities@.len(),
        ensures
            r == names_entity(self.entities@, n as int, id@),
    {
        let mut i: usize = 0;
        while i < n
            invariant
                i <= n <= self.entities@.len(),
                forall|j: int| 0 <= j < i ==> #[trigger] self.entities@[j].id@ != id@,
            decreases n - i,
        {
            if same_text(self.entities[i].id.as_str(), id) {
                return true;
            }
            i = i + 1;
        }
        false
    }

    fn validate_entities(&self) -> (r: Result<(), SceneError>)
        ensures
            ({
                let fault: Option<SceneError> = first_fault(
                    self.entities@.len() as int,
                    self.entity_faults(),
                );
                match r {
                    Ok(()) => fault is None,
                    Err(error) => fault == Some(error),
                }
            }),
    {
        let mut i: usize = 0;
        while i < self.entities.len()
            invariant
                i <= self.entities@.len(),
                first_fault(i as int, self.entity_faults()) is None,
            decreases self.entities@.len() - i,
        {
            if self.has_entity(i, self.entities[i].id.as_str()) {
                proof {
                    lemma_first_fault_stays(
                        i + 1,
                        self.entities@.len() as int,
                        self.entity_faults(),
                    );
                }
                return Err(SceneError::DuplicateEntity { id: self.entities[i].id.clone() });
            }
            if let Err(error) = self.entities[i].validate() {
                proof {
                    lemma_first_fault_stays(
                        i + 1,
                        self.entities@.len() as int,
                        self.entity_faults(),
                    );
                }
                return Err(error);
            }
            i = i + 1;
        }
        Ok(())
    }

    fn validate_placements(&self) -> (r: Result<(), SceneError>)
        ensures
            ({
                let fault: Option<SceneError> = first_fault(
                    self.placements@.len() as int,
                    self.placement_faults(),
                );
                match r {
                    Ok(()) => fault is None,
                    Err(error) => fault == Some(error),
                }
            }),
    {
        let mut i: usize = 0;
        while i < self.placements.len()
            invariant
                i <= self.placements@.len(),
                first_fault(i as int, self.placement_faults()) is None,
            decreases self.placements@.len() - i,
        {
            if !self.has_prefab(self.prefab_collisions.len(), self.placements[i].prefab.as_str()) {
                proof {
                    lemma_first_fault_stays(
                        i + 1,
                        self.placements@.len() as int,
                        self.placement_faults(),
                    );
                }
                return Err(SceneError::MissingPrefab { prefab: self.placements[i].prefab.clone() });
            }
            i = i + 1;
        }
        Ok(())
    }
}

/// Whether a grid keeps the contract: it has cells, one byte per cell in either
/// array, and a shape for every blocked cell.
pub open spec fn grid_contract(grid: NavGrid) -> bool {
    &&& grid.width > 0
    &&& grid.height > 0
    &&& !grid.cell_size.le(Real::of(ZERO))
    &&& grid.blocked@.len() == grid.cells()
    &&& grid.shape_ids@.len() == grid.cells()
    &&& forall|i: int|
        0 <= i < grid.cells() && grid.blocked@[i] != 0 ==> grid.shapes@.dom().contains(
            #[trigger] grid.shape_ids@[i],
        )
}

/// Whether a prefab keeps the contract: its mask has its size and blocks at
/// least one cell.
pub open spec fn prefab_contract(prefab: PrefabView) -> bool {
    &&& prefab.width > 0
    &&& prefab.height > 0
    &&& !prefab.cell_size.le(Real::of(ZERO))
    &&& prefab.blocked.len() == prefab.width * prefab.height
    &&& exists|i: int| 0 <= i < prefab.blocked.len() && #[trigger] prefab.blocked[i] != 0
}

/// Whether an entity keeps the contract: its position is finite, its collider's
/// sizes are finite and positive, its ranges finite and not negative.
pub open spec fn entity_contract(entity: EntityView) -> bool {
    &&& entity.position.x.finite()
    &&& entity.position.z.finite()
    &&& match entity.collider {
        Some(Collider::Circle { radius }) => extent_valid(radius),
        Some(Collider::Box { half_extents }) => extent_valid(half_extents.x) && extent_valid(
            half_extents.z,
        ),
        None => true,
    }
    &&& forall|i: int|
        0 <= i < entity.ranges.len() ==> (#[trigger] entity.ranges[i]).radius.finite()
            && !entity.ranges[i].radius.lt(Real::of(ZERO))
}

/// Whether one of the prefabs has a name.
pub open spec fn prefab_stored(prefabs: Seq<PrefabView>, name: Seq<char>) -> bool {
    exists|i: int| 0 <= i < prefabs.len() && (#[trigger] prefabs[i]).name == name
}

/// The scene contract.
pub open spec fn scene_contract(scene: SceneView) -> bool {
    &&& scene.metadata.schema_version == SCHEMA_VERSION
    &&& grid_contract(scene.grid)
    &&& forall|i: int|
        0 <= i < scene.prefab_collisions.len() ==> prefab_contract(
            #[trigger] scene.prefab_collisions[i],
        )
    &&& forall|i: int, j: int|
        0 <= i < j < scene.prefab_collisions.len() ==> (#[trigger] scene.prefab_collisions[i]).name
            != (#[trigger] scene.prefab_collisions[j]).name
    &&& forall|i: int|
        0 <= i < scene.entities.len() ==> entity_contract(#[trigger] scene.entities[i])
    &&& forall|i: int, j: int|
        0 <= i < j < scene.entities.len() ==> (#[trigger] scene.entities[i]).id != (
        #[trigger] scene.entities[j]).id
    &&& forall|i: int|
        0 <= i < scene.placements.len() ==> prefab_stored(
            scene.prefab_collisions,
            (#[trigger] scene.placements[i]).prefab,
        )
}

proof fn lemma_all_sound(n: int, faults: spec_fn(int) -> Option<SceneError>)
    requires
        forall|i: int| 0 <= i < n ==> (#[trigger] faults(i)) is None,
    ensures
        first_fault(n, faults) is None,
    decreases n,
{
    if n > 0 {
        lemma_all_sound(n - 1, faults);
    }
}

proof fn lemma_grid_contract(grid: &NavGrid)
    ensures
        grid.fault() is None <==> grid_contract(*grid),
{
    if grid.fault() is None {
        assert forall|i: int| 0 <= i < grid.cells() && grid.blocked@[i] != 0 implies
            grid.shapes@.dom().contains(#[trigger] grid.shape_ids@[i]) by {
            lemma_no_fault(grid.cells(), grid.shape_faults(), i);
        }
    }
    if grid_contract(*grid) {
        let faults: spec_fn(int) -> Option<SceneError> = grid.shape_faults();
        assert forall|i: int| 0 <= i < grid.cells() implies (#[trigger] faults(i)) is None by {
            assert(grid.blocked@[i] != 0 ==> grid.shapes@.dom().contains(grid.shape_ids@[i]));
        }
        lemma_all_sound(grid.cells(), faults);
    }
}

proof fn lemma_entity_contract(entity: &Entity)
    ensures
        entity.fault() is None <==> entity_contract(entity@),
{
    assert(entity@.ranges.len() == entity.ranges@.len());
    assert forall|i: int| 0 <= i < entity.ranges@.len() implies (
    #[trigger] entity.ranges@[i]).radius == entity@.ranges[i].radius by {}
    if entity_contract(entity@) {
        assert forall|i: int| 0 <= i < entity.ranges@.len() implies
            #[trigger] entity.ranges@[i].valid() by {
            assert(entity@.ranges[i].radius.finite());
        }
    }
    if entity.fault() is None {
        assert forall|i: int| 0 <= i < entity@.ranges.len() implies (
        #[trigger] entity@.ranges[i]).radius.finite() && !entity@.ranges[i].radius.lt(
            Real::of(ZERO),
        ) by {
            assert(entity.ranges@[i].valid());
        }
    }
}

/// Validation accepts a scene if and only if it keeps the scene contract.
pub proof fn lemma_valid_scene(scene: &Scene)
    ensures
        scene.fault() is None <==> scene_contract(scene@),
{
    let view: SceneView = scene@;
    let prefabs: int = scene.prefab_collisions@.len() as int;
    let entities: int = scene.entities@.len() as int;
    let placements: int = scene.placements@.len() as int;
    lemma_grid_contract(&scene.grid);
    assert forall|i: int| 0 <= i < prefabs implies ((#[trigger] scene.prefab_collisions@[i]).fault() is None
        <==> prefab_contract(view.prefab_collisions[i])) by {
        let prefab: PrefabCollision = scene.prefab_collisions@[i];
        if prefab_contract(prefab@) {
            let k: int = choose|k: int|
                0 <= k < prefab@.blocked.len() && #[trigger] prefab@.blocked[k] != 0;
            assert(prefab.blocked@[k] != 0);
        }
        if prefab.fault() is None {
            let k: int = choose|k: int|
                0 <= k < prefab.blocked@.len() && #[trigger] prefab.blocked@[k] != 0;
            assert(prefab@.blocked[k] != 0);
        }
    }
    if scene.fault() is None {
        lemma_contract_kept(scene);
    }
    if scene_contract(view) {
        let faults: spec_fn(int) -> Option<SceneError> = scene.prefab_faults();
        assert forall|i: int| 0 <= i < prefabs implies (#[trigger] faults(i)) is None by {
            assert(prefab_contract(view.prefab_collisions[i]));
            assert(scene.prefab_collisions@[i].fault() is None);
        }
        lemma_all_sound(prefabs, faults);
        let faults: spec_fn(int) -> Option<SceneError> = scene.prefab_name_faults();
        assert forall|i: int| 0 <= i < prefabs implies (#[trigger] faults(i)) is None by {
            let name: Seq<char> = scene.prefab_collisions@[i].name@;
            if names_prefab(scene.prefab_collisions@, i, name) {
                let j: int = choose|j: int|
                    0 <= j < i && #[trigger] scene.prefab_collisions@[j].name@ == name;
                assert(view.prefab_collisions[j].name == view.prefab_collisions[i].name);
            }
        }
        lemma_all_sound(prefabs, faults);
        let faults: spec_fn(int) -> Option<SceneError> = scene.entity_faults();
        assert forall|i: int| 0 <= i < entities implies (#[trigger] faults(i)) is None by {
            let id: Seq<char> = scene.entities@[i].id@;
            if names_entity(scene.entities@, i, id) {
                let j: int = choose|j: int|
                    0 <= j < i && #[trigger] scene.entities@[j].id@ == id;
                assert(view.entities[j].id == view.entities[i].id);
            }
            assert(entity_contract(view.entities[i]));
            lemma_entity_contract(&scene.entities@[i]);
        }
        lemma_all_sound(entities, faults);
        let faults: spec_fn(int) -> Option<SceneError> = scene.placement_faults();
        assert forall|i: int| 0 <= i < placements implies (#[trigger] faults(i)) is None by {
            let name: Seq<char> = scene.placements@[i].prefab@;
            assert(prefab_stored(view.prefab_collisions, view.placements[i].prefab));
            let j: int = choose|j: int|
                0 <= j < view.prefab_collisions.len() && (
                #[trigger] view.prefab_collisions[j]).name == name;
            assert(scene.prefab_collisions@[j].name@ == name);
        }
        lemma_all_sound(placements, faults);
    }
}

proof fn lemma_contract_kept(scene: &Scene)
    requires
        scene.fault() is None,
    ensures
        scene_contract(scene@),
{
    let view: SceneView = scene@;
    let prefabs: int = scene.prefab_collisions@.len() as int;
    let entities: int = scene.entities@.len() as int;
    lemma_grid_contract(&scene.grid);
    assert forall|i: int| 0 <= i < prefabs implies prefab_contract(
        #[trigger] view.prefab_collisions[i],
    ) by {
        lemma_no_fault(prefabs, scene.prefab_faults(), i);
        let prefab: PrefabCollision = scene.prefab_collisions@[i];
        let k: int = choose|k: int|
            0 <= k < prefab.blocked@.len() && #[trigger] prefab.blocked@[k] != 0;
        assert(prefab@.blocked[k] != 0);
    }
    assert forall|i: int, j: int| 0 <= i < j < prefabs implies (
    #[trigger] view.prefab_collisions[i]).name != (#[trigger] view.prefab_collisions[j]).name by {
        lemma_no_fault(prefabs, scene.prefab_name_faults(), j);
        assert(scene.prefab_collisions@[i].name@ == view.prefab_collisions[i].name);
    }
    assert forall|i: int| 0 <= i < entities implies entity_contract(
        #[trigger] view.entities[i],
    ) by {
        lemma_no_fault(entities, scene.entity_faults(), i);
        lemma_entity_contract(&scene.entities@[i]);
    }
    assert forall|i: int, j: int| 0 <= i < j < entities implies (#[trigger] view.entities[i]).id
        != (#[trigger] view.entities[j]).id by {
        lemma_no_fault(entities, scene.entity_faults(), j);
        assert(scene.entities@[i].id@ == view.entities[i].id);
    }
    assert forall|i: int| 0 <= i < scene.placements@.len() implies prefab_stored(
        view.prefab_collisions,
        (#[trigger] view.placements[i]).prefab,
    ) by {
        lemma_no_fault(scene.placements@.len() as int, scene.placement_faults(), i);
        let name: Seq<char> = scene.placements@[i].prefab@;
        let j: int = choose|j: int|
            0 <= j < prefabs && #[trigger] scene.prefab_collisions@[j].name@ == name;
        assert(view.prefab_collisions[j].name == name);
    }
}

/// The contract does not depend on the order of entities and prefabs: a scene
/// keeps it however they are listed.
pub proof fn lemma_contract_ignores_order(
    scene: SceneView,
    entities: Seq<EntityView>,
    prefabs: Seq<PrefabView>,
)
    requires
        scene_contract(scene),
        entities.to_multiset() == scene.entities.to_multiset(),
        prefabs.to_multiset() == scene.prefab_collisions.to_multiset(),
    ensures
        scene_contract((SceneView { entities, prefab_collisions: prefabs, ..scene })),
{
    assert forall|i: int, j: int| 0 <= i < scene.entities.len() && 0 <= j < scene.entities.len()
        && i != j implies scene.entities[i] != scene.entities[j] by {
        if i < j {
            assert(scene.entities[i].id != scene.entities[j].id);
        } else {
            assert(scene.entities[j].id != scene.entities[i].id);
        }
    }
    lemma_reordered(scene.entities, entities);
    assert forall|i: int| 0 <= i < entities.len() implies entity_contract(
        #[trigger] entities[i],
    ) by {
        assert(scene.entities.contains(entities[i]));
    }
    assert forall|i: int, j: int| 0 <= i < j < entities.len() implies (
    #[trigger] entities[i]).id != (#[trigger] entities[j]).id by {
        assert(scene.entities.contains(entities[i]));
        assert(scene.entities.contains(entities[j]));
        let a: int = choose|a: int|
            0 <= a < scene.entities.len() && scene.entities[a] == entities[i];
        let b: int = choose|b: int|
            0 <= b < scene.entities.len() && scene.entities[b] == entities[j];
        if a < b {
            assert(scene.entities[a].id != scene.entities[b].id);
        } else if b < a {
            assert(scene.entities[b].id != scene.entities[a].id);
        }
    }
    let stored: Seq<PrefabView> = scene.prefab_collisions;
    assert forall|i: int, j: int| 0 <= i < stored.len() && 0 <= j < stored.len() && i
        != j implies stored[i] != stored[j] by {
        if i < j {
            assert(stored[i].name != stored[j].name);
        } else {
            assert(stored[j].name != stored[i].name);
        }
    }
    lemma_reordered(stored, prefabs);
    assert forall|i: int| 0 <= i < prefabs.len() implies prefab_contract(#[trigger] prefabs[i]) by {
        assert(stored.contains(prefabs[i]));
    }
    assert forall|i: int, j: int| 0 <= i < j < prefabs.len() implies (#[trigger] prefabs[i]).name
        != (#[trigger] prefabs[j]).name by {
        assert(stored.contains(prefabs[i]));
        assert(stored.contains(prefabs[j]));
        let a: int = choose|a: int| 0 <= a < stored.len() && stored[a] == prefabs[i];
        let b: int = choose|b: int| 0 <= b < stored.len() && stored[b] == prefabs[j];
        if a < b {
            assert(stored[a].name != stored[b].name);
        } else if b < a {
            assert(stored[b].name != stored[a].name);
        }
    }
    assert forall|i: int| 0 <= i < scene.placements.len() implies prefab_stored(
        prefabs,
        (#[trigger] scene.placements[i]).prefab,
    ) by {
        let name: Seq<char> = scene.placements[i].prefab;
        assert(prefab_stored(stored, name));
        let a: int = choose|a: int| 0 <= a < stored.len() && (#[trigger] stored[a]).name == name;
        assert(stored.contains(stored[a]));
        assert(prefabs.contains(stored[a]));
        let b: int = choose|b: int| 0 <= b < prefabs.len() && prefabs[b] == stored[a];
        assert(prefabs[b].name == name);
    }
}

/// A reordered list without repetition holds the same things, without
/// repetition.
proof fn lemma_reordered<T>(list: Seq<T>, other: Seq<T>)
    requires
        list.no_duplicates(),
        other.to_multiset() == list.to_multiset(),
    ensures
        other.no_duplicates(),
        forall|x: T| #[trigger] list.contains(x) <==> other.contains(x),
{
    broadcast use vstd::seq_lib::group_to_multiset_ensures;

    list.lemma_multiset_has_no_duplicates();
    other.lemma_multiset_has_no_duplicates_conv();
    assert forall|x: T| #[trigger] list.contains(x) <==> other.contains(x) by {
        assert(list.contains(x) <==> list.to_multiset().count(x) > 0);
        assert(other.contains(x) <==> other.to_multiset().count(x) > 0);
    }
}

} // verus!
