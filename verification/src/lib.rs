//! A game-neutral two-dimensional navigation workbench.
//!
//! A [`Scene`] holds an occupancy grid, entities with colliders and range
//! rings, and prefab collisions with their placements; [`SceneStore`] turns it
//! into database rows and back. [`find_path`] routes over the grid of a scene,
//! [`Navigator`] plans hierarchically and steers an agent around threats,
//! [`WanderSimulation`] lets actors wander, and [`Workbench`] puts these
//! together for a viewer.
//!
//! All arithmetic is on [`Real`], a binary64 number given by its encoding whose
//! operations are proved to round correctly.
pub mod attributes;
pub mod awareness;
pub mod berth;
pub mod camera;
pub mod census;
pub mod cheapest;
pub mod coarse;
pub mod conduct;
pub mod config;
pub mod conversion;
pub mod corridor;
pub mod course;
pub mod crossing;
pub mod dilation;
pub mod fare;
pub mod fleeing;
pub mod frugal;
pub mod gate;
pub mod geometry;
pub mod homing;
pub mod json;
pub mod least;
pub mod lattice;
pub mod legs;
pub mod listing;
pub mod looming;
pub mod margins;
pub mod navigator;
pub mod nearness;
pub mod number;
pub mod ordering;
pub mod outlook;
pub mod pace;
pub mod passage;
pub mod pathfinding;
pub mod population;
pub mod pursuit;
pub mod queue;
pub mod random;
pub mod raycast;
pub mod refine;
pub mod reopen;
pub mod ring;
pub mod roaming;
pub mod roots;
pub mod roster;
pub mod rounding;
pub mod scene;
pub mod scratch;
pub mod search;
pub mod settle;
pub mod shortest;
pub mod single;
pub mod snap;
pub mod stamped;
pub mod steering;
pub mod store;
pub mod text;
pub mod thorough;
pub mod thrifty;
pub mod turning;
pub mod unit;
pub mod vista;
pub mod waiting;
pub mod walk;
pub mod walkable;
pub mod wander;
pub mod window;
pub mod workbench;

pub use attributes::Attributes;
pub use awareness::{collect_threats, count_category, move_agent};
pub use camera::{
    blocked_runs, first_line, is_drawn, line_count, line_step, run_corners, visible_cells, Camera,
    CellRange, Run, Spot, MOST_LINES,
};
pub use coarse::CoarseView;
pub use config::{NavConfig, NavShared, Threat, DEFAULT_SENSE_RADIUS};
pub use geometry::Point;
pub use navigator::{NavStatus, Navigator};
pub use number::Real;
pub use pathfinding::{find_path, PathOptions};
pub use population::{synthetically_populate_actors, PopulationReport, SENSING_RADIUS};
pub use random::{next_index, next_u64, next_unit, seed_from_id, shuffle};
pub use scene::{
    CellPrimitive, Collider, Entity, NavGrid, PrefabCollision, PrefabPlacement, RangeRing, Scene,
    SceneError, SceneMetadata, SCHEMA_VERSION,
};
pub use store::{
    EntityRow, MetadataRow, PlacementRow, PrefabRow, SceneRows, SceneStore, StoreError,
};
pub use walk::WalkView;
pub use walkable::position_is_walkable;
pub use wander::{WanderSimulation, Wanderer};
pub use window::Window;
pub use workbench::{middle_of, RouteStatus, Workbench};
