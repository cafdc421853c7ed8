//! The workbench: one scene, its wandering actors, and the agent that is sent
//! through it.
use vstd::prelude::*;
use vstd::string::StringExecFns;

use crate::awareness::{agent_moved, collect_threats, move_agent, threats_of};
use crate::config::{NavConfig, NavShared};
use crate::geometry::{Point, HALF, ZERO};
use crate::navigator::{at_rest, cleared, ticked, unplanned, NavState, NavStatus, Navigator};
use crate::number::Real;
use crate::pathfinding::{covered, find_path, found_path, PathOptions};
use crate::population::{
    agent_from, agent_position, populated, settles, synthetically_populate_actors,
    PopulationReport, SENSING_RADIUS,
};
use crate::roster::{listed, views};
use crate::scene::{grid_contract, EntityView, NavGrid, Scene};
use crate::text::{append_decimal, decimal};
use crate::walk::WalkView;
use crate::wander::{newcomers, WanderSimulation, DEFAULT_RADIUS, DEFAULT_SPEED};

verus! {

/// Longest time that one step simulates: `0.1`.
pub const LONGEST_TICK: u64 = 0x3fb9_9999_9999_999a;

/// What is known of the route.
#[derive(Clone, Copy, PartialEq, Eq, Structural, Debug)]
pub enum RouteStatus {
    /// Nothing has been asked for.
    Prompt,
    /// A start or a goal is missing.
    Incomplete,
    NoRoute,
    Route { cells: usize },
    Steering { status: NavStatus },
}

impl RouteStatus {
    /// The status in words.
    pub open spec fn words(&self) -> Seq<char> {
        match self {
            RouteStatus::Prompt => "left click: start · right click: goal"@,
            RouteStatus::Incomplete => "select both a start and a goal"@,
            RouteStatus::NoRoute => "no route"@,
            RouteStatus::Route { cells } => "route: "@ + decimal(*cells as nat) + " cells"@,
            RouteStatus::Steering { status } => match status {
                NavStatus::Moving => "hta*: moving"@,
                NavStatus::Arrived => "hta*: arrived"@,
                NavStatus::Blocked => "hta*: blocked (no route outside enemy radii)"@,
                NavStatus::Idle => "hta*: idle"@,
            },
        }
    }

    /// The status in words.
    pub fn text(&self) -> (r: String)
        ensures
            r@ == self.words(),
    {
        match self {
            RouteStatus::Prompt => String::from_str("left click: start · right click: goal"),
            RouteStatus::Incomplete => String::from_str("select both a start and a goal"),
            RouteStatus::NoRoute => String::from_str("no route"),
            RouteStatus::Route { cells } => {
                let mut text: String = String::from_str("route: ");
                append_decimal(&mut text, *cells);
                text.append(" cells");
                text
            },
            RouteStatus::Steering { status } => match status {
                NavStatus::Moving => String::from_str("hta*: moving"),
                NavStatus::Arrived => String::from_str("hta*: arrived"),
                NavStatus::Blocked => String::from_str(
                    "hta*: blocked (no route outside enemy radii)",
                ),
                NavStatus::Idle => String::from_str("hta*: idle"),
            },
        }
    }
}

pub open spec fn spec_middle(grid: &NavGrid) -> Point {
    let (low, high): (Point, Point) = grid.bounds();
    Point {
        x: low.x.add(high.x).mul(Real::of(HALF)),
        z: low.z.add(high.z).mul(Real::of(HALF)),
    }
}

/// The middle of a grid.
#[verifier::when_used_as_spec(spec_middle)]
pub fn middle_of(grid: &NavGrid) -> (r: Point)
    ensures
        r == spec_middle(grid),
{
    let (low, high): (Point, Point) = grid.bounds();
    Point {
        x: low.x.add(high.x).mul(Real::of(HALF)),
        z: low.z.add(high.z).mul(Real::of(HALF)),
    }
}

/// A scene under work.
pub struct Workbench {
    pub scene: Scene,
    pub population: PopulationReport,
    pub wander: WanderSimulation,
    pub shared: NavShared,
    pub navigator: Navigator,
    /// Whether clicks steer the agent instead of asking for a route.
    pub steering: bool,
    pub include_dynamic_colliders: bool,
    pub clearance: Real,
    pub start: Option<Point>,
    pub goal: Option<Point>,
    pub path: Option<Vec<Point>>,
    pub status: RouteStatus,
}

/// The points of an optional route.
pub open spec fn route_points(path: Option<Vec<Point>>) -> Option<Seq<Point>> {
    match path {
        Some(points) => Some(points@),
        None => None,
    }
}

impl Workbench {
    pub open spec fn wf(&self) -> bool {
        &&& covered(&self.scene.grid)
        &&& self.scene.grid.width > 0
        &&& self.scene.grid.height > 0
        &&& self.wander.wf()
        &&& self.shared.wf()
        &&& self.navigator.wf()
    }

    /// The entities of a scene once its unobserved part is populated.
    pub open spec fn inhabited(scene: &Scene) -> Seq<EntityView> {
        let radius: Real = Real::of(SENSING_RADIUS);
        let all: Seq<EntityView> = views(scene.entities@) + populated(scene, radius).0;
        if settles(scene, radius) {
            listed(all, all.len() as int)
        } else {
            views(scene.entities@)
        }
    }

    /// Sets a scene up: populates it and puts a navigator at its agent, or in
    /// the middle of the grid where it has none.
    pub fn new(scene: Scene) -> (r: Workbench)
        requires
            grid_contract(scene.grid),
            covered(&scene.grid),
        ensures
            r.wf(),
            views(r.scene.entities@) == Workbench::inhabited(&scene),
            r.scene.metadata == scene.metadata,
            r.scene.grid == scene.grid,
            r.scene.prefab_collisions == scene.prefab_collisions,
            r.scene.placements == scene.placements,
            r.population == populated(&scene, Real::of(SENSING_RADIUS)).1,
            r.wander.enabled,
            r.wander.radius == Real::of(DEFAULT_RADIUS),
            r.wander.speed == Real::of(DEFAULT_SPEED),
            r.wander.wanderers@ == newcomers(r.scene.entities@, r.scene.entities@.len() as int),
            r.shared.config == NavConfig::usual(),
            exists|base: WalkView| base.shows(&scene.grid) && #[trigger] r.shared.derived_from(&base),
            r.start == agent_from(Workbench::inhabited(&scene), 0),
            r.navigator@ == at_rest(
                match r.start {
                    Some(agent) => agent,
                    None => middle_of(&scene.grid),
                },
            ),
            r.steering,
            r.include_dynamic_colliders,
            r.clearance == Real::of(ZERO),
            r.goal is None,
            r.path is None,
            r.status == RouteStatus::Prompt,
    {
        let mut scene: Scene = scene;
        let population: PopulationReport = synthetically_populate_actors(
            &mut scene,
            Real::of(SENSING_RADIUS),
        );
        let wander: WanderSimulation = WanderSimulation::from_scene(&scene);
        let agent: Option<Point> = agent_position(&scene.entities);
        let shared: NavShared = NavShared::from_grid(&scene.grid, NavConfig::default());
        let home: Point = match agent {
            Some(agent) => agent,
            None => middle_of(&scene.grid),
        };
        Workbench {
            scene,
            population,
            wander,
            shared,
            navigator: Navigator::new(home),
            steering: true,
            include_dynamic_colliders: true,
            clearance: Real::of(ZERO),
            start: agent,
            goal: None,
            path: None,
            status: RouteStatus::Prompt,
        }
    }

    /// Steers the agent for some time, around the threats that the actors pose.
    pub fn tick_navigator(&mut self, dt: Real)
        requires
            old(self).wf(),
        ensures
            final(self).wf(),
            !old(self).steering || old(self).navigator@.status != NavStatus::Moving
                ==> *final(self) == *old(self),
            old(self).steering && old(self).navigator@.status == NavStatus::Moving ==> {
                &&& final(self).navigator@ == ticked(
                    old(self).navigator@,
                    &old(self).shared,
                    &old(self).shared.fine,
                    threats_of(old(self).scene.entities@, old(self).scene.entities@.len() as int),
                    dt.min(Real::of(LONGEST_TICK)),
                )
                &&& final(self).scene.entities@ == agent_moved(
                    old(self).scene.entities@,
                    final(self).navigator@.position,
                )
                &&& final(self).scene.metadata == old(self).scene.metadata
                &&& final(self).scene.grid == old(self).scene.grid
                &&& final(self).scene.prefab_collisions == old(self).scene.prefab_collisions
                &&& final(self).scene.placements == old(self).scene.placements
                &&& final(self).status == (RouteStatus::Steering {
                    status: final(self).navigator@.status,
                })
                &&& final(self).same_settings(old(self))
                &&& final(self).same_route(old(self))
                &&& final(self).wander == old(self).wander
            },
    {
        if !self.steering || self.navigator.status() != NavStatus::Moving {
            return;
        }
        let step: Real = dt.min(Real::of(LONGEST_TICK));
        let threats: Vec<crate::config::Threat> = collect_threats(&self.scene.entities);
        let status: NavStatus = self.navigator.tick(
            &self.shared,
            &self.shared.fine,
            threats.as_slice(),
            step,
        );
        let position: Point = self.navigator.position();
        move_agent(&mut self.scene.entities, position);
        self.status = RouteStatus::Steering { status };
    }

    /// Whether two workbenches have the same settings.
    pub open spec fn same_settings(&self, other: &Workbench) -> bool {
        &&& self.population == other.population
        &&& self.shared == other.shared
        &&& self.steering == other.steering
        &&& self.include_dynamic_colliders == other.include_dynamic_colliders
        &&& self.clearance == other.clearance
    }

    /// Whether two workbenches have the same route.
    pub open spec fn same_route(&self, other: &Workbench) -> bool {
        &&& self.start == other.start
        &&& self.goal == other.goal
        &&& self.path == other.path
    }

    /// The route between two points as things stand.
    pub open spec fn route_between(&self, start: Point, goal: Point) -> Option<Seq<Point>> {
        found_path(
            &self.scene,
            start,
            goal,
            PathOptions {
                include_dynamic_colliders: self.include_dynamic_colliders,
                clearance: self.clearance,
            },
        )
    }

    /// Asks for the route from the start to the goal.
    pub fn calculate_path(&mut self)
        requires
            old(self).wf(),
        ensures
            final(self).wf(),
            final(self).same_settings(old(self)),
            final(self).scene == old(self).scene,
            final(self).wander == old(self).wander,
            final(self).navigator == old(self).navigator,
            final(self).start == old(self).start,
            final(self).goal == old(self).goal,
            match (old(self).start, old(self).goal) {
                (Some(start), Some(goal)) => {
                    &&& route_points(final(self).path) == old(self).route_between(start, goal)
                    &&& final(self).status == (match old(self).route_between(start, goal) {
                        Some(route) => RouteStatus::Route { cells: route.len() as usize },
                        None => RouteStatus::NoRoute,
                    })
                },
                _ => final(self).path is None && final(self).status == RouteStatus::Incomplete,
            },
    {
        match (self.start, self.goal) {
            (Some(start), Some(goal)) => {
                let options: PathOptions = PathOptions {
                    include_dynamic_colliders: self.include_dynamic_colliders,
                    clearance: self.clearance,
                };
                self.path = find_path(&self.scene, start, goal, options);
                self.status = match &self.path {
                    Some(route) => RouteStatus::Route { cells: route.len() },
                    None => RouteStatus::NoRoute,
                };
            },
            _ => {
                self.path = None;
                self.status = RouteStatus::Incomplete;
            },
        }
    }

    /// A primary click: puts the agent there or, without steering, makes it the
    /// start of the route.
    pub fn primary_click(&mut self, world: Point)
        requires
            old(self).wf(),
        ensures
            final(self).wf(),
            final(self).same_settings(old(self)),
            final(self).wander == old(self).wander,
            final(self).goal == old(self).goal,
            final(self).scene.grid == old(self).scene.grid,
            final(self).scene.metadata == old(self).scene.metadata,
            final(self).scene.prefab_collisions == old(self).scene.prefab_collisions,
            final(self).scene.placements == old(self).scene.placements,
            old(self).steering ==> {
                &&& final(self).navigator@ == (NavState {
                    position: world,
                    status: if old(self).navigator@.goal is Some {
                        NavStatus::Moving
                    } else {
                        old(self).navigator@.status
                    },
                    ..cleared(old(self).navigator@)
                })
                &&& final(self).scene.entities@ == agent_moved(old(self).scene.entities@, world)
                &&& final(self).same_route(old(self))
                &&& final(self).status == old(self).status
            },
            !old(self).steering ==> {
                &&& final(self).start == Some(world)
                &&& final(self).scene == old(self).scene
                &&& final(self).navigator == old(self).navigator
                &&& match old(self).goal {
                    Some(goal) => {
                        &&& route_points(final(self).path) == old(self).route_between(world, goal)
                        &&& final(self).status == (match old(self).route_between(world, goal) {
                            Some(route) => RouteStatus::Route { cells: route.len() as usize },
                            None => RouteStatus::NoRoute,
                        })
                    },
                    None => final(self).path is None && final(self).status
                        == RouteStatus::Incomplete,
                }
            },
    {
        if self.steering {
            self.navigator.set_position(world);
            move_agent(&mut self.scene.entities, world);
        } else {
            self.start = Some(world);
            self.calculate_path();
        }
    }

    /// A secondary click: sends the agent there or, without steering, makes it
    /// the goal of the route.
    pub fn secondary_click(&mut self, world: Point)
        requires
            old(self).wf(),
        ensures
            final(self).wf(),
            final(self).same_settings(old(self)),
            final(self).wander == old(self).wander,
            final(self).start == old(self).start,
            final(self).scene == old(self).scene,
            old(self).steering ==> {
                &&& final(self).navigator@ == (NavState {
                    goal: Some(world),
                    snapped: world,
                    status: NavStatus::Moving,
                    ..cleared(old(self).navigator@)
                })
                &&& final(self).same_route(old(self))
                &&& final(self).status == (RouteStatus::Steering { status: NavStatus::Moving })
            },
            !old(self).steering ==> {
                &&& final(self).goal == Some(world)
                &&& final(self).navigator == old(self).navigator
                &&& match old(self).start {
                    Some(start) => {
                        &&& route_points(final(self).path) == old(self).route_between(start, world)
                        &&& final(self).status == (match old(self).route_between(start, world) {
                            Some(route) => RouteStatus::Route { cells: route.len() as usize },
                            None => RouteStatus::NoRoute,
                        })
                    },
                    None => final(self).path is None && final(self).status
                        == RouteStatus::Incomplete,
                }
            },
    {
        if self.steering {
            self.navigator.set_goal(world);
            self.status = RouteStatus::Steering { status: NavStatus::Moving };
        } else {
            self.goal = Some(world);
            self.calculate_path();
        }
    }

    /// Cancels the agent's orders.
    pub fn stop_agent(&mut self)
        requires
            old(self).wf(),
        ensures
            final(self).wf(),
            final(self).same_settings(old(self)),
            final(self).same_route(old(self)),
            final(self).scene == old(self).scene,
            final(self).wander == old(self).wander,
            final(self).navigator@ == (NavState {
                goal: None,
                status: NavStatus::Idle,
                ..unplanned(old(self).navigator@)
            }),
            final(self).status == (RouteStatus::Steering { status: NavStatus::Idle }),
    {
        self.navigator.stop();
        self.status = RouteStatus::Steering { status: NavStatus::Idle };
    }

    /// Asks for the route from where the agent stands.
    pub fn start_at_agent(&mut self)
        requires
            old(self).wf(),
        ensures
            final(self).wf(),
            final(self).same_settings(old(self)),
            final(self).scene == old(self).scene,
            final(self).wander == old(self).wander,
            final(self).navigator == old(self).navigator,
            final(self).goal == old(self).goal,
            final(self).start == agent_from(views(old(self).scene.entities@), 0),
            match (final(self).start, old(self).goal) {
                (Some(start), Some(goal)) => {
                    &&& route_points(final(self).path) == old(self).route_between(start, goal)
                    &&& final(self).status == (match old(self).route_between(start, goal) {
                        Some(route) => RouteStatus::Route { cells: route.len() as usize },
                        None => RouteStatus::NoRoute,
                    })
                },
                _ => final(self).path is None && final(self).status == RouteStatus::Incomplete,
            },
    {
        self.start = agent_position(&self.scene.entities);
        self.calculate_path();
    }

    /// Forgets the route and its goal.
    pub fn clear_route(&mut self)
        requires
            old(self).wf(),
        ensures
            final(self).wf(),
            final(self).same_settings(old(self)),
            final(self).scene == old(self).scene,
            final(self).wander == old(self).wander,
            final(self).navigator == old(self).navigator,
            final(self).start == old(self).start,
            final(self).goal is None,
            final(self).path is None,
            final(self).status == RouteStatus::Prompt,
    {
        self.goal = None;
        self.path = None;
        self.status = RouteStatus::Prompt;
    }
}

} // verus!
