//! Actors that wander around the places where they were captured.
use vstd::prelude::*;
use vstd::utf8::encode_utf8;

use crate::geometry::{distance_sq, Point, EPSILON, ONE, ZERO};
use crate::number::Real;
use crate::ordering::{lemma_mul_monotone, lemma_mul_one, lemma_nan_spreads};
use crate::pathfinding::covered;
use crate::random::{next_unit, seed_from_id, seed_of, unit_of, xorshift};
use crate::roots::{lemma_hypot_commutes, lemma_share_of_hypot};
use crate::scene::{has_category, Entity, NavGrid, Scene};
use crate::unit::{
    lemma_ahead_is_short, lemma_direction_is_short, lemma_fourth, lemma_rest_is_short,
    lemma_side_of_short, lemma_sum_below_two, no_longer_than_one,
};
use crate::walkable::{position_is_walkable, walkable};

verus! {

/// `7`
pub const DEFAULT_RADIUS: u64 = 0x401c_0000_0000_0000;

/// `1.5`
pub const DEFAULT_SPEED: u64 = 0x3ff8_0000_0000_0000;

/// `0.8`
pub const MIN_TURN_SECONDS: u64 = 0x3fe9_9999_9999_999a;

/// `2.4`
pub const TURN_SECONDS_SPREAD: u64 = 0x4003_3333_3333_3333;

/// Longest time that one step simulates: `0.1`.
pub const LONGEST_STEP: u64 = 0x3fb9_9999_9999_999a;

/// A full turn, in radians.
pub const TAU: u64 = 0x4019_21fb_5444_2d18;

/// Share of the home radius beyond which an actor turns towards home: `0.7`.
pub const HOMESICK_SHARE: u64 = 0x3fe6_6666_6666_6666;

/// Weight of the way home in the direction of a homesick actor: `0.75`.
pub const HOME_WEIGHT: u64 = 0x3fe8_0000_0000_0000;

/// Weight of chance in the direction of a homesick actor: `0.25`.
pub const CHANCE_WEIGHT: u64 = 0x3fd0_0000_0000_0000;

/// One wandering actor.
#[derive(Clone, Copy, PartialEq, Eq, Structural, Debug)]
pub struct Wanderer {
    pub entity_index: usize,
    pub spawn: Point,
    pub spawn_heading: Option<Real>,
    pub direction: Point,
    pub turn_in: Real,
    pub random_state: u64,
}

/// The actors of a scene and how they wander.
#[derive(Debug)]
pub struct WanderSimulation {
    pub enabled: bool,
    pub radius: Real,
    pub speed: Real,
    /// The wandering actors, by increasing place in the scene.
    pub wanderers: Vec<Wanderer>,
}

/// An actor that has not set out yet.
pub open spec fn newcomer(entity: Entity, index: int) -> Wanderer {
    Wanderer {
        entity_index: index as usize,
        spawn: entity.position,
        spawn_heading: entity.heading_degrees,
        direction: Point { x: Real::of(ZERO), z: Real::of(ZERO) },
        turn_in: Real::of(ZERO),
        random_state: seed_of(encode_utf8(entity.id@)),
    }
}

/// Whether two states are of one actor: its place in the scene and where it
/// came from do not change.
pub open spec fn same_actor(a: Wanderer, b: Wanderer) -> bool {
    &&& a.entity_index == b.entity_index
    &&& a.spawn == b.spawn
    &&& a.spawn_heading == b.spawn_heading
}

/// The actors among the first `n` entities.
pub open spec fn newcomers(entities: Seq<Entity>, n: int) -> Seq<Wanderer>
    decreases n,
{
    if n <= 0 {
        Seq::empty()
    } else {
        let rest: Seq<Wanderer> = newcomers(entities, n - 1);
        if entities[n - 1].category@ == "actor"@ {
            rest.push(newcomer(entities[n - 1], n - 1))
        } else {
            rest
        }
    }
}

pub open spec fn spec_normalized(v: Point) -> Point {
    let length: Real = v.x.hypot(v.z);
    if Real::of(EPSILON).lt(length) {
        Point { x: v.x.div(length), z: v.z.div(length) }
    } else {
        Point { x: Real::of(ZERO), z: Real::of(ONE) }
    }
}

/// A vector scaled to unit length; straight ahead where it has none.
#[verifier::when_used_as_spec(spec_normalized)]
fn normalize(v: Point) -> (r: Point)
    ensures
        r == spec_normalized(v),
{
    let length: Real = v.x.hypot(v.z);
    if Real::of(EPSILON).lt(length) {
        Point { x: v.x.div(length), z: v.z.div(length) }
    } else {
        Point { x: Real::of(ZERO), z: Real::of(ONE) }
    }
}

pub open spec fn spec_new_direction(spawn: Point, position: Point, radius: Real, chance: Point) -> Point {
    let dx: Real = spawn.x.sub(position.x);
    let dz: Real = spawn.z.sub(position.z);
    let away: Real = dx.hypot(dz);
    if radius.mul(Real::of(HOMESICK_SHARE)).lt(away) {
        let home: Real = Real::of(HOME_WEIGHT);
        let luck: Real = Real::of(CHANCE_WEIGHT);
        spec_normalized(
            Point {
                x: dx.div(away).mul(home).add(chance.x.mul(luck)),
                z: dz.div(away).mul(home).add(chance.z.mul(luck)),
            },
        )
    } else {
        chance
    }
}

/// An actor that stands still.
pub open spec fn halted(w: Wanderer) -> Wanderer {
    Wanderer {
        direction: Point { x: Real::of(ZERO), z: Real::of(ZERO) },
        turn_in: Real::of(ZERO),
        ..w
    }
}

/// An actor's entity, back where it was captured.
pub open spec fn sent_home(w: Wanderer, entity: Entity) -> Entity {
    Entity { position: w.spawn, heading_degrees: w.spawn_heading, ..entity }
}

/// The direction in which an actor goes on: a random one, mostly homewards
/// when it has strayed far.
#[verifier::when_used_as_spec(spec_new_direction)]
pub fn new_direction(spawn: Point, position: Point, radius: Real, chance: Point) -> (r: Point)
    ensures
        r == spec_new_direction(spawn, position, radius, chance),
{
    let dx: Real = spawn.x.sub(position.x);
    let dz: Real = spawn.z.sub(position.z);
    let away: Real = dx.hypot(dz);
    if radius.mul(Real::of(HOMESICK_SHARE)).lt(away) {
        let home: Real = Real::of(HOME_WEIGHT);
        let luck: Real = Real::of(CHANCE_WEIGHT);
        normalize(
            Point {
                x: dx.div(away).mul(home).add(chance.x.mul(luck)),
                z: dz.div(away).mul(home).add(chance.z.mul(luck)),
            },
        )
    } else {
        chance
    }
}

/// The angle that an actor draws next.
pub open spec fn drawn_angle(state: u64) -> Real {
    unit_of(xorshift(state)).mul(Real::of(TAU))
}

/// An actor that has chosen a new direction; `chance` is the sine and cosine of
/// the angle it drew.
pub open spec fn redirected(w: Wanderer, position: Point, radius: Real, chance: Point) -> Wanderer {
    let state: u64 = xorshift(xorshift(w.random_state));
    Wanderer {
        direction: spec_new_direction(w.spawn, position, radius, chance),
        turn_in: Real::of(MIN_TURN_SECONDS).add(
            unit_of(state).mul(Real::of(TURN_SECONDS_SPREAD)),
        ),
        random_state: state,
        ..w
    }
}

/// Where an actor would be after its step.
pub open spec fn spec_strolled(position: Point, direction: Point, length: Real) -> Point {
    Point {
        x: position.x.add(direction.x.mul(length)),
        z: position.z.add(direction.z.mul(length)),
    }
}

#[verifier::when_used_as_spec(spec_strolled)]
fn strolled(position: Point, direction: Point, length: Real) -> (r: Point)
    ensures
        r == spec_strolled(position, direction, length),
{
    Point {
        x: position.x.add(direction.x.mul(length)),
        z: position.z.add(direction.z.mul(length)),
    }
}

/// Whether a step ends within the home radius, or at least nearer to home.
pub open spec fn spec_stays_home(spawn: Point, from: Point, to: Point, radius: Real) -> bool {
    distance_sq(to, spawn).le(radius.mul(radius)) || distance_sq(to, spawn).lt(
        distance_sq(from, spawn),
    )
}

#[verifier::when_used_as_spec(spec_stays_home)]
fn stays_home(spawn: Point, from: Point, to: Point, radius: Real) -> (r: bool)
    ensures
        r == spec_stays_home(spawn, from, to, radius),
{
    distance_sq(to, spawn).le(radius.mul(radius)) || distance_sq(to, spawn).lt(
        distance_sq(from, spawn),
    )
}

/// Whether an actor takes its next step: it does not lead too far from home or
/// into an obstacle.
pub open spec fn takes_step(
    grid: &NavGrid,
    w: Wanderer,
    entity: Entity,
    radius: Real,
    length: Real,
) -> bool {
    let to: Point = spec_strolled(entity.position, w.direction, length);
    spec_stays_home(w.spawn, entity.position, to, radius) && walkable(grid, to, entity.collider)
}

/// One step of an actor whose direction is settled: the actor and its entity
/// afterwards. `bearing` is the heading of its direction. An actor that does
/// not take the step stays in place and turns on the next one.
pub open spec fn stepped(
    grid: &NavGrid,
    w: Wanderer,
    entity: Entity,
    radius: Real,
    length: Real,
    bearing: Real,
) -> (Wanderer, Entity) {
    if takes_step(grid, w, entity, radius, length) {
        (
            w,
            Entity {
                position: spec_strolled(entity.position, w.direction, length),
                heading_degrees: Some(bearing),
                ..entity
            },
        )
    } else {
        (Wanderer { turn_in: Real::of(ZERO), ..w }, entity)
    }
}

/// The actor before its step: its turning time has run on and, where it is
/// over, it has chosen a new direction.
pub open spec fn readied(
    w: Wanderer,
    position: Point,
    radius: Real,
    dt: Real,
    chance: Point,
) -> Wanderer {
    let waiting: Wanderer = Wanderer { turn_in: w.turn_in.sub(dt), ..w };
    if waiting.turn_in.le(Real::of(ZERO)) {
        redirected(waiting, position, radius, chance)
    } else {
        waiting
    }
}

/// Whether an actor and its entity after a step are what the outcomes of the
/// two trigonometric functions make of them.
pub open spec fn wandered<S: Fn(Real) -> Point, B: Fn(Point) -> Real>(
    circle: S,
    bearing: B,
    grid: &NavGrid,
    before: (Wanderer, Entity),
    after: (Wanderer, Entity),
    radius: Real,
    length: Real,
    dt: Real,
) -> bool {
    exists|chance: Point, heading: Real|
        {
            let ready: Wanderer = readied(before.0, before.1.position, radius, dt, chance);
            &&& before.0.turn_in.sub(dt).le(Real::of(ZERO)) ==> call_ensures(
                circle,
                (drawn_angle(before.0.random_state),),
                chance,
            )
            &&& takes_step(grid, ready, before.1, radius, length) ==> call_ensures(
                bearing,
                (ready.direction,),
                heading,
            )
            &&& after == #[trigger] stepped(
                grid,
                readied(before.0, before.1.position, radius, dt, chance),
                before.1,
                radius,
                length,
                heading,
            )
        }
}

/// Whether a simulation and its scene after some time are what the time makes of
/// them: every actor of the scene has wandered, and nothing else has changed.
pub open spec fn roamed<S: Fn(Real) -> Point, B: Fn(Point) -> Real>(
    circle: S,
    bearing: B,
    dt: Real,
    before: WanderSimulation,
    scene: Scene,
    after: WanderSimulation,
    later: Scene,
) -> bool {
    &&& after.enabled == before.enabled
    &&& after.radius == before.radius
    &&& after.speed == before.speed
    &&& after.wanderers@.len() == before.wanderers@.len()
    &&& forall|i: int|
        0 <= i < before.wanderers@.len() ==> same_actor(
            before.wanderers@[i],
            #[trigger] after.wanderers@[i],
        )
    &&& later.metadata == scene.metadata
    &&& later.grid == scene.grid
    &&& later.prefab_collisions == scene.prefab_collisions
    &&& later.placements == scene.placements
    &&& later.entities@.len() == scene.entities@.len()
    &&& !before.runs(dt) ==> after.wanderers@ == before.wanderers@ && later.entities@
        == scene.entities@
    &&& before.runs(dt) ==> {
        &&& forall|i: int|
            0 <= i < before.wanderers@.len() ==> {
                let at: int = before.wanderers@[i].entity_index as int;
                if at < scene.entities@.len() {
                    wandered(
                        circle,
                        bearing,
                        &scene.grid,
                        (before.wanderers@[i], scene.entities@[at]),
                        (#[trigger] after.wanderers@[i], later.entities@[at]),
                        before.reach(),
                        before.stride(dt),
                        dt.min(Real::of(LONGEST_STEP)),
                    )
                } else {
                    after.wanderers@[i] == before.wanderers@[i]
                }
            }
        &&& forall|at: int|
            0 <= at < scene.entities@.len() && !before.holds_actor(
                before.wanderers@.len() as int,
                at,
            ) ==> #[trigger] later.entities@[at] == scene.entities@[at]
    }
}

impl WanderSimulation {
    /// How far from its spawn an actor may wander.
    pub open spec fn reach(&self) -> Real {
        self.radius.max(Real::of(ZERO))
    }

    /// How far an actor goes in some time.
    pub open spec fn stride(&self, dt: Real) -> Real {
        self.speed.max(Real::of(ZERO)).mul(dt.min(Real::of(LONGEST_STEP)))
    }

    /// Every actor has a place of its own in the scene.
    pub open spec fn wf(&self) -> bool {
        forall|i: int, j: int|
            0 <= i < j < self.wanderers@.len() ==> (#[trigger] self.wanderers@[i]).entity_index < (
            #[trigger] self.wanderers@[j]).entity_index
    }

    /// A simulation of all actors of a scene, each at its spawn.
    pub fn from_scene(scene: &Scene) -> (r: WanderSimulation)
        ensures
            r.wf(),
            r.enabled,
            r.radius == Real::of(DEFAULT_RADIUS),
            r.speed == Real::of(DEFAULT_SPEED),
            r.wanderers@ == newcomers(scene.entities@, scene.entities@.len() as int),
    {
        let mut wanderers: Vec<Wanderer> = Vec::new();
        let mut n: usize = 0;
        while n < scene.entities.len()
            invariant
                n <= scene.entities@.len(),
                wanderers@ == newcomers(scene.entities@, n as int),
                forall|i: int|
                    0 <= i < wanderers@.len() ==> (#[trigger] wanderers@[i]).entity_index < n,
                forall|i: int, j: int|
                    0 <= i < j < wanderers@.len() ==> (#[trigger] wanderers@[i]).entity_index < (
                    #[trigger] wanderers@[j]).entity_index,
            decreases scene.entities@.len() - n,
        {
            let entity: &Entity = &scene.entities[n];
            if has_category(entity, "actor") {
                wanderers.push(
                    Wanderer {
                        entity_index: n,
                        spawn: entity.position,
                        spawn_heading: entity.heading_degrees,
                        direction: Point { x: Real::of(ZERO), z: Real::of(ZERO) },
                        turn_in: Real::of(ZERO),
                        random_state: seed_from_id(entity.id.as_str()),
                    },
                );
            }
            n = n + 1;
        }
        WanderSimulation {
            enabled: true,
            radius: Real::of(DEFAULT_RADIUS),
            speed: Real::of(DEFAULT_SPEED),
            wanderers,
        }
    }

    /// Number of wandering actors.
    pub fn actor_count(&self) -> (r: usize)
        ensures
            r == self.wanderers@.len(),
    {
        self.wanderers.len()
    }

    /// Whether the time steps and sizes let the actors move at all.
    pub open spec fn runs(&self, dt: Real) -> bool {
        &&& self.enabled
        &&& dt.finite()
        &&& !dt.le(Real::of(ZERO))
        &&& !self.radius.max(Real::of(ZERO)).num_eq(Real::of(ZERO))
        &&& !self.speed.max(Real::of(ZERO)).mul(dt.min(Real::of(LONGEST_STEP))).num_eq(
            Real::of(ZERO),
        )
    }

    /// Whether an actor of the scene takes a step in some time.
    pub open spec fn steps_in(&self, scene: &Scene, dt: Real) -> bool {
        &&& self.runs(dt)
        &&& exists|i: int|
            0 <= i < self.wanderers@.len() && (#[trigger] self.wanderers@[i]).entity_index
                < scene.entities@.len()
    }

    /// Lets every actor wander for some time. `circle` gives the sine and
    /// cosine of an angle, `bearing` the heading of a direction in degrees.
    pub fn update<S: Fn(Real) -> Point, B: Fn(Point) -> Real>(
        &mut self,
        scene: &mut Scene,
        dt: Real,
        circle: S,
        bearing: B,
    )
        requires
            old(self).wf(),
            old(self).steps_in(old(scene), dt) ==> {
                &&& covered(&old(scene).grid)
                &&& old(scene).grid.width > 0
                &&& old(scene).grid.height > 0
            },
            forall|angle: Real| #[trigger] call_requires(circle, (angle,)),
            forall|direction: Point| #[trigger] call_requires(bearing, (direction,)),
        ensures
            final(self).wf(),
            roamed(circle, bearing, dt, *old(self), *old(scene), *final(self), *final(scene)),
    {
        if !self.enabled || !dt.is_finite() || dt.le(Real::of(ZERO)) {
            return;
        }
        let step: Real = dt.min(Real::of(LONGEST_STEP));
        let radius: Real = self.radius.max(Real::of(ZERO));
        let length: Real = self.speed.max(Real::of(ZERO)).mul(step);
        if radius.num_eq(Real::of(ZERO)) || length.num_eq(Real::of(ZERO)) {
            return;
        }
        let ghost crowd: Seq<Wanderer> = self.wanderers@;
        let ghost cast: Seq<Entity> = scene.entities@;
        let mut n: usize = 0;
        while n < self.wanderers.len()
            invariant
                n <= self.wanderers@.len(),
                crowd == old(self).wanderers@,
                cast == old(scene).entities@,
                old(self).wf(),
                self.wanderers@.len() == crowd.len(),
                self.enabled == old(self).enabled,
                self.radius == old(self).radius,
                self.speed == old(self).speed,
                scene.metadata == old(scene).metadata,
                scene.grid == old(scene).grid,
                scene.prefab_collisions == old(scene).prefab_collisions,
                scene.placements == old(scene).placements,
                scene.entities@.len() == cast.len(),
                old(self).runs(dt),
                old(self).steps_in(old(scene), dt) ==> {
                    &&& covered(&scene.grid)
                    &&& scene.grid.width > 0
                    &&& scene.grid.height > 0
                },
                forall|angle: Real| #[trigger] call_requires(circle, (angle,)),
                forall|direction: Point| #[trigger] call_requires(bearing, (direction,)),
                forall|i: int| n <= i < crowd.len() ==> #[trigger] self.wanderers@[i] == crowd[i],
                forall|i: int|
                    0 <= i < crowd.len() ==> same_actor(crowd[i], #[trigger] self.wanderers@[i]),
                forall|at: int|
                    0 <= at < cast.len() && !old(self).holds_actor(n as int, at)
                        ==> #[trigger] scene.entities@[at] == cast[at],
                forall|i: int|
                    0 <= i < n ==> {
                        let at: int = crowd[i].entity_index as int;
                        if at < cast.len() {
                            wandered(
                                circle,
                                bearing,
                                &scene.grid,
                                (crowd[i], cast[at]),
                                (#[trigger] self.wanderers@[i], scene.entities@[at]),
                                radius,
                                length,
                                step,
                            )
                        } else {
                            self.wanderers@[i] == crowd[i]
                        }
                    },
            decreases self.wanderers@.len() - n,
        {
            let at: usize = self.wanderers[n].entity_index;
            let ghost before_crowd: Seq<Wanderer> = self.wanderers@;
            let ghost before_cast: Seq<Entity> = scene.entities@;
            if at < scene.entities.len() {
                proof {
                    assert(!old(self).holds_actor(n as int, at as int));
                    assert(scene.entities@[at as int] == cast[at as int]);
                    assert(old(self).wanderers@[n as int].entity_index < cast.len());
                    assert(old(self).steps_in(old(scene), dt));
                }
                let w: Wanderer = self.wanderers[n];
                let next: Wanderer = step_actor(
                    &scene.grid,
                    w,
                    &mut scene.entities[at],
                    radius,
                    length,
                    step,
                    &circle,
                    &bearing,
                );
                self.wanderers.set(n, next);
            }
            proof {
                assert forall|x: int| 0 <= x < cast.len() && !old(self).holds_actor(n + 1, x)
                    implies #[trigger] scene.entities@[x] == cast[x] by {
                    if old(self).holds_actor(n as int, x) {
                        let i: int = choose|i: int|
                            0 <= i < n && #[trigger] crowd[i].entity_index == x;
                        assert(0 <= i < n + 1 && crowd[i].entity_index == x);
                        assert(false);
                    }
                    if x == at {
                        assert(crowd[n as int].entity_index == x);
                        assert(false);
                    }
                    assert(before_cast[x] == cast[x]);
                }
                assert forall|i: int| 0 <= i < n + 1 implies {
                    let a: int = crowd[i].entity_index as int;
                    if a < cast.len() {
                        wandered(
                            circle,
                            bearing,
                            &scene.grid,
                            (crowd[i], cast[a]),
                            (#[trigger] self.wanderers@[i], scene.entities@[a]),
                            radius,
                            length,
                            step,
                        )
                    } else {
                        self.wanderers@[i] == crowd[i]
                    }
                } by {
                    if i < n {
                        assert(before_crowd[i] == self.wanderers@[i]);
                        assert(crowd[i].entity_index < crowd[n as int].entity_index);
                    }
                }
            }
            n = n + 1;
        }
    }

    /// Puts every actor back to where it was captured.
    pub fn reset(&mut self, scene: &mut Scene)
        requires
            old(self).wf(),
        ensures
            final(self).wf(),
            final(self).enabled == old(self).enabled,
            final(self).radius == old(self).radius,
            final(self).speed == old(self).speed,
            final(self).wanderers@.len() == old(self).wanderers@.len(),
            final(scene).metadata == old(scene).metadata,
            final(scene).grid == old(scene).grid,
            final(scene).prefab_collisions == old(scene).prefab_collisions,
            final(scene).placements == old(scene).placements,
            final(scene).entities@.len() == old(scene).entities@.len(),
            forall|i: int|
                0 <= i < old(self).wanderers@.len() ==> {
                    let w: Wanderer = old(self).wanderers@[i];
                    let at: int = w.entity_index as int;
                    if at < old(scene).entities@.len() {
                        &&& #[trigger] final(self).wanderers@[i] == halted(w)
                        &&& final(scene).entities@[at] == sent_home(w, old(scene).entities@[at])
                    } else {
                        final(self).wanderers@[i] == w
                    }
                },
            forall|at: int|
                0 <= at < old(scene).entities@.len() && !old(self).holds_actor(
                    old(self).wanderers@.len() as int,
                    at,
                ) ==> #[trigger] final(scene).entities@[at] == old(scene).entities@[at],
    {
        let ghost crowd: Seq<Wanderer> = self.wanderers@;
        let ghost cast: Seq<Entity> = scene.entities@;
        let mut n: usize = 0;
        while n < self.wanderers.len()
            invariant
                n <= self.wanderers@.len(),
                crowd == old(self).wanderers@,
                cast == old(scene).entities@,
                old(self).wf(),
                self.wanderers@.len() == crowd.len(),
                self.enabled == old(self).enabled,
                self.radius == old(self).radius,
                self.speed == old(self).speed,
                scene.metadata == old(scene).metadata,
                scene.grid == old(scene).grid,
                scene.prefab_collisions == old(scene).prefab_collisions,
                scene.placements == old(scene).placements,
                scene.entities@.len() == cast.len(),
                forall|i: int| n <= i < crowd.len() ==> #[trigger] self.wanderers@[i] == crowd[i],
                forall|i: int|
                    0 <= i < crowd.len() ==> same_actor(crowd[i], #[trigger] self.wanderers@[i]),
                forall|at: int|
                    0 <= at < cast.len() && !old(self).holds_actor(n as int, at)
                        ==> #[trigger] scene.entities@[at] == cast[at],
                forall|i: int|
                    0 <= i < n ==> {
                        let at: int = crowd[i].entity_index as int;
                        if at < cast.len() {
                            &&& #[trigger] self.wanderers@[i] == halted(crowd[i])
                            &&& scene.entities@[at] == sent_home(crowd[i], cast[at])
                        } else {
                            self.wanderers@[i] == crowd[i]
                        }
                    },
            decreases self.wanderers@.len() - n,
        {
            let mut w: Wanderer = self.wanderers[n];
            let at: usize = w.entity_index;
            let ghost before_crowd: Seq<Wanderer> = self.wanderers@;
            let ghost before_cast: Seq<Entity> = scene.entities@;
            if at < scene.entities.len() {
                proof {
                    assert(!old(self).holds_actor(n as int, at as int));
                    assert(scene.entities@[at as int] == cast[at as int]);
                }
                scene.entities[at].position = w.spawn;
                scene.entities[at].heading_degrees = w.spawn_heading;
                w.direction = Point { x: Real::of(ZERO), z: Real::of(ZERO) };
                w.turn_in = Real::of(ZERO);
                self.wanderers.set(n, w);
            }
            proof {
                assert forall|x: int| 0 <= x < cast.len() && !old(self).holds_actor(n + 1, x)
                    implies #[trigger] scene.entities@[x] == cast[x] by {
                    if old(self).holds_actor(n as int, x) {
                        let i: int = choose|i: int|
                            0 <= i < n && #[trigger] crowd[i].entity_index == x;
                        assert(0 <= i < n + 1 && crowd[i].entity_index == x);
                        assert(false);
                    }
                    if x == at {
                        assert(crowd[n as int].entity_index == x);
                        assert(false);
                    }
                    assert(before_cast[x] == cast[x]);
                }
                assert forall|i: int| 0 <= i < n + 1 implies {
                    let a: int = crowd[i].entity_index as int;
                    if a < cast.len() {
                        &&& #[trigger] self.wanderers@[i] == halted(crowd[i])
                        &&& scene.entities@[a] == sent_home(crowd[i], cast[a])
                    } else {
                        self.wanderers@[i] == crowd[i]
                    }
                } by {
                    if i < n {
                        assert(before_crowd[i] == self.wanderers@[i]);
                        assert(crowd[i].entity_index < crowd[n as int].entity_index);
                    }
                }
            }
            n = n + 1;
        }
    }

    /// Whether one of the first `n` actors has the given place in the scene.
    pub open spec fn holds_actor(&self, n: int, at: int) -> bool {
        exists|i: int| 0 <= i < n && #[trigger] self.wanderers@[i].entity_index == at
    }
}

/// One step of one actor.
fn step_actor<S: Fn(Real) -> Point, B: Fn(Point) -> Real>(
    grid: &NavGrid,
    w: Wanderer,
    entity: &mut Entity,
    radius: Real,
    length: Real,
    dt: Real,
    circle: &S,
    bearing: &B,
) -> (next: Wanderer)
    requires
        covered(grid),
        grid.width > 0,
        grid.height > 0,
        forall|angle: Real| #[trigger] call_requires(*circle, (angle,)),
        forall|direction: Point| #[trigger] call_requires(*bearing, (direction,)),
    ensures
        wandered(
            *circle,
            *bearing,
            grid,
            (w, *old(entity)),
            (next, *final(entity)),
            radius,
            length,
            dt,
        ),
        same_actor(w, next),
{
    let mut next: Wanderer = w;
    next.turn_in = w.turn_in.sub(dt);
    let mut chance: Point = Point { x: Real::of(ZERO), z: Real::of(ZERO) };
    if next.turn_in.le(Real::of(ZERO)) {
        let angle: Real = next_unit(&mut next.random_state).mul(Real::of(TAU));
        chance = circle(angle);
        next.direction = new_direction(w.spawn, entity.position, radius, chance);
        next.turn_in = Real::of(MIN_TURN_SECONDS).add(
            next_unit(&mut next.random_state).mul(Real::of(TURN_SECONDS_SPREAD)),
        );
    }
    assert(next == readied(w, entity.position, radius, dt, chance));
    let ghost ready: Wanderer = next;
    let to: Point = strolled(entity.position, next.direction, length);
    if stays_home(w.spawn, entity.position, to, radius) && position_is_walkable(
        grid,
        to,
        entity.collider,
    ) {
        let heading: Real = bearing(next.direction);
        entity.position = to;
        entity.heading_degrees = Some(heading);
        assert((next, *entity) == stepped(grid, ready, *old(entity), radius, length, heading));
    } else {
        // Pick a different direction on the next step. Keeping the actor in
        // place for this one makes collision rejection deterministic.
        next.turn_in = Real::of(ZERO);
        assert((next, *entity) == stepped(
            grid,
            ready,
            *old(entity),
            radius,
            length,
            Real::of(ZERO),
        ));
    }
    next
}

/// An actor that is within its home radius stays there, whatever the
/// trigonometric functions give; one that is outside does not get any farther
/// away. It moves only to places where its body fits.
pub proof fn lemma_wanderer_stays_home<S: Fn(Real) -> Point, B: Fn(Point) -> Real>(
    circle: S,
    bearing: B,
    grid: &NavGrid,
    before: (Wanderer, Entity),
    after: (Wanderer, Entity),
    radius: Real,
    length: Real,
    dt: Real,
)
    requires
        wandered(circle, bearing, grid, before, after, radius, length, dt),
    ensures
        distance_sq(before.1.position, before.0.spawn).le(radius.mul(radius)) ==> distance_sq(
            after.1.position,
            after.0.spawn,
        ).le(radius.mul(radius)),
        after.1.position == before.1.position || distance_sq(
            after.1.position,
            after.0.spawn,
        ).le(radius.mul(radius)) || distance_sq(after.1.position, after.0.spawn).lt(
            distance_sq(before.1.position, before.0.spawn),
        ),
        after.1.position == before.1.position || walkable(
            grid,
            after.1.position,
            after.1.collider,
        ),
        same_actor(before.0, after.0),
{
}

/// Whether a direction is no longer than one, up to rounding, or no direction:
/// an actor with a coordinate that is no number does not move.
pub open spec fn is_tame(v: Point) -> bool {
    v.x.nan() || v.z.nan() || no_longer_than_one(v)
}

/// A coordinate of a vector that mixes the way home with chance.
proof fn lemma_mixed_side(share: Real, chance: Real)
    requires
        !share.mul(Real::of(HOME_WEIGHT)).add(chance.mul(Real::of(CHANCE_WEIGHT))).nan(),
        share.nan() || share.magnitude() <= ONE,
        chance.nan() || chance.magnitude() <= 0x4000_0000_0000_0000,
    ensures
        share.mul(Real::of(HOME_WEIGHT)).add(chance.mul(Real::of(CHANCE_WEIGHT))).finite(),
        share.mul(Real::of(HOME_WEIGHT)).add(chance.mul(Real::of(CHANCE_WEIGHT))).magnitude()
            <= 0x4010_0000_0000_0000,
{
    let home: Real = Real::of(HOME_WEIGHT);
    let luck: Real = Real::of(CHANCE_WEIGHT);
    if share.nan() {
        lemma_nan_spreads(share, home);
        lemma_nan_spreads(share.mul(home), chance.mul(luck));
    }
    if chance.nan() {
        lemma_nan_spreads(chance, luck);
        lemma_nan_spreads(share.mul(home), chance.mul(luck));
    }
    lemma_share_of_length(share, home);
    lemma_fourth(chance);
    lemma_sum_below_two(share.mul(home), chance.mul(luck));
}

/// The way home, where it is taken, has a direction whose coordinates are at
/// most one.
proof fn lemma_homewards(dx: Real, dz: Real, radius: Real)
    requires
        radius.rank() >= 0,
        !radius.nan(),
        radius.mul(Real::of(HOMESICK_SHARE)).lt(dx.hypot(dz)),
    ensures
        dx.div(dx.hypot(dz)).nan() || dx.div(dx.hypot(dz)).magnitude() <= ONE,
        dz.div(dx.hypot(dz)).nan() || dz.div(dx.hypot(dz)).magnitude() <= ONE,
{
    let limit: Real = radius.mul(Real::of(HOMESICK_SHARE));
    if radius.finite() {
        lemma_mul_monotone(radius, radius, Real::of(HOMESICK_SHARE), Real::of(HOMESICK_SHARE));
    } else {
        reveal(Real::spec_mul);
    }
    assert(dx.hypot(dz).rank() > 0);
    lemma_hypot_commutes(dx, dz);
    if !dx.div(dx.hypot(dz)).nan() {
        lemma_share_of_hypot(dx, dz);
    }
    if !dz.div(dx.hypot(dz)).nan() {
        lemma_share_of_hypot(dz, dx);
    }
}

/// A vector scaled to unit length is tame.
proof fn lemma_normalized_is_tame(v: Point)
    requires
        v.x.nan() || (v.x.finite() && v.x.magnitude() <= 0x4010_0000_0000_0000),
        v.z.nan() || (v.z.finite() && v.z.magnitude() <= 0x4010_0000_0000_0000),
    ensures
        is_tame(spec_normalized(v)),
{
    let length: Real = v.x.hypot(v.z);
    let d: Point = spec_normalized(v);
    if Real::of(EPSILON).lt(length) {
        if v.x.nan() || v.z.nan() {
            reveal(Real::spec_div);
        } else {
            lemma_direction_is_short(v.x, v.z);
        }
    } else {
        lemma_ahead_is_short();
    }
}

proof fn lemma_new_direction_is_tame(spawn: Point, position: Point, radius: Real, chance: Point)
    requires
        radius.rank() >= 0,
        !radius.nan(),
        no_longer_than_one(chance),
    ensures
        is_tame(spec_new_direction(spawn, position, radius, chance)),
{
    let dx: Real = spawn.x.sub(position.x);
    let dz: Real = spawn.z.sub(position.z);
    let away: Real = dx.hypot(dz);
    let home: Real = Real::of(HOME_WEIGHT);
    let luck: Real = Real::of(CHANCE_WEIGHT);
    if radius.mul(Real::of(HOMESICK_SHARE)).lt(away) {
        let v: Point = Point {
            x: dx.div(away).mul(home).add(chance.x.mul(luck)),
            z: dz.div(away).mul(home).add(chance.z.mul(luck)),
        };
        lemma_homewards(dx, dz, radius);
        lemma_side_of_short(chance);
        if !v.x.nan() {
            lemma_mixed_side(dx.div(away), chance.x);
        }
        if !v.z.nan() {
            lemma_mixed_side(dz.div(away), chance.z);
        }
        lemma_normalized_is_tame(v);
    }
}

/// A share of a length is not longer than it.
proof fn lemma_share_of_length(share: Real, length: Real)
    requires
        share.magnitude() <= ONE,
        length.finite(),
        length.rank() >= 0,
    ensures
        share.mul(length).abs().le(length),
{
    let size: Real = share.abs();
    assert(size.magnitude() == share.magnitude() && !size.negative());
    lemma_mul_monotone(size, Real::of(ONE), length, length);
    lemma_mul_one(length);
    assert(Real::of(ONE).mul(length).rank() == length.rank()) by {
        reveal(Real::spec_mul);
        assert(Real::of(ONE).mul(length) == length.mul(Real::of(ONE)));
    }
    assert(share.mul(length).magnitude() == size.mul(length).magnitude()) by {
        reveal(Real::spec_mul);
    }
}

/// An actor whose direction is no number does not move.
proof fn lemma_step_is_a_number(
    spawn: Point,
    from: Point,
    ahead: Point,
    length: Real,
    radius: Real,
)
    requires
        spec_stays_home(spawn, from, spec_strolled(from, ahead, length), radius),
    ensures
        !ahead.x.nan(),
        !ahead.z.nan(),
{
    let to: Point = spec_strolled(from, ahead, length);
    let dx: Real = to.x.sub(spawn.x);
    let dz: Real = to.z.sub(spawn.z);
    if ahead.x.nan() {
        lemma_nan_spreads(ahead.x, length);
        lemma_nan_spreads(from.x, ahead.x.mul(length));
        lemma_nan_spreads(to.x, spawn.x);
        lemma_nan_spreads(dx, dx);
        lemma_nan_spreads(dx.mul(dx), dz.mul(dz));
    }
    if ahead.z.nan() {
        lemma_nan_spreads(ahead.z, length);
        lemma_nan_spreads(from.z, ahead.z.mul(length));
        lemma_nan_spreads(to.z, spawn.z);
        lemma_nan_spreads(dz, dz);
        lemma_nan_spreads(dx.mul(dx), dz.mul(dz));
    }
}

/// An actor that moves goes in its direction by the length of its step: the
/// direction is no longer than one, up to rounding, as long as the sine and
/// cosine it is given are together no longer than one.
pub proof fn lemma_wanderer_keeps_pace<S: Fn(Real) -> Point, B: Fn(Point) -> Real>(
    circle: S,
    bearing: B,
    grid: &NavGrid,
    before: (Wanderer, Entity),
    after: (Wanderer, Entity),
    radius: Real,
    length: Real,
    dt: Real,
)
    requires
        wandered(circle, bearing, grid, before, after, radius, length, dt),
        !radius.nan(),
        radius.rank() >= 0,
        is_tame(before.0.direction),
        forall|angle: Real, chance: Point| #[trigger]
            call_ensures(circle, (angle,), chance) ==> no_longer_than_one(chance),
    ensures
        is_tame(after.0.direction),
        after.1.position == before.1.position || {
            let ahead: Point = after.0.direction;
            &&& after.1.position == spec_strolled(before.1.position, ahead, length)
            &&& no_longer_than_one(ahead)
        },
{
    let (chance, heading): (Point, Real) = choose|chance: Point, heading: Real|
        {
            let ready: Wanderer = readied(before.0, before.1.position, radius, dt, chance);
            &&& before.0.turn_in.sub(dt).le(Real::of(ZERO)) ==> call_ensures(
                circle,
                (drawn_angle(before.0.random_state),),
                chance,
            )
            &&& takes_step(grid, ready, before.1, radius, length) ==> call_ensures(
                bearing,
                (ready.direction,),
                heading,
            )
            &&& after == #[trigger] stepped(
                grid,
                readied(before.0, before.1.position, radius, dt, chance),
                before.1,
                radius,
                length,
                heading,
            )
        };
    if before.0.turn_in.sub(dt).le(Real::of(ZERO)) {
        lemma_new_direction_is_tame(before.0.spawn, before.1.position, radius, chance);
    }
    let ahead: Point = after.0.direction;
    if takes_step(
        grid,
        readied(before.0, before.1.position, radius, dt, chance),
        before.1,
        radius,
        length,
    ) {
        lemma_step_is_a_number(before.0.spawn, before.1.position, ahead, length, radius);
    }
}

/// Whenever the actors of a scene wander: one within its home radius stays
/// there, one outside gets no farther away, and whoever moves goes to a place
/// where its body fits, in its direction by the length of a step. The direction
/// is no longer than one, up to rounding, as long as the sines and cosines are
/// together no longer than one. Nothing else in the scene moves.
pub proof fn lemma_actors_keep_bounds<S: Fn(Real) -> Point, B: Fn(Point) -> Real>(
    circle: S,
    bearing: B,
    dt: Real,
    before: WanderSimulation,
    scene: Scene,
    after: WanderSimulation,
    later: Scene,
)
    requires
        before.wf(),
        roamed(circle, bearing, dt, before, scene, after, later),
        forall|angle: Real, chance: Point| #[trigger]
            call_ensures(circle, (angle,), chance) ==> no_longer_than_one(chance),
        forall|i: int|
            0 <= i < before.wanderers@.len() ==> is_tame((#[trigger] before.wanderers@[i]).direction),
    ensures
        after.wf(),
        forall|i: int|
            0 <= i < after.wanderers@.len() ==> is_tame((#[trigger] after.wanderers@[i]).direction),
        forall|i: int|
            0 <= i < after.wanderers@.len() && before.wanderers@[i].entity_index
                < scene.entities@.len() ==> keeps_bounds(
                before,
                dt,
                &scene.grid,
                #[trigger] after.wanderers@[i],
                scene.entities@[before.wanderers@[i].entity_index as int],
                later.entities@[before.wanderers@[i].entity_index as int],
            ),
        forall|at: int|
            0 <= at < scene.entities@.len() && !before.holds_actor(
                before.wanderers@.len() as int,
                at,
            ) ==> #[trigger] later.entities@[at] == scene.entities@[at],
{
    assert forall|i: int, j: int| 0 <= i < j < after.wanderers@.len() implies (
    #[trigger] after.wanderers@[i]).entity_index < (#[trigger] after.wanderers@[j]).entity_index by {
        assert(same_actor(before.wanderers@[i], after.wanderers@[i]));
        assert(same_actor(before.wanderers@[j], after.wanderers@[j]));
    }
    assert forall|i: int| 0 <= i < after.wanderers@.len() implies {
        &&& is_tame((#[trigger] after.wanderers@[i]).direction)
        &&& before.wanderers@[i].entity_index < scene.entities@.len() ==> keeps_bounds(
            before,
            dt,
            &scene.grid,
            after.wanderers@[i],
            scene.entities@[before.wanderers@[i].entity_index as int],
            later.entities@[before.wanderers@[i].entity_index as int],
        )
    } by {
        let at: int = before.wanderers@[i].entity_index as int;
        assert(is_tame(before.wanderers@[i].direction));
        if before.runs(dt) && at < scene.entities@.len() {
            let was: (Wanderer, Entity) = (before.wanderers@[i], scene.entities@[at]);
            let now: (Wanderer, Entity) = (after.wanderers@[i], later.entities@[at]);
            let radius: Real = before.reach();
            let length: Real = before.stride(dt);
            let step: Real = dt.min(Real::of(LONGEST_STEP));
            lemma_wanderer_stays_home(
                circle,
                bearing,
                &scene.grid,
                was,
                now,
                radius,
                length,
                step,
            );
            lemma_wanderer_keeps_pace(
                circle,
                bearing,
                &scene.grid,
                was,
                now,
                radius,
                length,
                step,
            );
        }
    }
}

/// Whether an actor that was within its home radius is so still, one that was
/// outside is no farther away, and one that moved went in its direction by the
/// length of a step, to a place where its body fits.
pub open spec fn keeps_bounds(
    simulation: WanderSimulation,
    dt: Real,
    grid: &NavGrid,
    actor: Wanderer,
    before: Entity,
    after: Entity,
) -> bool {
    let limit: Real = simulation.reach().mul(simulation.reach());
    let was: Real = distance_sq(before.position, actor.spawn);
    let now: Real = distance_sq(after.position, actor.spawn);
    &&& was.le(limit) ==> now.le(limit)
    &&& after.position == before.position || {
        &&& now.le(limit) || now.lt(was)
        &&& walkable(grid, after.position, after.collider)
        &&& after.position == spec_strolled(
            before.position,
            actor.direction,
            simulation.stride(dt),
        )
        &&& no_longer_than_one(actor.direction)
    }
}

/// An actor starts without a direction.
pub proof fn lemma_newcomer_stands_still(entity: Entity, index: int)
    ensures
        is_tame(newcomer(entity, index).direction),
{
    lemma_rest_is_short();
}

/// Resetting undoes any number of steps: an actor that has kept its origin is
/// put back to where it was captured, with the heading it had.
pub proof fn lemma_reset_restores_spawn(captured: Entity, index: int, now: Wanderer, entity: Entity)
    requires
        same_actor(newcomer(captured, index), now),
    ensures
        sent_home(now, entity).position == captured.position,
        sent_home(now, entity).heading_degrees == captured.heading_degrees,
        same_actor(newcomer(captured, index), halted(now)),
{
}

} // verus!
