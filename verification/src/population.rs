//! Populating the unobserved part of a scene.
use vstd::prelude::*;
use vstd::string::StringExecFns;
use vstd::utf8::encode_utf8;

use crate::attributes::Attributes;
use crate::geometry::{distance_sq, Point, ZERO};
use crate::number::Real;
use crate::pathfinding::covered;
use crate::random::{
    lemma_shuffled_permutes, next_index, next_unit, seed_from_id, seed_of, shuffle, shuffled,
    unit_of, xorshift,
};
use crate::roster::{in_listing_order, lemma_listed, list_entities, listed, views};
use crate::scene::{has_category, Entity, EntityView, NavGrid, Scene};
use crate::text::{append_padded, lemma_padded_decimal_differs, padded_decimal};
use crate::walkable::{position_is_walkable, walkable};

verus! {

/// Radius around the agent within which actors were observed: `72`.
pub const SENSING_RADIUS: u64 = 0x4052_0000_0000_0000;

/// Degrees of a full turn: `360`.
pub const FULL_TURN: u64 = 0x4076_8000_0000_0000;

/// What populating a scene came to.
#[derive(Clone, Copy, PartialEq, Eq, Structural, Debug)]
pub struct PopulationReport {
    pub sensing_radius: Real,
    pub observed_actors: usize,
    pub synthetic_actors: usize,
    pub density_per_square_unit: Real,
}

impl Default for PopulationReport {
    fn default() -> (r: PopulationReport)
        ensures
            r == (PopulationReport {
                sensing_radius: Real::of(ZERO),
                observed_actors: 0,
                synthetic_actors: 0,
                density_per_square_unit: Real::of(ZERO),
            }),
    {
        PopulationReport {
            sensing_radius: Real::of(ZERO),
            observed_actors: 0,
            synthetic_actors: 0,
            density_per_square_unit: Real::of(ZERO),
        }
    }
}

/// The place of the first agent from the `i`-th entity on.
pub open spec fn agent_from(entities: Seq<EntityView>, i: int) -> Option<Point>
    decreases entities.len() - i,
{
    if i >= entities.len() {
        None
    } else if entities[i].category == "agent"@ {
        Some(entities[i].position)
    } else {
        agent_from(entities, i + 1)
    }
}

/// Where the agent of a scene stands, if it has one.
pub fn agent_position(entities: &Vec<Entity>) -> (r: Option<Point>)
    ensures
        r == agent_from(views(entities@), 0),
{
    let mut i: usize = 0;
    while i < entities.len()
        invariant
            i <= entities@.len(),
            agent_from(views(entities@), 0) == agent_from(views(entities@), i as int),
        decreases entities@.len() - i,
    {
        if has_category(&entities[i], "agent") {
            return Some(entities[i].position);
        }
        i = i + 1;
    }
    None
}

/// Whether an entity is an actor within the sensed circle.
pub open spec fn observed(entity: EntityView, agent: Point, radius_sq: Real) -> bool {
    entity.category == "actor"@ && distance_sq(entity.position, agent).le(radius_sq)
}

/// The observed ones of the first `n` entities.
pub open spec fn templates_of(
    entities: Seq<EntityView>,
    n: int,
    agent: Point,
    radius_sq: Real,
) -> Seq<EntityView>
    decreases n,
{
    if n <= 0 {
        Seq::empty()
    } else {
        let rest: Seq<EntityView> = templates_of(entities, n - 1, agent, radius_sq);
        if observed(entities[n - 1], agent, radius_sq) {
            rest.push(entities[n - 1])
        } else {
            rest
        }
    }
}

/// Number of actors beyond the sensed circle among the first `n` entities.
pub open spec fn known_beyond(
    entities: Seq<EntityView>,
    n: int,
    agent: Point,
    radius_sq: Real,
) -> nat
    decreases n,
{
    if n <= 0 {
        0
    } else {
        known_beyond(entities, n - 1, agent, radius_sq) + (if entities[n - 1].category == "actor"@
            && radius_sq.lt(distance_sq(entities[n - 1].position, agent)) {
            1nat
        } else {
            0nat
        })
    }
}

/// The middle of a numbered cell.
pub open spec fn cell_place(grid: &NavGrid, index: int) -> Point {
    grid.center((index % grid.width as int) as usize, (index / grid.width as int) as usize)
}

/// Whether a numbered cell is walkable and lies in the sensed circle.
pub open spec fn sensed_cell(grid: &NavGrid, index: int, agent: Point, radius_sq: Real) -> bool {
    grid.blocked@[index] == 0 && distance_sq(cell_place(grid, index), agent).le(radius_sq)
}

/// Whether a numbered cell is walkable and does not lie in the sensed circle.
pub open spec fn unobserved_cell(grid: &NavGrid, index: int, agent: Point, radius_sq: Real) -> bool {
    grid.blocked@[index] == 0 && !distance_sq(cell_place(grid, index), agent).le(radius_sq)
}

/// Number of sensed walkable cells among the first `n`.
pub open spec fn sensed_count(grid: &NavGrid, n: int, agent: Point, radius_sq: Real) -> nat
    decreases n,
{
    if n <= 0 {
        0
    } else {
        sensed_count(grid, n - 1, agent, radius_sq) + (if sensed_cell(
            grid,
            n - 1,
            agent,
            radius_sq,
        ) {
            1nat
        } else {
            0nat
        })
    }
}

/// The unobserved walkable cells among the first `n`.
pub open spec fn unobserved_cells(grid: &NavGrid, n: int, agent: Point, radius_sq: Real) -> Seq<
    usize,
>
    decreases n,
{
    if n <= 0 {
        Seq::empty()
    } else {
        let rest: Seq<usize> = unobserved_cells(grid, n - 1, agent, radius_sq);
        if unobserved_cell(grid, n - 1, agent, radius_sq) {
            rest.push((n - 1) as usize)
        } else {
            rest
        }
    }
}

/// Observed actors per square unit of sensed walkable ground.
pub open spec fn spec_density(observed: usize, cells: usize, cell_size: Real) -> Real {
    Real::from_count(observed as u64).div(
        Real::from_count(cells as u64).mul(cell_size.mul(cell_size)),
    )
}

#[verifier::when_used_as_spec(spec_density)]
fn density(observed: usize, cells: usize, cell_size: Real) -> (r: Real)
    ensures
        r == spec_density(observed, cells, cell_size),
{
    Real::from_count(observed as u64).div(
        Real::from_count(cells as u64).mul(cell_size.mul(cell_size)),
    )
}

/// How many actors the density makes one expect on unobserved ground.
pub open spec fn spec_expected(density: Real, cells: usize, cell_size: Real) -> usize {
    density.mul(Real::from_count(cells as u64).mul(cell_size.mul(cell_size))).round_usize()
}

#[verifier::when_used_as_spec(spec_expected)]
fn expected(density: Real, cells: usize, cell_size: Real) -> (r: usize)
    ensures
        r == spec_expected(density, cells, cell_size),
{
    density.mul(Real::from_count(cells as u64).mul(cell_size.mul(cell_size))).round_usize()
}

/// How many actors are to be generated: what is expected beyond those that are
/// known, on a cell each.
pub open spec fn target_count(expected: int, known: int, cells: int) -> int {
    let missing: int = if known < expected {
        expected - known
    } else {
        0
    };
    if missing < cells {
        missing
    } else {
        cells
    }
}

/// The identifier of a generated actor.
pub open spec fn synthetic_id(serial: nat) -> Seq<char> {
    "actor:synthetic:"@ + padded_decimal(serial, 6)
}

/// An actor made from an observed one.
pub open spec fn synthetic(
    template: EntityView,
    serial: nat,
    position: Point,
    heading: Real,
) -> EntityView {
    EntityView {
        id: synthetic_id(serial),
        position,
        heading_degrees: Some(heading),
        attributes: template.attributes.insert("synthetic"@, "true"@).insert(
            "population_model"@,
            "observed_actor_density"@,
        ).insert("sample_actor_id"@, template.id),
        ..template
    }
}

/// The actors generated on the cells from the `i`-th on, after those that were
/// generated before. Every cell draws an observed actor; where that one's body
/// fits, it is copied there with a random heading.
pub open spec fn generated_from(
    grid: &NavGrid,
    templates: Seq<EntityView>,
    cells: Seq<usize>,
    i: int,
    target: int,
    made: Seq<EntityView>,
    state: u64,
) -> Seq<EntityView>
    decreases cells.len() - i,
{
    if i >= cells.len() || made.len() == target {
        made
    } else {
        let drawn: u64 = xorshift(state);
        let template: EntityView = templates[drawn as int % templates.len() as int];
        let position: Point = cell_place(grid, cells[i] as int);
        if walkable(grid, position, template.collider) {
            let turned: u64 = xorshift(drawn);
            generated_from(
                grid,
                templates,
                cells,
                i + 1,
                target,
                made.push(
                    synthetic(
                        template,
                        made.len(),
                        position,
                        unit_of(turned).mul(Real::of(FULL_TURN)),
                    ),
                ),
                turned,
            )
        } else {
            generated_from(grid, templates, cells, i + 1, target, made, drawn)
        }
    }
}

/// What is known of a scene before actors are generated.
pub struct Census {
    pub templates: Seq<EntityView>,
    pub sensed: nat,
    pub unobserved: Seq<usize>,
    pub known: nat,
}

pub open spec fn census(scene: &Scene, agent: Point, radius_sq: Real) -> Census {
    let entities: Seq<EntityView> = views(scene.entities@);
    let cells: int = scene.grid.blocked@.len() as int;
    Census {
        templates: templates_of(entities, entities.len() as int, agent, radius_sq),
        sensed: sensed_count(&scene.grid, cells, agent, radius_sq),
        unobserved: unobserved_cells(&scene.grid, cells, agent, radius_sq),
        known: known_beyond(entities, entities.len() as int, agent, radius_sq),
    }
}

/// The actors that are generated for a scene, and the report.
pub open spec fn populated(scene: &Scene, radius: Real) -> (Seq<EntityView>, PopulationReport) {
    let blank: PopulationReport = PopulationReport {
        sensing_radius: radius,
        observed_actors: 0,
        synthetic_actors: 0,
        density_per_square_unit: Real::of(ZERO),
    };
    match agent_from(views(scene.entities@), 0) {
        Some(agent) if radius.finite() && !radius.le(Real::of(ZERO)) => {
            let c: Census = census(scene, agent, radius.mul(radius));
            let seen: PopulationReport = PopulationReport {
                observed_actors: c.templates.len() as usize,
                ..blank
            };
            if c.templates.len() == 0 || c.sensed == 0 || c.unobserved.len() == 0 {
                (Seq::empty(), seen)
            } else {
                let density: Real = spec_density(
                    c.templates.len() as usize,
                    c.sensed as usize,
                    scene.grid.cell_size,
                );
                let target: int = target_count(
                    spec_expected(
                        density,
                        c.unobserved.len() as usize,
                        scene.grid.cell_size,
                    ) as int,
                    c.known as int,
                    c.unobserved.len() as int,
                );
                let (cells, state): (Seq<usize>, u64) = shuffled(
                    c.unobserved,
                    c.unobserved.len() - 1,
                    seed_of(encode_utf8(scene.metadata.scene_id@)),
                );
                let made: Seq<EntityView> = generated_from(
                    &scene.grid,
                    c.templates,
                    cells,
                    0,
                    target,
                    Seq::empty(),
                    state,
                );
                (
                    made,
                    PopulationReport {
                        synthetic_actors: made.len() as usize,
                        density_per_square_unit: density,
                        ..seen
                    },
                )
            }
        },
        _ => (Seq::empty(), blank),
    }
}

/// Whether populating a scene gets as far as looking at its cells.
pub open spec fn surveys(scene: &Scene, radius: Real) -> bool {
    &&& radius.finite()
    &&& !radius.le(Real::of(ZERO))
    &&& match agent_from(views(scene.entities@), 0) {
        Some(agent) => census(scene, agent, radius.mul(radius)).templates.len() > 0,
        None => false,
    }
}

/// Whether populating a scene gets as far as placing actors.
pub open spec fn settles(scene: &Scene, radius: Real) -> bool {
    &&& surveys(scene, radius)
    &&& match agent_from(views(scene.entities@), 0) {
        Some(agent) => {
            let c: Census = census(scene, agent, radius.mul(radius));
            c.sensed > 0 && c.unobserved.len() > 0
        },
        None => false,
    }
}

fn observed_actors(entities: &Vec<Entity>, agent: Point, radius_sq: Real) -> (r: Vec<Entity>)
    ensures
        views(r@) == templates_of(views(entities@), entities@.len() as int, agent, radius_sq),
{
    let mut r: Vec<Entity> = Vec::new();
    let mut n: usize = 0;
    proof {
        assert(views(r@) =~= Seq::empty());
    }
    while n < entities.len()
        invariant
            n <= entities@.len(),
            views(r@) == templates_of(views(entities@), n as int, agent, radius_sq),
        decreases entities@.len() - n,
    {
        let entity: &Entity = &entities[n];
        if has_category(entity, "actor") && distance_sq(entity.position, agent).le(radius_sq) {
            let ghost before: Seq<Entity> = r@;
            let copy: Entity = entity.clone();
            r.push(copy);
            proof {
                assert(views(r@) =~= views(before).push(entity@));
            }
        }
        n = n + 1;
    }
    r
}

fn actors_beyond(entities: &Vec<Entity>, agent: Point, radius_sq: Real) -> (r: usize)
    ensures
        r == known_beyond(views(entities@), entities@.len() as int, agent, radius_sq),
{
    let mut r: usize = 0;
    let mut n: usize = 0;
    while n < entities.len()
        invariant
            n <= entities@.len(),
            r <= n,
            r == known_beyond(views(entities@), n as int, agent, radius_sq),
        decreases entities@.len() - n,
    {
        let entity: &Entity = &entities[n];
        if has_category(entity, "actor") && radius_sq.lt(distance_sq(entity.position, agent)) {
            r = r + 1;
        }
        n = n + 1;
    }
    r
}

/// Counts the sensed walkable cells and collects the unobserved ones.
fn survey(grid: &NavGrid, agent: Point, radius_sq: Real) -> (r: (usize, Vec<usize>))
    requires
        grid.blocked@.len() > 0 ==> grid.width > 0,
    ensures
        r.0 == sensed_count(grid, grid.blocked@.len() as int, agent, radius_sq),
        r.1@ == unobserved_cells(grid, grid.blocked@.len() as int, agent, radius_sq),
{
    let mut sensed: usize = 0;
    let mut unobserved: Vec<usize> = Vec::new();
    let mut n: usize = 0;
    while n < grid.blocked.len()
        invariant
            grid.blocked@.len() > 0 ==> grid.width > 0,
            n <= grid.blocked@.len(),
            sensed <= n,
            sensed == sensed_count(grid, n as int, agent, radius_sq),
            unobserved@ == unobserved_cells(grid, n as int, agent, radius_sq),
        decreases grid.blocked@.len() - n,
    {
        if grid.blocked[n] == 0 {
            let place: Point = grid.center(n % grid.width, n / grid.width);
            if distance_sq(place, agent).le(radius_sq) {
                sensed = sensed + 1;
            } else {
                unobserved.push(n);
            }
        }
        n = n + 1;
    }
    (sensed, unobserved)
}

/// An actor made from an observed one.
fn synthesize(template: &Entity, serial: usize, position: Point, heading: Real) -> (r: Entity)
    ensures
        r@ == synthetic(template@, serial as nat, position, heading),
{
    let mut id: String = String::from_str("actor:synthetic:");
    append_padded(&mut id, serial, 6);
    let mut attributes: Attributes = template.attributes.clone();
    attributes.insert(String::from_str("synthetic"), String::from_str("true"));
    attributes.insert(
        String::from_str("population_model"),
        String::from_str("observed_actor_density"),
    );
    attributes.insert(String::from_str("sample_actor_id"), template.id.clone());
    let copy: Entity = template.clone();
    Entity { id, position, heading_degrees: Some(heading), attributes, ..copy }
}

/// Generates actors on shuffled cells.
fn generate(
    grid: &NavGrid,
    templates: &Vec<Entity>,
    cells: &Vec<usize>,
    target: usize,
    seed: u64,
) -> (r: Vec<Entity>)
    requires
        covered(grid),
        grid.width > 0,
        grid.height > 0,
        templates@.len() > 0,
    ensures
        views(r@) == generated_from(
            grid,
            views(templates@),
            cells@,
            0,
            target as int,
            Seq::empty(),
            seed,
        ),
{
    let mut r: Vec<Entity> = Vec::new();
    let mut state: u64 = seed;
    let ghost whole: Seq<EntityView> = generated_from(
        grid,
        views(templates@),
        cells@,
        0,
        target as int,
        Seq::empty(),
        seed,
    );
    proof {
        assert(views(r@) =~= Seq::empty());
    }
    let mut i: usize = 0;
    while i < cells.len() && r.len() != target
        invariant
            covered(grid),
            grid.width > 0,
            grid.height > 0,
            templates@.len() > 0,
            i <= cells@.len(),
            views(r@).len() == r@.len(),
            whole == generated_from(
                grid,
                views(templates@),
                cells@,
                0,
                target as int,
                Seq::empty(),
                seed,
            ),
            whole == generated_from(
                grid,
                views(templates@),
                cells@,
                i as int,
                target as int,
                views(r@),
                state,
            ),
        decreases cells@.len() - i,
    {
        let choice: usize = next_index(&mut state, templates.len());
        let template: &Entity = &templates[choice];
        let cell: usize = cells[i];
        let position: Point = grid.center(cell % grid.width, cell / grid.width);
        proof {
            assert(views(templates@)[choice as int] == template@);
            assert(views(templates@).len() == templates@.len());
        }
        if position_is_walkable(grid, position, template.collider) {
            let heading: Real = next_unit(&mut state).mul(Real::of(FULL_TURN));
            let ghost before: Seq<Entity> = r@;
            let actor: Entity = synthesize(template, r.len(), position, heading);
            proof {
                assert(views(before).push(actor@) =~= views(before.push(actor)));
            }
            r.push(actor);
        }
        i = i + 1;
    }
    r
}

/// Populates the unobserved part of a scene using the empirical actor density
/// and archetype mix inside `sensing_radius` around the agent.
///
/// Loaded actors are authoritative and never replaced. Generated actors are
/// placed only in walkable cells outside the sensed circle and live only in the
/// in-memory scene.
pub fn synthetically_populate_actors(scene: &mut Scene, sensing_radius: Real) -> (report:
    PopulationReport)
    requires
        surveys(old(scene), sensing_radius) && old(scene).grid.blocked@.len() > 0
            ==> old(scene).grid.width > 0,
        settles(old(scene), sensing_radius) ==> covered(&old(scene).grid) && old(
            scene,
        ).grid.height > 0,
    ensures
        report == populated(old(scene), sensing_radius).1,
        final(scene).metadata == old(scene).metadata,
        final(scene).grid == old(scene).grid,
        final(scene).prefab_collisions == old(scene).prefab_collisions,
        final(scene).placements == old(scene).placements,
        !settles(old(scene), sensing_radius) ==> final(scene).entities@ == old(scene).entities@,
        settles(old(scene), sensing_radius) ==> {
            let all: Seq<EntityView> = views(old(scene).entities@) + populated(
                old(scene),
                sensing_radius,
            ).0;
            views(final(scene).entities@) == listed(all, all.len() as int)
        },
{
    let mut report: PopulationReport = PopulationReport {
        sensing_radius,
        observed_actors: 0,
        synthetic_actors: 0,
        density_per_square_unit: Real::of(ZERO),
    };
    if !sensing_radius.is_finite() || sensing_radius.le(Real::of(ZERO)) {
        return report;
    }
    let agent: Point = match agent_position(&scene.entities) {
        Some(agent) => agent,
        None => {
            return report;
        },
    };
    let radius_sq: Real = sensing_radius.mul(sensing_radius);
    let templates: Vec<Entity> = observed_actors(&scene.entities, agent, radius_sq);
    proof {
        assert(views(templates@).len() == templates@.len());
        assert(views(scene.entities@).len() == scene.entities@.len());
    }
    report.observed_actors = templates.len();
    if templates.len() == 0 {
        return report;
    }
    let (sensed, unobserved): (usize, Vec<usize>) = survey(&scene.grid, agent, radius_sq);
    if sensed == 0 || unobserved.len() == 0 {
        return report;
    }
    let mut cells: Vec<usize> = unobserved;
    report.density_per_square_unit = density(templates.len(), sensed, scene.grid.cell_size);
    let wanted: usize = expected(
        report.density_per_square_unit,
        cells.len(),
        scene.grid.cell_size,
    );
    let known: usize = actors_beyond(&scene.entities, agent, radius_sq);
    let missing: usize = if known < wanted {
        wanted - known
    } else {
        0
    };
    let target: usize = if missing < cells.len() {
        missing
    } else {
        cells.len()
    };
    let mut state: u64 = seed_from_id(scene.metadata.scene_id.as_str());
    shuffle(&mut cells, &mut state);
    let generated: Vec<Entity> = generate(&scene.grid, &templates, &cells, target, state);
    report.synthetic_actors = generated.len();
    let ghost made: Seq<EntityView> = views(generated@);
    let ghost loaded: Seq<EntityView> = views(scene.entities@);
    let mut fresh: Vec<Entity> = generated;
    scene.entities.append(&mut fresh);
    proof {
        assert(made.len() == report.synthetic_actors);
        assert(views(scene.entities@) =~= loaded + made);
    }
    list_entities(&mut scene.entities);
    report
}

/// Whether a generated actor stands where one may: in the middle of one of the
/// given cells, where its body fits.
pub open spec fn well_placed(grid: &NavGrid, cells: Seq<usize>, actor: EntityView) -> bool {
    &&& actor.category == "actor"@
    &&& actor.attributes.dom().contains("synthetic"@)
    &&& walkable(grid, actor.position, actor.collider)
    &&& exists|i: int|
        0 <= i < cells.len() && actor.position == cell_place(grid, #[trigger] cells[i] as int)
}

proof fn lemma_generated_placed(
    grid: &NavGrid,
    templates: Seq<EntityView>,
    cells: Seq<usize>,
    i: int,
    target: int,
    made: Seq<EntityView>,
    state: u64,
)
    requires
        0 <= i,
        templates.len() > 0,
        forall|t: int| 0 <= t < templates.len() ==> (#[trigger] templates[t]).category == "actor"@,
        forall|k: int| 0 <= k < made.len() ==> well_placed(grid, cells, #[trigger] made[k]),
        made.len() <= target,
    ensures
        ({
            let all: Seq<EntityView> = generated_from(
                grid,
                templates,
                cells,
                i,
                target,
                made,
                state,
            );
            &&& all.len() <= target
            &&& forall|k: int| 0 <= k < all.len() ==> well_placed(grid, cells, #[trigger] all[k])
        }),
    decreases cells.len() - i,
{
    if i < cells.len() && made.len() != target {
        let drawn: u64 = xorshift(state);
        let template: EntityView = templates[drawn as int % templates.len() as int];
        let position: Point = cell_place(grid, cells[i] as int);
        if walkable(grid, position, template.collider) {
            let turned: u64 = xorshift(drawn);
            let actor: EntityView = synthetic(
                template,
                made.len(),
                position,
                unit_of(turned).mul(Real::of(FULL_TURN)),
            );
            assert(well_placed(grid, cells, actor));
            lemma_generated_placed(
                grid,
                templates,
                cells,
                i + 1,
                target,
                made.push(actor),
                turned,
            );
        } else {
            lemma_generated_placed(grid, templates, cells, i + 1, target, made, drawn);
        }
    }
}

proof fn lemma_templates_are_actors(
    entities: Seq<EntityView>,
    n: int,
    agent: Point,
    radius_sq: Real,
)
    requires
        0 <= n <= entities.len(),
    ensures
        forall|t: int|
            0 <= t < templates_of(entities, n, agent, radius_sq).len() ==> (
            #[trigger] templates_of(entities, n, agent, radius_sq)[t]).category == "actor"@,
    decreases n,
{
    if n > 0 {
        lemma_templates_are_actors(entities, n - 1, agent, radius_sq);
    }
}

proof fn lemma_unobserved(grid: &NavGrid, n: int, agent: Point, radius_sq: Real)
    requires
        0 <= n <= usize::MAX,
    ensures
        forall|i: int|
            0 <= i < unobserved_cells(grid, n, agent, radius_sq).len() ==> {
                let cell: usize = #[trigger] unobserved_cells(grid, n, agent, radius_sq)[i];
                cell < n && unobserved_cell(grid, cell as int, agent, radius_sq)
            },
    decreases n,
{
    if n > 0 {
        lemma_unobserved(grid, n - 1, agent, radius_sq);
        let rest: Seq<usize> = unobserved_cells(grid, n - 1, agent, radius_sq);
        assert forall|i: int| 0 <= i < unobserved_cells(grid, n, agent, radius_sq).len() implies {
            let cell: usize = #[trigger] unobserved_cells(grid, n, agent, radius_sq)[i];
            cell < n && unobserved_cell(grid, cell as int, agent, radius_sq)
        } by {
            if i < rest.len() {
                assert(unobserved_cells(grid, n, agent, radius_sq)[i] == rest[i]);
            }
        }
    }
}

/// Generated actors stand in the middles of unobserved walkable cells, outside
/// the sensed circle, where their bodies fit; and there are no more of them
/// than the density makes one expect beyond the actors that are known.
pub proof fn lemma_population_is_unobserved(scene: &Scene, radius: Real, k: int)
    requires
        0 <= k < populated(scene, radius).0.len(),
        scene.grid.blocked@.len() <= usize::MAX,
    ensures
        ({
            let actor: EntityView = populated(scene, radius).0[k];
            let agent: Point = agent_from(views(scene.entities@), 0).unwrap();
            let c: Census = census(scene, agent, radius.mul(radius));
            &&& actor.category == "actor"@
            &&& walkable(&scene.grid, actor.position, actor.collider)
            &&& exists|cell: int|
                {
                    &&& 0 <= cell < scene.grid.blocked@.len()
                    &&& #[trigger] unobserved_cell(
                        &scene.grid,
                        cell,
                        agent,
                        radius.mul(radius),
                    )
                    &&& actor.position == cell_place(&scene.grid, cell)
                }
            &&& populated(scene, radius).0.len() <= target_count(
                spec_expected(
                    populated(scene, radius).1.density_per_square_unit,
                    c.unobserved.len() as usize,
                    scene.grid.cell_size,
                ) as int,
                c.known as int,
                c.unobserved.len() as int,
            )
        }),
{
    let agent: Point = agent_from(views(scene.entities@), 0).unwrap();
    let radius_sq: Real = radius.mul(radius);
    let c: Census = census(scene, agent, radius_sq);
    let density: Real = spec_density(
        c.templates.len() as usize,
        c.sensed as usize,
        scene.grid.cell_size,
    );
    let target: int = target_count(
        spec_expected(density, c.unobserved.len() as usize, scene.grid.cell_size) as int,
        c.known as int,
        c.unobserved.len() as int,
    );
    let seed: u64 = seed_of(encode_utf8(scene.metadata.scene_id@));
    let (cells, state): (Seq<usize>, u64) = shuffled(
        c.unobserved,
        c.unobserved.len() - 1,
        seed,
    );
    lemma_templates_are_actors(
        views(scene.entities@),
        views(scene.entities@).len() as int,
        agent,
        radius_sq,
    );
    lemma_generated_placed(&scene.grid, c.templates, cells, 0, target, Seq::empty(), state);
    let actor: EntityView = populated(scene, radius).0[k];
    assert(well_placed(&scene.grid, cells, actor));
    let i: int = choose|i: int|
        0 <= i < cells.len() && actor.position == cell_place(
            &scene.grid,
            #[trigger] cells[i] as int,
        );
    lemma_shuffled_permutes(c.unobserved, c.unobserved.len() - 1, seed);
    lemma_unobserved(&scene.grid, scene.grid.blocked@.len() as int, agent, radius_sq);
    cells.to_multiset_ensures();
    c.unobserved.to_multiset_ensures();
    assert(cells.contains(cells[i]));
    assert(c.unobserved.to_multiset().count(cells[i]) > 0);
    assert(c.unobserved.contains(cells[i]));
    let j: int = choose|j: int| 0 <= j < c.unobserved.len() && c.unobserved[j] == cells[i];
    assert(unobserved_cell(&scene.grid, c.unobserved[j] as int, agent, radius_sq));
}

/// Whether actors are numbered, and stand in the cells with the given places in
/// a list, each farther on in it.
spec fn spread_out(
    grid: &NavGrid,
    cells: Seq<usize>,
    made: Seq<EntityView>,
    places: Seq<int>,
    n: int,
) -> bool {
    &&& places.len() == made.len()
    &&& forall|k: int|
        0 <= k < made.len() ==> {
            &&& 0 <= #[trigger] places[k] < n
            &&& made[k].position == cell_place(grid, cells[places[k]] as int)
            &&& made[k].id == synthetic_id(k as nat)
        }
    &&& forall|j: int, k: int|
        0 <= j < k < made.len() ==> #[trigger] places[j] < #[trigger] places[k]
}

proof fn lemma_generated_spread(
    grid: &NavGrid,
    templates: Seq<EntityView>,
    cells: Seq<usize>,
    i: int,
    target: int,
    made: Seq<EntityView>,
    state: u64,
    places: Seq<int>,
) -> (all: Seq<int>)
    requires
        0 <= i <= cells.len(),
        spread_out(grid, cells, made, places, i),
    ensures
        spread_out(
            grid,
            cells,
            generated_from(grid, templates, cells, i, target, made, state),
            all,
            cells.len() as int,
        ),
    decreases cells.len() - i,
{
    if i < cells.len() && made.len() != target {
        let drawn: u64 = xorshift(state);
        let template: EntityView = templates[drawn as int % templates.len() as int];
        let position: Point = cell_place(grid, cells[i] as int);
        if walkable(grid, position, template.collider) {
            let turned: u64 = xorshift(drawn);
            let actor: EntityView = synthetic(
                template,
                made.len(),
                position,
                unit_of(turned).mul(Real::of(FULL_TURN)),
            );
            let more: Seq<EntityView> = made.push(actor);
            let further: Seq<int> = places.push(i);
            assert forall|k: int| 0 <= k < more.len() implies {
                &&& 0 <= #[trigger] further[k] < i + 1
                &&& more[k].position == cell_place(grid, cells[further[k]] as int)
                &&& more[k].id == synthetic_id(k as nat)
            } by {
                if k < made.len() {
                    assert(further[k] == places[k] && more[k] == made[k]);
                } else {
                    assert(further[k] == i && more[k] == actor);
                }
            }
            assert forall|j: int, k: int|
                0 <= j < k < more.len() implies #[trigger] further[j] < #[trigger] further[k] by {
                assert(further[j] == places[j]);
                if k < made.len() {
                    assert(further[k] == places[k]);
                }
            }
            lemma_generated_spread(grid, templates, cells, i + 1, target, more, turned, further)
        } else {
            lemma_generated_spread(grid, templates, cells, i + 1, target, made, drawn, places)
        }
    } else {
        places
    }
}

proof fn lemma_unobserved_ascend(grid: &NavGrid, n: int, agent: Point, radius_sq: Real)
    requires
        0 <= n <= usize::MAX,
    ensures
        unobserved_cells(grid, n, agent, radius_sq).no_duplicates(),
    decreases n,
{
    if n > 0 {
        lemma_unobserved_ascend(grid, n - 1, agent, radius_sq);
        lemma_unobserved(grid, n - 1, agent, radius_sq);
    }
}

/// No two generated actors have the same identifier or stand in the same cell,
/// so that they stand apart wherever the middles of cells do.
pub proof fn lemma_population_differs(scene: &Scene, radius: Real, j: int, k: int)
    requires
        0 <= j < k < populated(scene, radius).0.len(),
        scene.grid.blocked@.len() <= usize::MAX,
    ensures
        ({
            let made: Seq<EntityView> = populated(scene, radius).0;
            &&& made[j].id != made[k].id
            &&& exists|a: int, b: int|
                {
                    &&& a != b
                    &&& 0 <= a < scene.grid.blocked@.len()
                    &&& 0 <= b < scene.grid.blocked@.len()
                    &&& made[j].position == #[trigger] cell_place(&scene.grid, a)
                    &&& made[k].position == #[trigger] cell_place(&scene.grid, b)
                }
        }),
{
    let agent: Point = agent_from(views(scene.entities@), 0).unwrap();
    let radius_sq: Real = radius.mul(radius);
    let c: Census = census(scene, agent, radius_sq);
    let density: Real = spec_density(
        c.templates.len() as usize,
        c.sensed as usize,
        scene.grid.cell_size,
    );
    let target: int = target_count(
        spec_expected(density, c.unobserved.len() as usize, scene.grid.cell_size) as int,
        c.known as int,
        c.unobserved.len() as int,
    );
    let seed: u64 = seed_of(encode_utf8(scene.metadata.scene_id@));
    let (cells, state): (Seq<usize>, u64) = shuffled(
        c.unobserved,
        c.unobserved.len() - 1,
        seed,
    );
    let places: Seq<int> = lemma_generated_spread(
        &scene.grid,
        c.templates,
        cells,
        0,
        target,
        Seq::empty(),
        state,
        Seq::empty(),
    );
    let made: Seq<EntityView> = populated(scene, radius).0;
    assert(spread_out(&scene.grid, cells, made, places, cells.len() as int));
    assert(places[j] < places[k]);
    lemma_shuffled_permutes(c.unobserved, c.unobserved.len() - 1, seed);
    lemma_unobserved_ascend(&scene.grid, scene.grid.blocked@.len() as int, agent, radius_sq);
    c.unobserved.lemma_multiset_has_no_duplicates();
    cells.lemma_multiset_has_no_duplicates_conv();
    assert(cells[places[j]] != cells[places[k]]);
    lemma_unobserved(&scene.grid, scene.grid.blocked@.len() as int, agent, radius_sq);
    assert forall|i: int| 0 <= i < cells.len() implies #[trigger] cells[i]
        < scene.grid.blocked@.len() by {
        cells.to_multiset_ensures();
        c.unobserved.to_multiset_ensures();
        assert(cells.contains(cells[i]));
        assert(c.unobserved.to_multiset().count(cells[i]) > 0);
        assert(c.unobserved.contains(cells[i]));
    }
    assert(made[j].id != made[k].id) by {
        if made[j].id == made[k].id {
            let head: Seq<char> = "actor:synthetic:"@;
            assert(padded_decimal(j as nat, 6) =~= made[j].id.skip(head.len() as int));
            assert(padded_decimal(k as nat, 6) =~= made[k].id.skip(head.len() as int));
            lemma_padded_decimal_differs(j as nat, k as nat, 6);
        }
    }
    assert(made[j].position == cell_place(&scene.grid, cells[places[j]] as int));
    assert(made[k].position == cell_place(&scene.grid, cells[places[k]] as int));
}

/// Populating a scene keeps every loaded entity as it is: afterwards the scene
/// lists, in order, exactly the loaded entities and the generated actors.
pub proof fn lemma_population_keeps_loaded(loaded: Seq<EntityView>, made: Seq<EntityView>)
    ensures
        ({
            let all: Seq<EntityView> = loaded + made;
            let list: Seq<EntityView> = listed(all, all.len() as int);
            &&& list.to_multiset() == loaded.to_multiset().add(made.to_multiset())
            &&& list.len() == loaded.len() + made.len()
            &&& in_listing_order(list)
        }),
{
    let all: Seq<EntityView> = loaded + made;
    lemma_listed(all, all.len() as int);
    assert(all.take(all.len() as int) =~= all);
    vstd::seq_lib::lemma_multiset_commutative(loaded, made);
}

} // verus!
