//! How far wandering actors get: by the time, and from home.
use vstd::arithmetic::power2::*;
use vstd::prelude::*;
use vstd::utf8::encode_utf8;

use crate::census::{lemma_sensed_is_within_the_radius, lies_within, near};
use crate::crossing::{cell_unit, lemma_large_unit};
use crate::geometry::{distance_sq, Point, ONE, ZERO};
use crate::nearness::{
    bounding, lemma_close_product, lemma_distance_sq, lemma_unit_is_nothing, modest, reaches,
    size_of, within_bound,
};
use crate::number::Real;
use crate::ordering::{lemma_mul_monotone, lemma_value_order};
use crate::pace::strode;
use crate::random::{seed_of, unit_of};
use crate::roots::lemma_quotient_at_most_one;
use crate::scene::{Entity, NavGrid};
use crate::shortest::{lemma_count, lemma_count_below, lemma_count_order, lemma_step_lengths};
use crate::turning::{lemma_stride_is_short, no_farther_apart};
use crate::unit::{lemma_quotient_error, lemma_quotient_error_below, lemma_size_of_zero};
use crate::wander::{
    keeps_bounds, newcomer, newcomers, spec_strolled, WanderSimulation, Wanderer, LONGEST_STEP,
};

verus! {

/// A tenth is written with a little more than one.
proof fn lemma_tenth()
    ensures
        ({
            let tenth: Real = Real::of(LONGEST_STEP);
            &&& modest(tenth)
            &&& tenth.finite()
            &&& cell_unit() <= 10 * tenth.value()
            &&& 0x20_0000_0000_0000 * (10 * tenth.value() - cell_unit()) <= cell_unit()
        }),
{
    let tenth: Real = Real::of(LONGEST_STEP);
    let u: int = cell_unit();
    lemma2_to64();
    lemma2_to64_rest();
    assert(tenth.significand() == 0x19_9999_9999_999a && tenth.exponent() == -56);
    lemma_pow2_adds(56, 1018);
    let a: int = pow2(1018) as int;
    lemma_pow2_pos(1018);
    assert(u == 0x100_0000_0000_0000 * a);
    assert(tenth.value() == 0x19_9999_9999_999a * a);
}

/// The time that one step simulates is the time that has passed, or a tenth of a second
/// where that is less.
pub proof fn lemma_step_is_cut_off(dt: Real)
    requires
        dt.finite(),
    ensures
        ({
            let step: Real = dt.min(Real::of(LONGEST_STEP));
            &&& step.finite()
            &&& step.value() <= dt.value()
            &&& 10 * dt.value() <= cell_unit() ==> step == dt
            &&& cell_unit() <= 10 * dt.value() ==> cell_unit() <= 10 * step.value()
            &&& 0x20_0000_0000_0000 * (10 * step.value() - cell_unit()) <= cell_unit()
        }),
{
    let tenth: Real = Real::of(LONGEST_STEP);
    lemma_tenth();
    lemma_value_order(dt, tenth);
    lemma_value_order(tenth, dt);
    lemma_large_unit();
}

/// How far an actor goes in one step is its speed by the time that is simulated, up to one
/// part in `2^53` and half a unit; at no speed it does not go at all.
pub proof fn lemma_stride_is_speed_by_time(simulation: WanderSimulation, dt: Real)
    requires
        modest(simulation.speed),
        modest(dt),
        dt.value() > 0,
    ensures
        ({
            let stride: Real = simulation.stride(dt);
            let step: Real = dt.min(Real::of(LONGEST_STEP));
            let u: int = cell_unit();
            &&& stride.finite()
            &&& stride.value() >= 0
            &&& simulation.speed.value() >= 0 ==> 0x20_0000_0000_0000 * size_of(
                stride.value() * u - simulation.speed.value() * step.value(),
            ) <= stride.value() * u + 0x20_0000_0000_0000 * u
            &&& simulation.speed.value() <= 0 ==> stride.value() == 0
        }),
{
    let zero: Real = Real::of(ZERO);
    let step: Real = dt.min(Real::of(LONGEST_STEP));
    let speed: Real = simulation.speed.max(zero);
    assert(zero.magnitude() == 0);
    lemma_size_of_zero(zero);
    lemma_tenth();
    lemma_large_unit();
    lemma_value_order(zero, simulation.speed);
    lemma_value_order(simulation.speed, zero);
    lemma_close_product(speed, step);
    lemma_value_order(zero, speed);
    lemma_value_order(zero, step);
    lemma_mul_monotone(speed, speed, step, step);
    lemma_value_order(zero, speed.mul(step));
    if simulation.speed.value() <= 0 {
        lemma_value_order(speed, zero);
        assert(speed.magnitude() == 0);
        assert(speed.mul(step).magnitude() == 0) by {
            reveal(Real::spec_mul);
            let m: nat = speed.significand() * step.significand();
            assert(m == 0) by (nonlinear_arith)
                requires
                    m == speed.significand() * step.significand(),
                    speed.significand() == 0,
            ;
        }
        lemma_size_of_zero(speed.mul(step));
    }
}

/// Whether one point is no farther from another than a third, up to 512 parts in `2^53`
/// of the square of a bound.
pub open spec fn no_farther(now: Point, was: Point, home: Point, most: int) -> bool {
    let nx: int = now.x.value() - home.x.value();
    let nz: int = now.z.value() - home.z.value();
    let wx: int = was.x.value() - home.x.value();
    let wz: int = was.z.value() - home.z.value();
    0x20_0000_0000_0000 * ((nx * nx + nz * nz) - (wx * wx + wz * wz)) <= 512 * (most * most)
}

/// An actor that wanders goes no farther than its speed takes it in the simulated time, and
/// ends within the home radius around its spawn or no farther from the spawn than it was.
/// Exact distances are meant; both hold up to a sliver.
pub proof fn lemma_wanderer_goes_no_farther(
    simulation: WanderSimulation,
    dt: Real,
    grid: &NavGrid,
    actor: Wanderer,
    before: Entity,
    after: Entity,
    most: int,
)
    requires
        keeps_bounds(simulation, dt, grid, actor, before, after),
        bounding(most),
        within_bound(before.position, most),
        within_bound(after.position, most),
        within_bound(actor.spawn, most),
        reaches(simulation.reach(), most),
        reaches(simulation.stride(dt), most),
        simulation.stride(dt).value() >= 0,
    ensures
        no_farther_apart(before.position, after.position, simulation.stride(dt), most)
            || after.position == before.position,
        lies_within(after.position, actor.spawn, simulation.reach(), most) || no_farther(
            after.position,
            before.position,
            actor.spawn,
            most,
        ),
{
    let u: int = cell_unit();
    lemma_large_unit();
    lemma_unit_is_nothing(most);
    lemma2_to64_rest();
    assert(most * most >= 0) by (nonlinear_arith);
    if after.position != before.position {
        assert(spec_strolled(before.position, actor.direction, simulation.stride(dt)) == strode(
            before.position,
            actor.direction,
            simulation.stride(dt),
        ));
        lemma_stride_is_short(before.position, actor.direction, simulation.stride(dt), 16, most);
        lemma_sensed_is_within_the_radius(
            after.position,
            actor.spawn,
            simulation.reach(),
            most,
        );
        let was: Real = distance_sq(before.position, actor.spawn);
        let now: Real = distance_sq(after.position, actor.spawn);
        lemma_distance_sq(before.position, actor.spawn, most);
        lemma_distance_sq(after.position, actor.spawn, most);
        lemma_value_order(now, was);
        assert(now.value() <= was.value() ==> now.value() * u <= was.value() * u)
            by (nonlinear_arith)
            requires
                u > 0,
        ;
    }
}

/// Whether wanderers are just the actors among entities: one each, in their order, each at
/// its spawn and with the seed that its identifier gives.
pub open spec fn wanderers_are_of(wanderers: Seq<Wanderer>, entities: Seq<Entity>) -> bool {
    &&& forall|i: int, j: int|
        0 <= i < j < wanderers.len() ==> (#[trigger] wanderers[i]).entity_index < (
        #[trigger] wanderers[j]).entity_index
    &&& forall|i: int|
        0 <= i < wanderers.len() ==> {
            let at: int = (#[trigger] wanderers[i]).entity_index as int;
            &&& 0 <= at < entities.len()
            &&& entities[at].category@ == "actor"@
            &&& wanderers[i].spawn == entities[at].position
            &&& wanderers[i].spawn_heading == entities[at].heading_degrees
            &&& wanderers[i].random_state == seed_of(encode_utf8(entities[at].id@))
        }
    &&& forall|at: int|
        0 <= at < entities.len() && (#[trigger] entities[at]).category@ == "actor"@ ==> exists|i: int|
            0 <= i < wanderers.len() && (#[trigger] wanderers[i]).entity_index == at
}

/// Every actor of a scene wanders, one wanderer for each and none for anything else,
/// starting from where the actor stands.
pub proof fn lemma_every_actor_wanders(entities: Seq<Entity>)
    requires
        entities.len() <= usize::MAX,
    ensures
        wanderers_are_of(newcomers(entities, entities.len() as int), entities),
{
    lemma_first_actors_wander(entities, entities.len() as int);
    assert(entities.take(entities.len() as int) =~= entities);
}

proof fn lemma_first_actors_wander(entities: Seq<Entity>, n: int)
    requires
        0 <= n <= entities.len() <= usize::MAX,
    ensures
        wanderers_are_of(newcomers(entities, n), entities.take(n)),
    decreases n,
{
    if n > 0 {
        lemma_first_actors_wander(entities, n - 1);
        let before: Seq<Wanderer> = newcomers(entities, n - 1);
        let all: Seq<Wanderer> = newcomers(entities, n);
        let first: Seq<Entity> = entities.take(n);
        let fewer: Seq<Entity> = entities.take(n - 1);
        assert forall|i: int| 0 <= i < all.len() implies {
            let at: int = (#[trigger] all[i]).entity_index as int;
            &&& 0 <= at < first.len()
            &&& first[at].category@ == "actor"@
            &&& all[i].spawn == first[at].position
            &&& all[i].spawn_heading == first[at].heading_degrees
            &&& all[i].random_state == seed_of(encode_utf8(first[at].id@))
        } by {
            if i < before.len() {
                assert(all[i] == before[i]);
                let at: int = before[i].entity_index as int;
                assert(first[at] == fewer[at]);
            } else {
                assert(all[i] == newcomer(entities[n - 1], n - 1));
            }
        }
        assert forall|at: int|
            0 <= at < first.len() && (#[trigger] first[at]).category@ == "actor"@ implies exists|i: int|
            0 <= i < all.len() && (#[trigger] all[i]).entity_index == at by {
            if at < n - 1 {
                assert(fewer[at] == first[at]);
                let i: int = choose|i: int|
                    0 <= i < before.len() && (#[trigger] before[i]).entity_index == at;
                assert(all[i] == before[i]);
            } else {
                assert(all[before.len() as int].entity_index == at);
            }
        }
    }
}

/// A number drawn from the unit interval lies in it, and is the share of the largest state
/// that the generator's state is, up to eight parts in `2^53`.
pub proof fn lemma_drawn_unit_is_a_share(state: u64)
    ensures
        ({
            let drawn: Real = unit_of(state);
            let u: int = cell_unit();
            &&& drawn.finite()
            &&& 0 <= drawn.value() <= u
            &&& near(drawn.value() * 0x1_0000_0000_0000_0000, state * u, 16)
        }),
{
    let u: int = cell_unit();
    let x: Real = Real::from_count(state);
    let l: Real = Real::from_count(u64::MAX);
    let one: Real = Real::of(ONE);
    let d: Real = unit_of(state);
    lemma_large_unit();
    lemma_step_lengths();
    lemma2_to64_rest();
    lemma_count(state);
    lemma_count(u64::MAX);
    lemma_count_below(u64::MAX);
    lemma_count_order(state, u64::MAX);
    lemma_quotient_at_most_one(x, l);
    assert(!d.negative()) by {
        reveal(Real::spec_div);
    }
    lemma_value_order(d, one);
    let su: int = state * u;
    let top: Real = Real { bits: 0x43f0_0000_0000_0000 };
    lemma_value_order(l, top);
    lemma_top_count(top);
    if state == 0 {
        assert(x.magnitude() == 0);
        assert(d.magnitude() == 0) by {
            reveal(Real::spec_div);
        }
        lemma_size_of_zero(d);
        assert(su == 0) by (nonlinear_arith)
            requires
                su == state * u,
                state == 0,
        ;
    } else {
        lemma_quotient_error(x, l);
        lemma_quotient_error_below(x, l);
        lemma_pow2_adds(64, 53);
        lemma_pow2_strictly_increases(117, 1074);
        lemma_unit_ints(u, state as int, x.value(), l.value(), d.value());
    }
}

proof fn lemma_top_count(top: Real)
    requires
        top.bits == 0x43f0_0000_0000_0000,
    ensures
        top.value() == 0x1_0000_0000_0000_0000 * cell_unit(),
{
    lemma2_to64();
    lemma2_to64_rest();
    assert(top.significand() == 0x10_0000_0000_0000 && top.exponent() == 12);
    lemma_pow2_adds(12, 1074);
    assert(pow2(12) == 0x1000);
}

proof fn lemma_unit_ints(u: int, n: int, x: int, l: int, d: int)
    requires
        u >= 0x100_0000_0000_0000,
        u >= 0x1_0000_0000_0000_0000 * 0x20_0000_0000_0000,
        1 <= n,
        d >= 0,
        0x1f_ffff_ffff_ffff * x <= 0x20_0000_0000_0000 * (n * u),
        0x20_0000_0000_0000 * (n * u) <= 0x20_0000_0000_0001 * x,
        l <= 0x1_0000_0000_0000_0000 * u,
        0x20_0000_0000_0000 * (0xffff_ffff_ffff_ffff * u) <= 0x20_0000_0000_0001 * l,
        0x1f_ffff_ffff_ffff * (d * l) <= 0x20_0000_0000_0001 * (x * u) + 0x20_0000_0000_0000 * l,
        0x1f_ffff_ffff_ffff * (x * u) <= 0x20_0000_0000_0001 * (d * l) + 0x20_0000_0000_0000 * l,
    ensures
        near(d * 0x1_0000_0000_0000_0000, n * u, 16),
{
    let many: int = 0x1_0000_0000_0000_0000;
    let nu: int = n * u;
    let du: int = d * u;
    let dl: int = d * l;
    let xu: int = x * u;
    let nuu: int = nu * u;
    let uu: int = u * u;
    assert(nu >= u && nuu >= uu && du >= 0 && uu > 0) by (nonlinear_arith)
        requires
            nu == n * u,
            nuu == nu * u,
            uu == u * u,
            du == d * u,
            n >= 1,
            d >= 0,
            u > 0,
    ;
    assert(0x100_0000_0000_0000 * u <= uu) by (nonlinear_arith)
        requires
            uu == u * u,
            u >= 0x100_0000_0000_0000,
    ;
    assert(dl <= many * du) by (nonlinear_arith)
        requires
            dl == d * l,
            du == d * u,
            l <= many * u,
            d >= 0,
    ;
    assert(0x20_0000_0000_0000 * (0xffff_ffff_ffff_ffff * du) <= 0x20_0000_0000_0001 * dl)
        by (nonlinear_arith)
        requires
            dl == d * l,
            du == d * u,
            0x20_0000_0000_0000 * (0xffff_ffff_ffff_ffff * u) <= 0x20_0000_0000_0001 * l,
            d >= 0,
    ;
    assert(0x1f_ffff_ffff_ffff * xu <= 0x20_0000_0000_0000 * nuu && 0x20_0000_0000_0000 * nuu
        <= 0x20_0000_0000_0001 * xu) by (nonlinear_arith)
        requires
            xu == x * u,
            nuu == nu * u,
            0x1f_ffff_ffff_ffff * x <= 0x20_0000_0000_0000 * nu,
            0x20_0000_0000_0000 * nu <= 0x20_0000_0000_0001 * x,
            u > 0,
    ;
    assert(many * 0x20_0000_0000_0000 * u <= uu) by (nonlinear_arith)
        requires
            uu == u * u,
            u >= many * 0x20_0000_0000_0000,
            u > 0,
    ;
    lemma_unit_chain(many, uu, nuu, xu, dl, du, u, l);
    let g: int = d * many - nu;
    assert(g * u == many * du - nuu) by (nonlinear_arith)
        requires
            g == d * many - nu,
            du == d * u,
            nuu == nu * u,
    ;
    assert(0x20_0000_0000_0000 * g <= 16 * nu && -(16 * nu) <= 0x20_0000_0000_0000 * g)
        by (nonlinear_arith)
        requires
            0x20_0000_0000_0000 * (g * u) <= 16 * nuu,
            -(16 * nuu) <= 0x20_0000_0000_0000 * (g * u),
            nuu == nu * u,
            u > 0,
    ;
}

proof fn lemma_unit_chain(many: int, uu: int, nuu: int, xu: int, dl: int, du: int, u: int, l: int)
    requires
        many == 0x1_0000_0000_0000_0000,
        uu > 0,
        nuu >= uu,
        du >= 0,
        0x100_0000_0000_0000 * u <= uu,
        many * 0x20_0000_0000_0000 * u <= uu,
        l <= many * u,
        dl <= many * du,
        0x20_0000_0000_0000 * (0xffff_ffff_ffff_ffff * du) <= 0x20_0000_0000_0001 * dl,
        0x1f_ffff_ffff_ffff * xu <= 0x20_0000_0000_0000 * nuu,
        0x20_0000_0000_0000 * nuu <= 0x20_0000_0000_0001 * xu,
        0x1f_ffff_ffff_ffff * dl <= 0x20_0000_0000_0001 * xu + 0x20_0000_0000_0000 * l,
        0x1f_ffff_ffff_ffff * xu <= 0x20_0000_0000_0001 * dl + 0x20_0000_0000_0000 * l,
    ensures
        0x20_0000_0000_0000 * size_of(many * du - nuu) <= 16 * nuu,
{
    assert(0x20_0000_0000_0000 * l <= uu);
}

} // verus!
