//! What a search finds costs the least, as far as the estimate does not overrate
//! what is left of a route.
use vstd::multiset::Multiset;
use vstd::prelude::*;

use crate::number::Real;
use crate::queue::{leads, no_later, Entry};
use crate::reopen::{
    layered, lemma_origin_regular, lemma_relaxed_rooted, lemma_relaxed_spent, lemma_wave_ends,
    lemma_wave_finish_unique, lemma_wave_regular, rooted, spent, steady, uphill, wave_after,
    wave_finish, Wave,
};
use crate::search::{
    adjoins, cell_count, col_of, cost_at, expanded, is_route, lemma_neighbour_inside,
    lemma_popped_sound, linked, may_step, neighbour, origin_frontier, relaxed, row_of, Frontier,
    Label, Model,
};
use crate::settle::{lemma_some_leader, next_entry, way_back, Phase};

verus! {

/// Costs that keep their order: of two ways to a cell the cheaper one stays the
/// cheaper one when both are extended, and scores no more.
pub open spec fn orderly(t: Model, good: spec_fn(Real) -> bool) -> bool {
    &&& forall|a: Real, b: Real, to: int, diagonal: bool|
        good(a) && good(b) && a.rank() <= b.rank() && 0 <= to < cell_count(t) ==> (
        #[trigger] t.extended(a, to, diagonal)).rank() <= (#[trigger] t.extended(
            b,
            to,
            diagonal,
        )).rank()
    &&& forall|a: Real, b: Real, i: int|
        good(a) && good(b) && a.rank() <= b.rank() && 0 <= i < cell_count(t) ==> (
        #[trigger] t.score(a, i)).spec_total_key() <= (#[trigger] t.score(b, i)).spec_total_key()
}

/// Whether a step between two cells is a diagonal one.
pub open spec fn oblique(t: Model, a: int, b: int) -> bool {
    col_of(t, a) != col_of(t, b) && row_of(t, a) != row_of(t, b)
}

/// Cost of a route up to its `i`-th cell.
pub open spec fn cost_along(t: Model, route: Seq<int>, i: int) -> Real
    decreases i,
{
    if i <= 0 {
        Real { bits: 0 }
    } else {
        t.extended(
            cost_along(t, route, i - 1),
            route[i],
            oblique(t, route[i - 1], route[i]),
        )
    }
}

/// Cost of a route.
pub open spec fn route_cost(t: Model, route: Seq<int>) -> Real {
    cost_along(t, route, route.len() - 1)
}

/// The node with which a cell's present label waits.
pub open spec fn ticket(t: Model, f: Frontier, index: int) -> Entry {
    Entry {
        key: t.score(f.labels[index].cost, index).spec_total_key(),
        index: index as usize,
    }
}

/// Whether no node of a cell scores less than the cell's present label.
pub open spec fn not_under(t: Model, f: Frontier, e: Entry) -> bool {
    ticket(t, f, e.index as int).key <= e.key
}

/// Whether a cell's label costs no less than the way over its predecessor.
pub open spec fn backed(t: Model, f: Frontier, index: int) -> bool {
    let from: int = f.labels[index].from as int;
    f.labels[index].from != usize::MAX ==> t.extended(
        f.labels[from].cost,
        index,
        oblique(t, from, index),
    ).rank() <= f.labels[index].cost.rank()
}

/// What the labels and the queue of a search with orderly costs keep up: no node
/// scores less than its cell's label, and no label costs less than the way back.
pub open spec fn founded(t: Model, f: Frontier, start: int, good: spec_fn(Real) -> bool) -> bool {
    &&& rooted(t, f, start, good)
    &&& forall|e: Entry| f.queue.count(e) > 0 ==> #[trigger] not_under(t, f, e)
    &&& forall|i: int| f.labels.dom().contains(i) ==> #[trigger] backed(t, f, i)
}

/// What a search keeps up while it is expanding `busy`, the first `k` steps of
/// which have been tried: every other labelled cell waits with its present label
/// or is spent.
pub open spec fn current(
    t: Model,
    f: Frontier,
    start: int,
    good: spec_fn(Real) -> bool,
    busy: int,
    k: int,
) -> bool {
    &&& founded(t, f, start, good)
    &&& forall|i: int| #[trigger]
        f.labels.dom().contains(i) ==> f.queue.count(ticket(t, f, i)) > 0 || spent(
            t,
            f,
            i,
            if i == busy {
                k
            } else {
                8
            },
        )
}

/// A step to a neighbour is diagonal exactly where both sides change.
pub proof fn lemma_oblique(t: Model, index: int, k: int)
    requires
        t.valid(),
        0 <= index < cell_count(t),
        0 <= k < 8,
        may_step(t, index, k),
    ensures
        oblique(t, index, neighbour(t, index, k)) == (k >= 4),
{
    lemma_neighbour_inside(t, index, k);
}

/// Trying one step makes no label dearer.
pub proof fn lemma_relaxed_labels(
    t: Model,
    f: Frontier,
    start: int,
    good: spec_fn(Real) -> bool,
    index: int,
    k: int,
)
    requires
        t.valid(),
        steady(t, good),
        orderly(t, good),
        founded(t, f, start, good),
        f.labels.dom().contains(index),
        0 <= k < 8,
    ensures
        ({
            let g: Frontier = relaxed(t, f, index, k);
            &&& founded(t, g, start, good)
            &&& forall|i: int|
                f.labels.dom().contains(i) ==> #[trigger] g.labels.dom().contains(i)
                    && g.labels[i].cost.rank() <= f.labels[i].cost.rank()
        }),
{
    broadcast use vstd::multiset::group_multiset_axioms;

    let g: Frontier = relaxed(t, f, index, k);
    lemma_relaxed_rooted(t, f, start, good, index, k);
    let n: int = neighbour(t, index, k);
    let c: Real = t.extended(cost_at(f.labels, index), n, k >= 4);
    if may_step(t, index, k) && c.spec_lt(cost_at(f.labels, n)) {
        lemma_neighbour_inside(t, index, k);
        lemma_oblique(t, index, k);
        assert(good(f.labels[index].cost));
        assert(good(c));
        let entry: Entry = Entry { key: t.score(c, n).spec_total_key(), index: n as usize };
        assert forall|e: Entry| g.queue.count(e) > 0 implies #[trigger] not_under(t, g, e) by {
            if e != entry {
                assert(f.queue.count(e) > 0);
                assert(not_under(t, f, e));
                if e.index == n {
                    assert(f.labels.dom().contains(n));
                    assert(good(f.labels[n].cost));
                    assert(t.score(c, n).spec_total_key() <= t.score(
                        f.labels[n].cost,
                        n,
                    ).spec_total_key());
                }
            }
        }
        assert forall|i: int| g.labels.dom().contains(i) implies #[trigger] backed(t, g, i) by {
            if i != n {
                assert(f.labels.dom().contains(i));
                assert(backed(t, f, i));
                assert(linked(t, f, i));
                let from: int = f.labels[i].from as int;
                if f.labels[i].from != usize::MAX && from == n {
                    assert(good(f.labels[n].cost));
                    let d: bool = oblique(t, n, i);
                    assert(t.extended(c, i, d).rank() <= t.extended(
                        f.labels[n].cost,
                        i,
                        d,
                    ).rank());
                }
            }
        }
    }
}

/// Trying one step keeps a search current.
proof fn lemma_relaxed_current(
    t: Model,
    f: Frontier,
    start: int,
    good: spec_fn(Real) -> bool,
    index: int,
    k: int,
)
    requires
        t.valid(),
        steady(t, good),
        orderly(t, good),
        current(t, f, start, good, index, k),
        f.labels.dom().contains(index),
        0 <= k < 8,
        spent(t, f, index, k),
    ensures
        current(t, relaxed(t, f, index, k), start, good, index, k + 1),
        spent(t, relaxed(t, f, index, k), index, k + 1),
        relaxed(t, f, index, k).labels.dom().contains(index),
{
    broadcast use vstd::multiset::group_multiset_axioms;

    let g: Frontier = relaxed(t, f, index, k);
    lemma_relaxed_labels(t, f, start, good, index, k);
    lemma_relaxed_rooted(t, f, start, good, index, k);
    let n: int = neighbour(t, index, k);
    let c: Real = t.extended(cost_at(f.labels, index), n, k >= 4);
    let better: bool = may_step(t, index, k) && c.spec_lt(cost_at(f.labels, n));
    if better {
        lemma_neighbour_inside(t, index, k);
        assert(ticket(t, g, n) == (Entry {
            key: t.score(c, n).spec_total_key(),
            index: n as usize,
        }));
        assert(g.queue.count(ticket(t, g, n)) > 0);
    }
    lemma_relaxed_spent(t, f, start, good, index, k, index, k);
    assert(spent(t, g, index, k + 1)) by {
        assert forall|j: int| 0 <= j < k + 1 && #[trigger] may_step(t, index, j) implies !t.extended(
            cost_at(g.labels, index),
            neighbour(t, index, j),
            j >= 4,
        ).spec_lt(cost_at(g.labels, neighbour(t, index, j))) by {}
    }
    assert forall|i: int| #[trigger] g.labels.dom().contains(i) implies g.queue.count(
        ticket(t, g, i),
    ) > 0 || spent(
        t,
        g,
        i,
        if i == index {
            k + 1
        } else {
            8
        },
    ) by {
        if !(better && i == n) && i != index {
            assert(f.labels.dom().contains(i));
            assert(ticket(t, g, i) == ticket(t, f, i));
            if f.queue.count(ticket(t, f, i)) > 0 {
                assert(g.queue.count(ticket(t, g, i)) > 0);
            } else {
                lemma_relaxed_spent(t, f, start, good, index, k, i, 8);
            }
        }
    }
}

proof fn lemma_expanded_current(
    t: Model,
    f: Frontier,
    start: int,
    good: spec_fn(Real) -> bool,
    index: int,
    k: int,
)
    requires
        t.valid(),
        steady(t, good),
        orderly(t, good),
        current(t, f, start, good, index, 0),
        f.labels.dom().contains(index),
        0 <= k <= 8,
    ensures
        current(t, expanded(t, f, index, k), start, good, index, k),
        spent(t, expanded(t, f, index, k), index, k),
        expanded(t, f, index, k).labels.dom().contains(index),
    decreases k,
{
    if k > 0 {
        lemma_expanded_current(t, f, start, good, index, k - 1);
        lemma_relaxed_current(t, expanded(t, f, index, k - 1), start, good, index, k - 1);
    }
}

proof fn lemma_origin_current(t: Model, start: int, good: spec_fn(Real) -> bool)
    requires
        t.valid(),
        steady(t, good),
        0 <= start < cell_count(t),
    ensures
        current(t, origin_frontier(t, start), start, good, -1, 8),
{
    lemma_origin_regular(t, start, good);
    let f: Frontier = origin_frontier(t, start);
    assert(f.queue.count(ticket(t, f, start)) > 0);
    assert forall|e: Entry| f.queue.count(e) > 0 implies #[trigger] not_under(t, f, e) by {
        assert(e == ticket(t, f, start));
    }
}

/// A search stays current when a node leaves the queue to be expanded.
proof fn lemma_popped_current(
    t: Model,
    f: Frontier,
    start: int,
    good: spec_fn(Real) -> bool,
    e: Entry,
)
    requires
        t.valid(),
        current(t, f, start, good, -1, 8),
        f.queue.count(e) > 0,
    ensures
        current(
            t,
            (Frontier { labels: f.labels, queue: f.queue.remove(e) }),
            start,
            good,
            e.index as int,
            0,
        ),
{
    let popped: Frontier = Frontier { labels: f.labels, queue: f.queue.remove(e) };
    let index: int = e.index as int;
    lemma_popped_sound(t, f, e);
    let depth: spec_fn(int) -> nat = choose|depth: spec_fn(int) -> nat| layered(f, depth);
    assert(layered(popped, depth));
    assert forall|i: int| popped.labels.dom().contains(i) && i != start implies #[trigger] uphill(
        popped,
        i,
    ) by {
        assert(uphill(f, i));
    }
    assert forall|i: int| #[trigger] popped.labels.dom().contains(i) implies popped.queue.count(
        ticket(t, popped, i),
    ) > 0 || spent(
        t,
        popped,
        i,
        if i == index {
            0
        } else {
            8
        },
    ) by {
        if i != index {
            assert(f.labels.dom().contains(i));
            assert(0 <= i < cell_count(t));
            if f.queue.count(ticket(t, f, i)) > 0 {
                assert(ticket(t, popped, i) == ticket(t, f, i));
                assert(ticket(t, f, i) != e);
            } else {
                assert(spent(t, f, i, 8));
                assert(spent(t, popped, i, 8));
            }
        }
    }
    assert forall|x: Entry| popped.queue.count(x) > 0 implies #[trigger] not_under(t, popped, x) by {
        assert(f.queue.count(x) > 0);
        assert(not_under(t, f, x));
    }
    assert forall|i: int| popped.labels.dom().contains(i) implies #[trigger] backed(t, popped, i) by {
        assert(backed(t, f, i));
    }
}

/// Whether a search that found its target with the given labels was current just
/// before, and the target came next.
spec fn found_with(
    t: Model,
    start: int,
    target: int,
    good: spec_fn(Real) -> bool,
    f: Frontier,
    e: Entry,
    labels: Map<int, Label>,
) -> bool {
    &&& current(t, f, start, good, -1, 8)
    &&& f.labels == labels
    &&& leads(f.queue, e)
    &&& e.index == target
}

/// Every state of a search is current, and was until the target was found.
proof fn lemma_wave_current(
    t: Model,
    start: int,
    target: int,
    good: spec_fn(Real) -> bool,
    n: nat,
)
    requires
        t.valid(),
        steady(t, good),
        orderly(t, good),
        0 <= start < cell_count(t),
    ensures
        ({
            let w: Wave = wave_after(t, start, target, n);
            &&& w.phase != Phase::Found ==> current(t, w.frontier, start, good, -1, 8)
            &&& w.phase == Phase::Found ==> exists|f: Frontier, e: Entry| #[trigger]
                found_with(t, start, target, good, f, e, w.frontier.labels)
            &&& w.phase == Phase::Exhausted ==> w.frontier.queue == Multiset::<Entry>::empty()
        }),
    decreases n,
{
    if n == 0 {
        lemma_origin_current(t, start, good);
    } else {
        lemma_wave_current(t, start, target, good, (n - 1) as nat);
        let v: Wave = wave_after(t, start, target, (n - 1) as nat);
        if v.phase == Phase::Running && v.frontier.queue != Multiset::<Entry>::empty() {
            let f: Frontier = v.frontier;
            lemma_some_leader(f.queue);
            let e: Entry = next_entry(f.queue);
            let index: int = e.index as int;
            assert(f.queue.count(e) > 0);
            assert(f.labels.dom().contains(index));
            lemma_popped_current(t, f, start, good, e);
            let popped: Frontier = Frontier { labels: f.labels, queue: f.queue.remove(e) };
            if index != target {
                lemma_expanded_current(t, popped, start, good, index, 8);
                assert(current(t, expanded(t, popped, index, 8), start, good, -1, 8));
            } else {
                let w: Wave = wave_after(t, start, target, n);
                assert(w.frontier == popped);
                assert(found_with(t, start, target, good, f, e, w.frontier.labels));
            }
        }
    }
}

/// Whether a cell of a route was reached at no more than the route costs so far.
spec fn reached(t: Model, f: Frontier, route: Seq<int>, i: int) -> bool {
    f.labels.dom().contains(route[i]) && f.labels[route[i]].cost.rank() <= cost_along(
        t,
        route,
        i,
    ).rank()
}

/// Whether a cell of a route was so reached and waits.
spec fn waits(t: Model, f: Frontier, route: Seq<int>, i: int) -> bool {
    reached(t, f, route, i) && f.queue.count(ticket(t, f, route[i])) > 0
}

/// Costs along a route behave.
pub proof fn lemma_cost_along(
    t: Model,
    good: spec_fn(Real) -> bool,
    route: Seq<int>,
    i: int,
)
    requires
        t.valid(),
        steady(t, good),
        is_route(t, route),
        0 <= route[0] < cell_count(t),
        0 <= i < route.len(),
    ensures
        good(cost_along(t, route, i)),
        0 <= route[i] < cell_count(t),
    decreases i,
{
    if i > 0 {
        lemma_cost_along(t, good, route, i - 1);
        assert(adjoins(t, route[i - 1], route[i - 1 + 1]));
        let k: int = choose|k: int|
            0 <= k < 8 && #[trigger] may_step(t, route[i - 1], k) && neighbour(t, route[i - 1], k)
                == route[i];
        lemma_neighbour_inside(t, route[i - 1], k);
    }
}

/// Of every route, one cell waits or all have been reached, at no more than the
/// route costs.
proof fn lemma_route_witness(
    t: Model,
    f: Frontier,
    start: int,
    good: spec_fn(Real) -> bool,
    route: Seq<int>,
    i: int,
)
    requires
        t.valid(),
        steady(t, good),
        orderly(t, good),
        current(t, f, start, good, -1, 8),
        is_route(t, route),
        route[0] == start,
        0 <= i < route.len(),
    ensures
        reached(t, f, route, i) || exists|j: int| 0 <= j < i && #[trigger] waits(t, f, route, j),
    decreases i,
{
    if i > 0 {
        lemma_route_witness(t, f, start, good, route, i - 1);
        if reached(t, f, route, i - 1) && !waits(t, f, route, i - 1) {
            let a: int = route[i - 1];
            let b: int = route[i - 1 + 1];
            assert(adjoins(t, a, b));
            let k: int = choose|k: int|
                0 <= k < 8 && #[trigger] may_step(t, a, k) && neighbour(t, a, k) == b;
            assert(f.labels.dom().contains(a));
            lemma_neighbour_inside(t, a, k);
            lemma_oblique(t, a, k);
            lemma_cost_along(t, good, route, i - 1);
            lemma_cost_along(t, good, route, i);
            assert(spent(t, f, a, 8));
            assert(good(f.labels[a].cost));
            let x: Real = t.extended(f.labels[a].cost, b, k >= 4);
            assert(good(x));
            assert(x.rank() <= t.extended(cost_along(t, route, i - 1), b, k >= 4).rank());
            assert(may_step(t, a, k));
            assert(!x.spec_lt(cost_at(f.labels, b)));
            if f.labels.dom().contains(b) {
                assert(good(f.labels[b].cost));
            }
            assert(reached(t, f, route, i));
        }
    }
}

/// Whether the estimate speaks for going by a cell of a route: what is found may
/// cost as much as the route up to that cell and the estimate from there.
pub open spec fn outbid(t: Model, cost: Real, target: int, route: Seq<int>, j: int) -> bool {
    t.score(cost, target).spec_total_key() <= t.score(
        cost_along(t, route, j),
        route[j],
    ).spec_total_key()
}

/// A target that some route leads to is found at no more than the route costs,
/// unless the cost is outbid by the estimate at a cell of the route.
proof fn lemma_label_is_least(
    t: Model,
    start: int,
    target: int,
    good: spec_fn(Real) -> bool,
    route: Seq<int>,
)
    requires
        t.valid(),
        steady(t, good),
        orderly(t, good),
        0 <= start < cell_count(t),
        is_route(t, route),
        route[0] == start,
        route.last() == target,
    ensures
        ({
            let labels: Map<int, Label> = wave_finish(t, start, target).frontier.labels;
            let cost: Real = labels[target].cost;
            &&& labels.dom().contains(target)
            &&& good(cost)
            &&& cost.rank() <= route_cost(t, route).rank() || exists|j: int|
                0 <= j < route.len() && #[trigger] outbid(t, cost, target, route, j)
        }),
{
    lemma_wave_ends(t, start, target);
    let n: nat = choose|n: nat| #[trigger] wave_after(t, start, target, n).phase != Phase::Running;
    lemma_wave_finish_unique(t, start, target, n);
    lemma_wave_current(t, start, target, good, n);
    let w: Wave = wave_after(t, start, target, n);
    let last: int = route.len() - 1;
    if w.phase == Phase::Found {
        let (f, e): (Frontier, Entry) = choose|f: Frontier, e: Entry| #[trigger]
            found_with(t, start, target, good, f, e, w.frontier.labels);
        assert(f.queue.count(e) > 0);
        assert(f.labels.dom().contains(target));
        assert(good(f.labels[target].cost));
        lemma_route_witness(t, f, start, good, route, last);
        if !reached(t, f, route, last) {
            let j: int = choose|j: int| 0 <= j < last && #[trigger] waits(t, f, route, j);
            let x: Entry = ticket(t, f, route[j]);
            lemma_cost_along(t, good, route, j);
            assert(good(f.labels[route[j]].cost));
            assert(no_later(e, x));
            assert(not_under(t, f, e));
            assert(t.score(f.labels[route[j]].cost, route[j]).spec_total_key() <= t.score(
                cost_along(t, route, j),
                route[j],
            ).spec_total_key());
            assert(outbid(t, f.labels[target].cost, target, route, j));
        }
    } else {
        let f: Frontier = w.frontier;
        lemma_wave_regular(t, start, target, good, n);
        lemma_route_witness(t, f, start, good, route, last);
        if !reached(t, f, route, last) {
            let j: int = choose|j: int| 0 <= j < last && #[trigger] waits(t, f, route, j);
            assert(false);
        }
        assert(good(f.labels[target].cost));
    }
}

proof fn lemma_cost_of_prefix(t: Model, a: Seq<int>, b: Seq<int>, i: int)
    requires
        0 <= i < a.len(),
        i < b.len(),
        forall|j: int| 0 <= j <= i ==> a[j] == b[j],
    ensures
        cost_along(t, a, i) == cost_along(t, b, i),
    decreases i,
{
    if i > 0 {
        lemma_cost_of_prefix(t, a, b, i - 1);
    }
}

/// The way back from a cell costs, walked forwards, no more than its label says.
pub proof fn lemma_way_costs(
    t: Model,
    f: Frontier,
    start: int,
    good: spec_fn(Real) -> bool,
    cursor: int,
    fuel: nat,
)
    requires
        t.valid(),
        steady(t, good),
        orderly(t, good),
        founded(t, f, start, good),
        f.labels.dom().contains(cursor),
        way_back(f.labels, start, cursor, fuel) is Some,
    ensures
        ({
            let route: Seq<int> = way_back(f.labels, start, cursor, fuel).unwrap().reverse();
            &&& route.len() > 0
            &&& route.last() == cursor
            &&& route_cost(t, route).rank() <= f.labels[cursor].cost.rank()
            &&& good(route_cost(t, route))
        }),
    decreases fuel,
{
    if cursor == start {
        let route: Seq<int> = way_back(f.labels, start, cursor, fuel).unwrap().reverse();
        assert(route =~= seq![cursor]);
        assert(cost_along(t, route, 0).rank() == 0);
        assert(good(f.labels[start].cost));
    } else {
        let from: int = f.labels[cursor].from as int;
        assert(linked(t, f, cursor));
        lemma_way_costs(t, f, start, good, from, (fuel - 1) as nat);
        let rest: Seq<int> = way_back(f.labels, start, from, (fuel - 1) as nat).unwrap();
        let route: Seq<int> = way_back(f.labels, start, cursor, fuel).unwrap().reverse();
        let before: Seq<int> = rest.reverse();
        assert(route =~= before.push(cursor));
        let last: int = before.len() - 1;
        lemma_cost_of_prefix(t, route, before, last);
        assert(route[last] == from);
        assert(backed(t, f, cursor));
        assert(good(f.labels[from].cost));
        assert(t.extended(route_cost(t, before), cursor, oblique(t, from, cursor)).rank()
            <= t.extended(f.labels[from].cost, cursor, oblique(t, from, cursor)).rank());
        assert(0 <= cursor < cell_count(t));
        assert(route_cost(t, route) == t.extended(
            route_cost(t, before),
            cursor,
            oblique(t, from, cursor),
        ));
    }
}

/// The way that a search finds costs no more than any route to its target,
/// unless the estimate overrates what is left of that route: then it costs no
/// more than some first part of the route and the estimate from there.
pub proof fn lemma_way_is_least(
    t: Model,
    start: int,
    target: int,
    good: spec_fn(Real) -> bool,
    route: Seq<int>,
    fuel: nat,
)
    requires
        t.valid(),
        steady(t, good),
        orderly(t, good),
        0 <= start < cell_count(t),
        is_route(t, route),
        route[0] == start,
        route.last() == target,
        way_back(wave_finish(t, start, target).frontier.labels, start, target, fuel) is Some,
    ensures
        ({
            let way: Seq<int> = way_back(
                wave_finish(t, start, target).frontier.labels,
                start,
                target,
                fuel,
            ).unwrap();
            let cost: Real = route_cost(t, way.reverse());
            &&& good(cost)
            &&& good(route_cost(t, route))
            &&& cost.rank() <= route_cost(t, route).rank() || exists|j: int|
                0 <= j < route.len() && #[trigger] outbid(t, cost, target, route, j)
        }),
{
    lemma_label_is_least(t, start, target, good, route);
    lemma_wave_ends(t, start, target);
    let n: nat = choose|n: nat| #[trigger] wave_after(t, start, target, n).phase != Phase::Running;
    lemma_wave_finish_unique(t, start, target, n);
    lemma_wave_current(t, start, target, good, n);
    let w: Wave = wave_after(t, start, target, n);
    let f: Frontier = if w.phase == Phase::Found {
        let (f, e): (Frontier, Entry) = choose|f: Frontier, e: Entry| #[trigger]
            found_with(t, start, target, good, f, e, w.frontier.labels);
        f
    } else {
        w.frontier
    };
    assert(current(t, f, start, good, -1, 8));
    assert(f.labels == w.frontier.labels);
    lemma_way_costs(t, f, start, good, target, fuel);
    lemma_cost_along(t, good, route, route.len() - 1);
    let way: Seq<int> = way_back(f.labels, start, target, fuel).unwrap();
    let cost: Real = route_cost(t, way.reverse());
    let label: Real = f.labels[target].cost;
    assert(0 <= target < cell_count(t));
    assert(t.score(cost, target).spec_total_key() <= t.score(label, target).spec_total_key());
    if label.rank() > route_cost(t, route).rank() {
        let j: int = choose|j: int|
            0 <= j < route.len() && #[trigger] outbid(t, label, target, route, j);
        assert(outbid(t, cost, target, route, j));
    }
}

} // verus!
