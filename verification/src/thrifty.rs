//! What a search that takes every cell at most once finds costs the least, as
//! far as the estimates along a route agree with what its steps cost.
use vstd::multiset::Multiset;
use vstd::prelude::*;

use crate::least::{
    backed, founded, lemma_oblique, lemma_relaxed_labels, lemma_way_costs, not_under, oblique, orderly,
    route_cost, ticket,
};
use crate::number::Real;
use crate::queue::{leads, no_later, Entry};
use crate::reopen::{
    layered, lemma_labelled_has_way, lemma_origin_regular, lemma_relaxed_rooted,
    lemma_relaxed_spent, rooted, spent, steady, uphill,
};
use crate::search::{
    adjoins, cell_count, cost_at, expanded, is_route, lemma_neighbour_inside, lemma_popped_sound,
    may_step, neighbour, origin_frontier, relaxed, Frontier, Label, Model,
};
use crate::settle::{
    advanced, finish, lemma_some_leader, next_entry, outset, progress_after, way_back, Phase,
    Progress,
};

verus! {

/// Whether every cell that was reached and not taken waits with its present
/// label.
spec fn all_wait(t: Model, f: Frontier, closed: Set<int>) -> bool {
    forall|i: int| #[trigger]
        f.labels.dom().contains(i) && !closed.contains(i) ==> f.queue.count(ticket(t, f, i)) > 0
}

/// What a search keeps up at every node.
spec fn prudent(t: Model, p: Progress, start: int, good: spec_fn(Real) -> bool) -> bool {
    &&& founded(t, p.frontier, start, good)
    &&& all_wait(t, p.frontier, p.closed)
    &&& forall|i: int| #[trigger] p.closed.contains(i) ==> p.frontier.labels.dom().contains(i)
}

/// Bounds on the costs at which the cells of a route are reached: they hold of
/// whatever costs less, go from each cell to the next, and hold of every later
/// cell that scores no more than an earlier one within its bound.
pub open spec fn bounds(
    t: Model,
    good: spec_fn(Real) -> bool,
    route: Seq<int>,
    fits: spec_fn(int, Real) -> bool,
) -> bool {
    &&& fits(0, Real { bits: 0 })
    &&& forall|j: int, a: Real, b: Real|
        good(a) && good(b) && a.rank() <= b.rank() && #[trigger] fits(j, b) ==> #[trigger] fits(
            j,
            a,
        )
    &&& forall|j: int, c: Real|
        0 <= j < route.len() - 1 && good(c) && #[trigger] fits(j, c) ==> fits(
            j + 1,
            t.extended(c, route[j + 1], oblique(t, route[j], route[j + 1])),
        )
    &&& forall|i: int, j: int, a: Real, b: Real|
        0 <= i < j < route.len() && good(a) && good(b) && #[trigger] fits(i, a) && t.score(
            b,
            route[j],
        ).spec_total_key() <= t.score(a, route[i]).spec_total_key() ==> #[trigger] fits(j, b)
}

/// Whether a cell of a route was reached within its bound.
spec fn reached_within(
    f: Frontier,
    route: Seq<int>,
    fits: spec_fn(int, Real) -> bool,
    j: int,
) -> bool {
    f.labels.dom().contains(route[j]) && fits(j, f.labels[route[j]].cost)
}

/// Whether every cell of a route that follows a taken one was reached within its
/// bound.
spec fn on_schedule(p: Progress, route: Seq<int>, fits: spec_fn(int, Real) -> bool) -> bool {
    forall|j: int|
        0 <= j < route.len() - 1 && #[trigger] p.closed.contains(route[j]) ==> reached_within(
            p.frontier,
            route,
            fits,
            j + 1,
        )
}

proof fn lemma_first_waiting(closed: Set<int>, route: Seq<int>, j: int) -> (i: int)
    requires
        0 <= j < route.len(),
        !closed.contains(route[j]),
    ensures
        0 <= i <= j,
        !closed.contains(route[i]),
        i > 0 ==> closed.contains(route[i - 1]),
    decreases j,
{
    if j > 0 && !closed.contains(route[j - 1]) {
        lemma_first_waiting(closed, route, j - 1)
    } else {
        j
    }
}

/// A cell of a route that is taken was reached within its bound.
proof fn lemma_taken_within(
    t: Model,
    p: Progress,
    start: int,
    good: spec_fn(Real) -> bool,
    route: Seq<int>,
    fits: spec_fn(int, Real) -> bool,
    e: Entry,
    j: int,
)
    requires
        t.valid(),
        prudent(t, p, start, good),
        bounds(t, good, route, fits),
        on_schedule(p, route, fits),
        route.len() > 0,
        route[0] == start,
        leads(p.frontier.queue, e),
        !p.closed.contains(e.index as int),
        0 <= j < route.len(),
        route[j] == e.index,
    ensures
        reached_within(p.frontier, route, fits, j),
{
    let f: Frontier = p.frontier;
    let i: int = lemma_first_waiting(p.closed, route, j);
    assert(f.queue.count(e) > 0);
    assert(f.labels.dom().contains(e.index as int));
    assert(good(f.labels[route[j]].cost));
    if i > 0 {
        assert(p.closed.contains(route[i - 1]));
        assert(reached_within(f, route, fits, i - 1 + 1));
    }
    assert(reached_within(f, route, fits, i));
    if i < j {
        assert(f.labels.dom().contains(route[i]));
        assert(good(f.labels[route[i]].cost));
        assert(f.queue.count(ticket(t, f, route[i])) > 0);
        assert(no_later(e, ticket(t, f, route[i])));
        assert(not_under(t, f, e));
        let a: Real = f.labels[route[i]].cost;
        let b: Real = f.labels[route[j]].cost;
        assert(fits(i, a));
        assert(t.score(b, route[j]).spec_total_key() <= t.score(a, route[i]).spec_total_key());
        assert(fits(j, b));
    }
}

/// What expanding a cell, as far as its first `k` steps, leaves of the frontier
/// before.
spec fn pushed_on(
    t: Model,
    f: Frontier,
    g: Frontier,
    start: int,
    good: spec_fn(Real) -> bool,
    closed: Set<int>,
    index: int,
    k: int,
) -> bool {
    &&& founded(t, g, start, good)
    &&& all_wait(t, g, closed)
    &&& spent(t, g, index, k)
    &&& g.labels.dom().contains(index)
    &&& g.labels[index] == f.labels[index]
    &&& forall|i: int|
        f.labels.dom().contains(i) ==> #[trigger] g.labels.dom().contains(i)
            && g.labels[i].cost.rank() <= f.labels[i].cost.rank()
}

proof fn lemma_relaxed_waits(
    t: Model,
    f: Frontier,
    start: int,
    good: spec_fn(Real) -> bool,
    closed: Set<int>,
    index: int,
    k: int,
)
    requires
        t.valid(),
        steady(t, good),
        orderly(t, good),
        founded(t, f, start, good),
        all_wait(t, f, closed),
        spent(t, f, index, k),
        f.labels.dom().contains(index),
        0 <= k < 8,
    ensures
        pushed_on(t, f, relaxed(t, f, index, k), start, good, closed, index, k + 1),
{
    broadcast use vstd::multiset::group_multiset_axioms;

    let g: Frontier = relaxed(t, f, index, k);
    lemma_relaxed_labels(t, f, start, good, index, k);
    lemma_relaxed_rooted(t, f, start, good, index, k);
    lemma_relaxed_spent(t, f, start, good, index, k, index, k);
    let n: int = neighbour(t, index, k);
    let c: Real = t.extended(cost_at(f.labels, index), n, k >= 4);
    let better: bool = may_step(t, index, k) && c.spec_lt(cost_at(f.labels, n));
    if better {
        lemma_neighbour_inside(t, index, k);
        assert(ticket(t, g, n) == (Entry {
            key: t.score(c, n).spec_total_key(),
            index: n as usize,
        }));
        assert(g.queue.count(ticket(t, g, n)) > 0);
    }
    assert(spent(t, g, index, k + 1)) by {
        assert forall|j: int| 0 <= j < k + 1 && #[trigger] may_step(t, index, j) implies !t.extended(
            cost_at(g.labels, index),
            neighbour(t, index, j),
            j >= 4,
        ).spec_lt(cost_at(g.labels, neighbour(t, index, j))) by {}
    }
    assert forall|i: int| #[trigger]
        g.labels.dom().contains(i) && !closed.contains(i) implies g.queue.count(
        ticket(t, g, i),
    ) > 0 by {
        if !(better && i == n) {
            assert(f.labels.dom().contains(i));
            assert(ticket(t, g, i) == ticket(t, f, i));
            assert(g.queue.count(ticket(t, g, i)) > 0);
        }
    }
}

proof fn lemma_expanded_waits(
    t: Model,
    f: Frontier,
    start: int,
    good: spec_fn(Real) -> bool,
    closed: Set<int>,
    index: int,
    k: int,
)
    requires
        t.valid(),
        steady(t, good),
        orderly(t, good),
        founded(t, f, start, good),
        all_wait(t, f, closed),
        f.labels.dom().contains(index),
        0 <= k <= 8,
    ensures
        pushed_on(t, f, expanded(t, f, index, k), start, good, closed, index, k),
    decreases k,
{
    if k > 0 {
        let g: Frontier = expanded(t, f, index, k - 1);
        lemma_expanded_waits(t, f, start, good, closed, index, k - 1);
        lemma_relaxed_waits(t, g, start, good, closed, index, k - 1);
        let h: Frontier = relaxed(t, g, index, k - 1);
        assert forall|i: int| f.labels.dom().contains(i) implies #[trigger] h.labels.dom().contains(
            i,
        ) && h.labels[i].cost.rank() <= f.labels[i].cost.rank() by {
            assert(g.labels.dom().contains(i));
        }
    }
}

/// A frontier keeps what it was founded on when a node leaves the queue.
proof fn lemma_popped_founded(
    t: Model,
    f: Frontier,
    start: int,
    good: spec_fn(Real) -> bool,
    e: Entry,
)
    requires
        founded(t, f, start, good),
        f.queue.count(e) > 0,
    ensures
        founded(t, (Frontier { labels: f.labels, queue: f.queue.remove(e) }), start, good),
{
    let popped: Frontier = Frontier { labels: f.labels, queue: f.queue.remove(e) };
    lemma_popped_sound(t, f, e);
    let depth: spec_fn(int) -> nat = choose|depth: spec_fn(int) -> nat| layered(f, depth);
    assert(layered(popped, depth));
    assert forall|i: int| popped.labels.dom().contains(i) && i != start implies #[trigger] uphill(
        popped,
        i,
    ) by {
        assert(uphill(f, i));
    }
    assert forall|x: Entry| popped.queue.count(x) > 0 implies #[trigger] not_under(t, popped, x) by {
        assert(f.queue.count(x) > 0);
        assert(not_under(t, f, x));
    }
    assert forall|i: int| popped.labels.dom().contains(i) implies #[trigger] backed(
        t,
        popped,
        i,
    ) by {
        assert(backed(t, f, i));
    }
}

/// After a cell of a route has been expanded, the next one is reached within its
/// bound.
proof fn lemma_next_within(
    t: Model,
    f: Frontier,
    g: Frontier,
    start: int,
    good: spec_fn(Real) -> bool,
    closed: Set<int>,
    route: Seq<int>,
    fits: spec_fn(int, Real) -> bool,
    j: int,
)
    requires
        t.valid(),
        steady(t, good),
        rooted(t, f, start, good),
        bounds(t, good, route, fits),
        is_route(t, route),
        0 <= j < route.len() - 1,
        reached_within(f, route, fits, j),
        pushed_on(t, f, g, start, good, closed, route[j], 8),
    ensures
        reached_within(g, route, fits, j + 1),
{
    let a: int = route[j];
    let b: int = route[j + 1];
    assert(adjoins(t, route[j], route[j + 1]));
    let k: int = choose|k: int| 0 <= k < 8 && #[trigger] may_step(t, a, k) && neighbour(t, a, k) == b;
    assert(f.labels.dom().contains(a));
    lemma_neighbour_inside(t, a, k);
    lemma_oblique(t, a, k);
    let c: Real = f.labels[a].cost;
    assert(good(c));
    let x: Real = t.extended(c, b, k >= 4);
    assert(good(x));
    assert(fits(j, c));
    assert(fits(j + 1, x));
    assert(may_step(t, a, k));
    assert(!x.spec_lt(cost_at(g.labels, b)));
    if g.labels.dom().contains(b) {
        assert(good(g.labels[b].cost));
        assert(g.labels[b].cost.rank() <= x.rank());
        assert(fits(j + 1, g.labels[b].cost));
    }
}

/// Taking a node keeps a search prudent and on schedule, and finds the target
/// within its bound.
proof fn lemma_advanced_on_schedule(
    t: Model,
    p: Progress,
    start: int,
    target: int,
    cap: nat,
    good: spec_fn(Real) -> bool,
    route: Seq<int>,
    fits: spec_fn(int, Real) -> bool,
)
    requires
        t.valid(),
        steady(t, good),
        orderly(t, good),
        bounds(t, good, route, fits),
        is_route(t, route),
        route[0] == start,
        route.last() == target,
        prudent(t, p, start, good),
        on_schedule(p, route, fits),
        p.phase == Phase::Running,
    ensures
        ({
            let q: Progress = advanced(t, p, target, cap);
            &&& q.phase == Phase::Running ==> prudent(t, q, start, good) && on_schedule(
                q,
                route,
                fits,
            )
            &&& q.phase == Phase::Found ==> founded(t, q.frontier, start, good) && reached_within(
                q.frontier,
                route,
                fits,
                route.len() - 1,
            )
        }),
{
    broadcast use vstd::multiset::group_multiset_axioms;

    let f: Frontier = p.frontier;
    let q: Progress = advanced(t, p, target, cap);
    if f.queue != Multiset::<Entry>::empty() {
        lemma_some_leader(f.queue);
        let e: Entry = next_entry(f.queue);
        let index: int = e.index as int;
        assert(f.queue.count(e) > 0);
        assert(f.labels.dom().contains(index));
        let popped: Frontier = Frontier { labels: f.labels, queue: f.queue.remove(e) };
        lemma_popped_founded(t, f, start, good, e);
        let closed: Set<int> = p.closed.insert(index);
        assert forall|i: int| #[trigger]
            popped.labels.dom().contains(i) && !closed.contains(i) implies popped.queue.count(
            ticket(t, popped, i),
        ) > 0 by {
            assert(f.labels.dom().contains(i));
            assert(0 <= i < cell_count(t));
            assert(ticket(t, popped, i) == ticket(t, f, i));
            assert(ticket(t, f, i) != e);
        }
        if p.closed.contains(index) {
            assert(closed =~= p.closed);
            assert forall|j: int|
                0 <= j < route.len() - 1 && #[trigger] q.closed.contains(route[j]) implies
                reached_within(q.frontier, route, fits, j + 1) by {
                assert(p.closed.contains(route[j]));
                assert(reached_within(f, route, fits, j + 1));
            }
        } else if index == target {
            lemma_taken_within(t, p, start, good, route, fits, e, route.len() - 1);
            assert(reached_within(f, route, fits, route.len() - 1));
        } else if p.expansions + 1 <= cap {
            lemma_expanded_waits(t, popped, start, good, closed, index, 8);
            let g: Frontier = expanded(t, popped, index, 8);
            assert forall|i: int| #[trigger] q.closed.contains(i) implies g.labels.dom().contains(
                i,
            ) by {
                assert(popped.labels.dom().contains(i));
            }
            assert forall|j: int|
                0 <= j < route.len() - 1 && #[trigger] q.closed.contains(route[j]) implies
                reached_within(q.frontier, route, fits, j + 1) by {
                if route[j] == index {
                    lemma_taken_within(t, p, start, good, route, fits, e, j);
                    assert(reached_within(popped, route, fits, j));
                    lemma_next_within(t, popped, g, start, good, closed, route, fits, j);
                } else {
                    assert(p.closed.contains(route[j]));
                    assert(reached_within(f, route, fits, j + 1));
                    assert(popped.labels.dom().contains(route[j + 1]));
                    assert(g.labels.dom().contains(route[j + 1]));
                    assert(good(f.labels[route[j + 1]].cost));
                    assert(good(g.labels[route[j + 1]].cost));
                }
            }
        }
    }
}

proof fn lemma_progress_on_schedule(
    t: Model,
    start: int,
    target: int,
    cap: nat,
    good: spec_fn(Real) -> bool,
    route: Seq<int>,
    fits: spec_fn(int, Real) -> bool,
    n: nat,
)
    requires
        t.valid(),
        steady(t, good),
        orderly(t, good),
        bounds(t, good, route, fits),
        is_route(t, route),
        0 <= start < cell_count(t),
        route[0] == start,
        route.last() == target,
    ensures
        ({
            let p: Progress = progress_after(t, start, target, cap, n);
            &&& p.phase == Phase::Running ==> prudent(t, p, start, good) && on_schedule(
                p,
                route,
                fits,
            )
            &&& p.phase == Phase::Found ==> founded(t, p.frontier, start, good) && reached_within(
                p.frontier,
                route,
                fits,
                route.len() - 1,
            )
        }),
    decreases n,
{
    if n == 0 {
        lemma_origin_regular(t, start, good);
        let f: Frontier = origin_frontier(t, start);
        assert(f.queue.count(ticket(t, f, start)) > 0);
        assert forall|e: Entry| f.queue.count(e) > 0 implies #[trigger] not_under(t, f, e) by {
            assert(e == ticket(t, f, start));
        }
        assert(outset(t, start).closed =~= Set::<int>::empty());
    } else {
        lemma_progress_on_schedule(t, start, target, cap, good, route, fits, (n - 1) as nat);
        let p: Progress = progress_after(t, start, target, cap, (n - 1) as nat);
        if p.phase == Phase::Running {
            lemma_advanced_on_schedule(t, p, start, target, cap, good, route, fits);
        }
    }
}

/// The way that a search finds costs no more than what the last bound on the
/// cells of any route to its target allows.
pub proof fn lemma_found_way_within(
    t: Model,
    start: int,
    target: int,
    cap: nat,
    good: spec_fn(Real) -> bool,
    route: Seq<int>,
    fits: spec_fn(int, Real) -> bool,
)
    requires
        t.valid(),
        steady(t, good),
        orderly(t, good),
        bounds(t, good, route, fits),
        is_route(t, route),
        0 <= start < cell_count(t),
        route[0] == start,
        route.last() == target,
        finish(t, start, target, cap).phase == Phase::Found,
    ensures
        ({
            let labels: Map<int, Label> = finish(t, start, target, cap).frontier.labels;
            let way: Option<Seq<int>> = way_back(labels, start, target, cell_count(t) as nat);
            let cost: Real = route_cost(t, way.unwrap().reverse());
            &&& way is Some
            &&& good(cost)
            &&& fits(route.len() - 1, cost)
        }),
{
    let n: nat = choose|n: nat| #[trigger]
        progress_after(t, start, target, cap, n).phase != Phase::Running;
    lemma_progress_on_schedule(t, start, target, cap, good, route, fits, n);
    let f: Frontier = finish(t, start, target, cap).frontier;
    lemma_labelled_has_way(t, f, start, good, target);
    lemma_way_costs(t, f, start, good, target, cell_count(t) as nat);
    assert(good(f.labels[target].cost));
    assert(fits(route.len() - 1, f.labels[target].cost));
}

} // verus!
