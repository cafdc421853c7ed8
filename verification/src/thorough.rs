//! The proof that expanding every cell at most once misses no route.
use vstd::multiset::Multiset;
use vstd::prelude::*;
use vstd::set_lib::*;

use crate::number::Real;
use crate::queue::Entry;
use crate::reopen::{
    layered, lemma_labelled_has_way, lemma_origin_regular, lemma_relaxed_rooted, queued,
    reachable, rooted, steady, uphill,
};
use crate::search::{
    adjoins, cell_count, cost_at, expanded, is_route, lemma_neighbour_inside, lemma_popped_sound,
    may_step, neighbour, origin_frontier, relaxed, Frontier, Model,
};
use crate::settle::{
    advanced, finish, lemma_search_ends, lemma_some_leader, lemma_way_back_is_route, next_entry,
    progress_after, way_back, Phase, Progress,
};

verus! {

/// Whether the first `k` steps out of a cell lead to cells that are known.
pub open spec fn explored(t: Model, f: Frontier, index: int, k: int) -> bool {
    forall|j: int|
        0 <= j < k && #[trigger] may_step(t, index, j) ==> f.labels.dom().contains(
            neighbour(t, index, j),
        )
}

/// What a search keeps up that has not found its target: every cell it knows
/// waits or has been taken, and those that were taken are explored.
pub open spec fn thorough(
    t: Model,
    p: Progress,
    start: int,
    target: int,
    good: spec_fn(Real) -> bool,
) -> bool {
    &&& rooted(t, p.frontier, start, good)
    &&& !p.closed.contains(target)
    &&& p.closed.finite()
    &&& p.expansions == p.closed.len()
    &&& forall|i: int| #[trigger] p.closed.contains(i) ==> p.frontier.labels.dom().contains(i)
    &&& forall|i: int| #[trigger]
        p.frontier.labels.dom().contains(i) ==> queued(p.frontier, i) || p.closed.contains(i)
    &&& forall|i: int| #[trigger] p.closed.contains(i) ==> explored(t, p.frontier, i, 8)
}

proof fn lemma_relaxed_explores(
    t: Model,
    f: Frontier,
    start: int,
    good: spec_fn(Real) -> bool,
    index: int,
    k: int,
)
    requires
        t.valid(),
        steady(t, good),
        rooted(t, f, start, good),
        f.labels.dom().contains(index),
        0 <= k < 8,
    ensures
        ({
            let g: Frontier = relaxed(t, f, index, k);
            &&& rooted(t, g, start, good)
            &&& forall|i: int| f.labels.dom().contains(i) ==> #[trigger] g.labels.dom().contains(i)
            &&& forall|i: int| #[trigger]
                g.labels.dom().contains(i) ==> f.labels.dom().contains(i) || queued(g, i)
            &&& forall|i: int| queued(f, i) ==> #[trigger] queued(g, i)
            &&& may_step(t, index, k) ==> g.labels.dom().contains(neighbour(t, index, k))
        }),
{
    broadcast use vstd::multiset::group_multiset_axioms;

    lemma_relaxed_rooted(t, f, start, good, index, k);
    let g: Frontier = relaxed(t, f, index, k);
    let next: int = neighbour(t, index, k);
    let cost: Real = t.extended(cost_at(f.labels, index), next, k >= 4);
    if may_step(t, index, k) {
        lemma_neighbour_inside(t, index, k);
        assert(good(f.labels[index].cost));
        assert(good(cost));
        if cost.spec_lt(cost_at(f.labels, next)) {
            let e: Entry = Entry {
                key: t.score(cost, next).spec_total_key(),
                index: next as usize,
            };
            assert(g.queue.count(e) > 0);
            assert(queued(g, next));
            assert forall|i: int| queued(f, i) implies #[trigger] queued(g, i) by {
                let x: Entry = choose|x: Entry| #[trigger] f.queue.count(x) > 0 && x.index == i;
                assert(g.queue.count(x) > 0);
            }
        } else {
            assert(f.labels.dom().contains(next));
        }
    }
}

proof fn lemma_expanded_explores(
    t: Model,
    f: Frontier,
    start: int,
    good: spec_fn(Real) -> bool,
    index: int,
    k: int,
)
    requires
        t.valid(),
        steady(t, good),
        rooted(t, f, start, good),
        f.labels.dom().contains(index),
        0 <= k <= 8,
    ensures
        ({
            let g: Frontier = expanded(t, f, index, k);
            &&& rooted(t, g, start, good)
            &&& forall|i: int| f.labels.dom().contains(i) ==> #[trigger] g.labels.dom().contains(i)
            &&& forall|i: int| #[trigger]
                g.labels.dom().contains(i) ==> f.labels.dom().contains(i) || queued(g, i)
            &&& forall|i: int| queued(f, i) ==> #[trigger] queued(g, i)
            &&& explored(t, g, index, k)
        }),
    decreases k,
{
    if k > 0 {
        let before: Frontier = expanded(t, f, index, k - 1);
        lemma_expanded_explores(t, f, start, good, index, k - 1);
        lemma_relaxed_explores(t, before, start, good, index, k - 1);
        let g: Frontier = expanded(t, f, index, k);
        assert forall|i: int| #[trigger] g.labels.dom().contains(i) implies f.labels.dom().contains(
            i,
        ) || queued(g, i) by {
            if before.labels.dom().contains(i) {
                assert(f.labels.dom().contains(i) || queued(before, i));
            }
        }
        assert forall|j: int| 0 <= j < k && #[trigger] may_step(t, index, j) implies g.labels.dom().contains(
            neighbour(t, index, j),
        ) by {
            if j < k - 1 {
                assert(before.labels.dom().contains(neighbour(t, index, j)));
            }
        }
    }
}

/// Taking a node keeps a search thorough until it finds its target.
proof fn lemma_advanced_thorough(
    t: Model,
    p: Progress,
    start: int,
    target: int,
    cap: nat,
    good: spec_fn(Real) -> bool,
)
    requires
        t.valid(),
        steady(t, good),
        thorough(t, p, start, target, good),
        p.phase == Phase::Running,
    ensures
        ({
            let q: Progress = advanced(t, p, target, cap);
            &&& rooted(t, q.frontier, start, good)
            &&& q.phase == Phase::Found ==> q.frontier.labels.dom().contains(target)
            &&& q.phase == Phase::Exhausted ==> q.frontier.queue == Multiset::<Entry>::empty()
            &&& q.phase == Phase::Capped ==> cap < cell_count(t)
            &&& q.phase == Phase::Running || q.phase == Phase::Exhausted ==> thorough(
                t,
                q,
                start,
                target,
                good,
            )
        }),
{
    broadcast use vstd::multiset::group_multiset_axioms;

    let f: Frontier = p.frontier;
    let q: Progress = advanced(t, p, target, cap);
    if f.queue != Multiset::<Entry>::empty() {
        lemma_some_leader(f.queue);
        let e: Entry = next_entry(f.queue);
        let index: int = e.index as int;
        assert(f.queue.count(e) > 0);
        assert(f.labels.dom().contains(index));
        let popped: Frontier = Frontier { labels: f.labels, queue: f.queue.remove(e) };
        lemma_popped_sound(t, f, e);
        let depth: spec_fn(int) -> nat = choose|depth: spec_fn(int) -> nat| layered(f, depth);
        assert(layered(popped, depth));
        assert forall|i: int| popped.labels.dom().contains(i) && i != start implies #[trigger] uphill(
            popped,
            i,
        ) by {
            assert(uphill(f, i));
        }
        assert(rooted(t, popped, start, good));
        assert forall|i: int| queued(f, i) && i != index implies #[trigger] queued(popped, i) by {
            let x: Entry = choose|x: Entry| #[trigger] f.queue.count(x) > 0 && x.index == i;
            assert(popped.queue.count(x) > 0);
        }
        if p.closed.contains(index) {
            assert forall|i: int| #[trigger] q.frontier.labels.dom().contains(i) implies queued(
                q.frontier,
                i,
            ) || q.closed.contains(i) by {
                assert(f.labels.dom().contains(i));
            }
            assert forall|i: int| #[trigger] q.closed.contains(i) implies explored(
                t,
                q.frontier,
                i,
                8,
            ) by {
                assert(explored(t, f, i, 8));
            }
        } else if index != target && p.expansions + 1 > cap {
            let all: Set<int> = set_int_range(0, cell_count(t));
            lemma_int_range(0, cell_count(t));
            assert forall|i: int| p.closed.insert(index).contains(i) implies all.contains(i) by {
                assert(f.labels.dom().contains(i));
            }
            lemma_len_subset(p.closed.insert(index), all);
        } else if index != target {
            lemma_expanded_explores(t, popped, start, good, index, 8);
            assert(q.closed == p.closed.insert(index));
            assert forall|i: int| #[trigger] q.frontier.labels.dom().contains(i) implies queued(
                q.frontier,
                i,
            ) || q.closed.contains(i) by {
                if popped.labels.dom().contains(i) {
                    assert(f.labels.dom().contains(i));
                    if i != index && queued(f, i) {
                        assert(queued(popped, i));
                    }
                }
            }
            assert forall|i: int| #[trigger] q.closed.contains(i) implies explored(
                t,
                q.frontier,
                i,
                8,
            ) by {
                if i != index {
                    assert(p.closed.contains(i));
                    assert(explored(t, f, i, 8));
                    assert forall|j: int| 0 <= j < 8 && #[trigger] may_step(t, i, j) implies
                        q.frontier.labels.dom().contains(neighbour(t, i, j)) by {
                        assert(popped.labels.dom().contains(neighbour(t, i, j)));
                    }
                }
            }
        }
    }
}

proof fn lemma_progress_thorough(
    t: Model,
    start: int,
    target: int,
    cap: nat,
    good: spec_fn(Real) -> bool,
    n: nat,
)
    requires
        t.valid(),
        steady(t, good),
        0 <= start < cell_count(t),
    ensures
        ({
            let p: Progress = progress_after(t, start, target, cap, n);
            &&& rooted(t, p.frontier, start, good)
            &&& p.phase == Phase::Found ==> p.frontier.labels.dom().contains(target)
            &&& p.phase == Phase::Exhausted ==> p.frontier.queue == Multiset::<Entry>::empty()
            &&& p.phase == Phase::Capped ==> cap < cell_count(t)
            &&& p.phase == Phase::Running || p.phase == Phase::Exhausted ==> thorough(
                t,
                p,
                start,
                target,
                good,
            )
        }),
    decreases n,
{
    if n == 0 {
        lemma_origin_regular(t, start, good);
        let f: Frontier = origin_frontier(t, start);
        assert forall|i: int| #[trigger] f.labels.dom().contains(i) implies queued(f, i) by {
            let e: Entry = Entry {
                key: t.score(Real { bits: 0 }, start).spec_total_key(),
                index: start as usize,
            };
            assert(f.queue.count(e) > 0);
        }
    } else {
        lemma_progress_thorough(t, start, target, cap, good, (n - 1) as nat);
        let p: Progress = progress_after(t, start, target, cap, (n - 1) as nat);
        if p.phase == Phase::Running {
            lemma_advanced_thorough(t, p, start, target, cap, good);
        }
    }
}

/// An exhausted search knows every cell of every route from its start.
proof fn lemma_exhausted_knows(
    t: Model,
    p: Progress,
    start: int,
    target: int,
    good: spec_fn(Real) -> bool,
    route: Seq<int>,
    i: int,
)
    requires
        thorough(t, p, start, target, good),
        p.frontier.queue == Multiset::<Entry>::empty(),
        is_route(t, route),
        route[0] == start,
        0 <= i < route.len(),
    ensures
        p.closed.contains(route[i]),
    decreases i,
{
    let f: Frontier = p.frontier;
    if i > 0 {
        lemma_exhausted_knows(t, p, start, target, good, route, i - 1);
        let a: int = route[i - 1];
        let b: int = route[i - 1 + 1];
        assert(adjoins(t, a, b));
        let k: int = choose|k: int|
            0 <= k < 8 && #[trigger] may_step(t, a, k) && neighbour(t, a, k) == b;
        assert(explored(t, f, a, 8));
        assert(may_step(t, a, k));
    }
    assert(f.labels.dom().contains(route[i]));
    if queued(f, route[i]) {
        let e: Entry = choose|e: Entry| #[trigger] f.queue.count(e) > 0 && e.index == route[i];
        assert(false);
    }
}

/// With steady costs, a search that may expand every cell finds its target if and
/// only if a route leads there, and the labels then lead all the way back.
pub proof fn lemma_settling_decides(
    t: Model,
    start: int,
    target: int,
    cap: nat,
    good: spec_fn(Real) -> bool,
)
    requires
        t.valid(),
        steady(t, good),
        0 <= start < cell_count(t),
    ensures
        ({
            let p: Progress = finish(t, start, target, cap);
            &&& p.phase == Phase::Found ==> reachable(t, start, target) && way_back(
                p.frontier.labels,
                start,
                target,
                cell_count(t) as nat,
            ) is Some
            &&& p.phase == Phase::Exhausted ==> !reachable(t, start, target)
            &&& p.phase == Phase::Capped ==> cap < cell_count(t)
            &&& p.phase != Phase::Running
        }),
{
    lemma_search_ends(t, start, target, cap);
    let n: nat = choose|n: nat| #[trigger]
        progress_after(t, start, target, cap, n).phase != Phase::Running;
    let p: Progress = finish(t, start, target, cap);
    assert(p == progress_after(t, start, target, cap, n));
    lemma_progress_thorough(t, start, target, cap, good, n);
    let f: Frontier = p.frontier;
    if p.phase == Phase::Found {
        lemma_labelled_has_way(t, f, start, good, target);
        lemma_way_back_is_route(t, f, start, target, cell_count(t) as nat);
        let way: Seq<int> = way_back(f.labels, start, target, cell_count(t) as nat).unwrap();
        let route: Seq<int> = way.reverse();
        assert(route[0] == way[way.len() - 1]);
        assert(route[route.len() - 1] == way[0]);
        assert(is_route(t, route) && route[0] == start && route.last() == target);
    }
    if p.phase == Phase::Exhausted && reachable(t, start, target) {
        let route: Seq<int> = choose|route: Seq<int>| #[trigger]
            is_route(t, route) && route[0] == start && route.last() == target;
        lemma_exhausted_knows(t, p, start, target, good, route, route.len() - 1);
        assert(route[route.len() - 1] == target);
    }
}

} // verus!
