//! Best-first search that expands a cell again whenever a better way to it
//! turns up, and the proof that it misses no route.
use vstd::multiset::Multiset;
use vstd::prelude::*;
use vstd::set_lib::*;

use crate::number::{Real, INF, SIGN};
use crate::queue::{lemma_leader_unique, Entry, Queue};
use crate::search::{
    adjoins, cell_count, cost_at, expand, expanded, is_route, lemma_expanded_sound,
    lemma_neighbour_inside, lemma_origin_sound, lemma_popped_sound, lemma_relaxed_sound, linked,
    may_step, neighbour,
    origin_frontier, relaxed, sound, Frontier, Label, Model, Terrain,
};
use crate::settle::{lemma_some_leader, lemma_way_back_is_route, next_entry, way_back, Phase};
use crate::stamped::StampedMap;

verus! {

/// State of a search between two nodes.
pub struct Wave {
    pub frontier: Frontier,
    pub phase: Phase,
}

/// Takes one node from the queue: the target ends the search, every other cell
/// is expanded.
pub open spec fn spread(t: Model, w: Wave, target: int) -> Wave {
    if w.phase != Phase::Running {
        w
    } else if w.frontier.queue == Multiset::<Entry>::empty() {
        Wave { phase: Phase::Exhausted, ..w }
    } else {
        let e: Entry = next_entry(w.frontier.queue);
        let popped: Frontier = Frontier {
            labels: w.frontier.labels,
            queue: w.frontier.queue.remove(e),
        };
        if e.index == target {
            Wave { frontier: popped, phase: Phase::Found }
        } else {
            Wave { frontier: expanded(t, popped, e.index as int, 8), phase: Phase::Running }
        }
    }
}

/// State of a search after `n` nodes.
pub open spec fn wave_after(t: Model, start: int, target: int, n: nat) -> Wave
    decreases n,
{
    if n == 0 {
        Wave { frontier: origin_frontier(t, start), phase: Phase::Running }
    } else {
        spread(t, wave_after(t, start, target, (n - 1) as nat), target)
    }
}

/// State in which a search ends.
pub open spec fn wave_finish(t: Model, start: int, target: int) -> Wave {
    wave_after(
        t,
        start,
        target,
        choose|n: nat| #[trigger] wave_after(t, start, target, n).phase != Phase::Running,
    )
}

proof fn lemma_wave_stays(t: Model, start: int, target: int, n: nat, m: nat)
    requires
        n <= m,
        wave_after(t, start, target, n).phase != Phase::Running,
    ensures
        wave_after(t, start, target, m) == wave_after(t, start, target, n),
    decreases m,
{
    if n < m {
        lemma_wave_stays(t, start, target, n, (m - 1) as nat);
    }
}

/// A search ends in one way only.
pub proof fn lemma_wave_finish_unique(t: Model, start: int, target: int, n: nat)
    requires
        wave_after(t, start, target, n).phase != Phase::Running,
    ensures
        wave_finish(t, start, target) == wave_after(t, start, target, n),
{
    let m: nat = choose|m: nat| #[trigger] wave_after(t, start, target, m).phase != Phase::Running;
    if n <= m {
        lemma_wave_stays(t, start, target, n, m);
    } else {
        lemma_wave_stays(t, start, target, m, n);
    }
}

/// Costs that behave: none is negative or not a number, and a further step
/// makes none smaller or infinite.
pub open spec fn steady(t: Model, good: spec_fn(Real) -> bool) -> bool {
    &&& good(Real { bits: 0 })
    &&& forall|c: Real| #[trigger] good(c) ==> !c.nan() && c.rank() >= 0
    &&& forall|c: Real, to: int, diagonal: bool|
        good(c) && 0 <= to < cell_count(t) ==> {
            let x: Real = #[trigger] t.extended(c, to, diagonal);
            good(x) && c.rank() <= x.rank() < INF
        }
}

/// Whether a cell waits in the queue.
pub open spec fn queued(f: Frontier, index: int) -> bool {
    exists|e: Entry| #[trigger] f.queue.count(e) > 0 && e.index == index
}

/// Whether none of the first `k` steps out of a cell improves on what is known.
pub open spec fn spent(t: Model, f: Frontier, index: int, k: int) -> bool {
    forall|j: int|
        0 <= j < k && #[trigger] may_step(t, index, j) ==> !t.extended(
            cost_at(f.labels, index),
            neighbour(t, index, j),
            j >= 4,
        ).spec_lt(cost_at(f.labels, neighbour(t, index, j)))
}

/// Whether `depth` orders the labelled cells by the labels: a predecessor
/// always lies less deep.
pub open spec fn layered(f: Frontier, depth: spec_fn(int) -> nat) -> bool {
    forall|i: int| #[trigger]
        f.labels.dom().contains(i) && f.labels[i].from != usize::MAX ==> depth(
            f.labels[i].from as int,
        ) < depth(i)
}

/// Whether a cell has a predecessor, which was reached at no greater cost.
pub open spec fn uphill(f: Frontier, index: int) -> bool {
    &&& f.labels[index].from != usize::MAX
    &&& f.labels[f.labels[index].from as int].cost.rank() <= f.labels[index].cost.rank()
}

/// What the labels of a search with steady costs keep up: the start keeps its
/// label, costs do not grow towards it, and no way back runs in a circle.
pub open spec fn rooted(t: Model,
    f: Frontier,
    start: int,
    good: spec_fn(Real) -> bool,
) -> bool {
    &&& sound(t, f)
    &&& f.labels.dom().contains(start)
    &&& f.labels[start] == (Label { cost: Real { bits: 0 }, from: usize::MAX })
    &&& forall|i: int| #[trigger] f.labels.dom().contains(i) ==> good(f.labels[i].cost)
    &&& forall|i: int| f.labels.dom().contains(i) && i != start ==> #[trigger] uphill(f, i)
    &&& exists|depth: spec_fn(int) -> nat| layered(f, depth)
}

/// What a search keeps up while it is expanding `busy`, the first `k` steps of
/// which have been tried: every other labelled cell waits or is spent.
pub open spec fn regular(t: Model,
    f: Frontier,
    start: int,
    good: spec_fn(Real) -> bool,
    busy: int,
    k: int,
) -> bool {
    &&& rooted(t, f, start, good)
    &&& forall|i: int| #[trigger]
        f.labels.dom().contains(i) ==> queued(f, i) || spent(
            t,
            f,
            i,
            if i == busy {
                k
            } else {
                8
            },
        )
}

/// The cell `k` labels back from `x`; `-1` where there is none.
spec fn ancestor(f: Frontier, x: int, k: nat) -> int
    decreases k,
{
    if k == 0 {
        x
    } else if f.labels.dom().contains(x) && f.labels[x].from != usize::MAX {
        ancestor(f, f.labels[x].from as int, (k - 1) as nat)
    } else {
        -1
    }
}

spec fn descends(f: Frontier, x: int, a: int) -> bool {
    exists|k: nat| #[trigger] ancestor(f, x, k) == a
}

proof fn lemma_ancestor_cheaper(t: Model,
    f: Frontier,
    start: int,
    good: spec_fn(Real) -> bool,
    x: int,
    k: nat,
)
    requires
        rooted(t, f, start, good),
        f.labels.dom().contains(x),
        ancestor(f, x, k) != -1,
    ensures
        f.labels.dom().contains(ancestor(f, x, k)),
        f.labels[ancestor(f, x, k)].cost.rank() <= f.labels[x].cost.rank(),
    decreases k,
{
    if k > 0 {
        assert(linked(t, f, x));
        assert(x != start ==> uphill(f, x));
        lemma_ancestor_cheaper(t, f, start, good, f.labels[x].from as int, (k - 1) as nat);
    }
}

/// A better way to a cell never leads through the cell itself, so the labels
/// stay free of cycles.
proof fn lemma_relaxed_layered(t: Model,
    f: Frontier,
    start: int,
    good: spec_fn(Real) -> bool,
    index: int,
    k: int,
)
    requires
        t.valid(),
        steady(t, good),
        rooted(t, f, start, good),
        f.labels.dom().contains(index),
        0 <= k < 8,
    ensures
        exists|depth: spec_fn(int) -> nat| layered(relaxed(t, f, index, k), depth),
{
    let g: Frontier = relaxed(t, f, index, k);
    let depth: spec_fn(int) -> nat = choose|depth: spec_fn(int) -> nat| layered(f, depth);
    assert(layered(f, depth));
    let n: int = neighbour(t, index, k);
    let c: Real = t.extended(cost_at(f.labels, index), n, k >= 4);
    if may_step(t, index, k) && c.spec_lt(cost_at(f.labels, n)) {
        lemma_neighbour_inside(t, index, k);
        assert(good(f.labels[index].cost));
        if descends(f, index, n) {
            let j: nat = choose|j: nat| #[trigger] ancestor(f, index, j) == n;
            lemma_ancestor_cheaper(t, f, start, good, index, j);
            assert(false);
        }
        let deeper: spec_fn(int) -> nat = |x: int|
            if descends(f, x, n) {
                depth(x) + depth(index) + 1
            } else {
                depth(x)
            };
        assert forall|i: int| #[trigger]
            g.labels.dom().contains(i) && g.labels[i].from != usize::MAX implies deeper(
            g.labels[i].from as int,
        ) < deeper(i) by {
            if i == n {
                assert(ancestor(f, n, 0) == n);
                assert(descends(f, n, n));
            } else {
                assert(f.labels.dom().contains(i));
                let from: int = f.labels[i].from as int;
                assert(depth(from) < depth(i));
                if descends(f, from, n) {
                    let j: nat = choose|j: nat| #[trigger] ancestor(f, from, j) == n;
                    assert(ancestor(f, i, j + 1) == n);
                    assert(descends(f, i, n));
                }
                if descends(f, i, n) {
                    let j: nat = choose|j: nat| #[trigger] ancestor(f, i, j) == n;
                    assert(j > 0);
                    assert(ancestor(f, from, (j - 1) as nat) == n);
                    assert(descends(f, from, n));
                }
            }
        }
        assert(layered(g, deeper));
    } else {
        assert(layered(g, depth));
    }
}

/// Trying one step keeps a search rooted.
pub proof fn lemma_relaxed_rooted(t: Model,
    f: Frontier,
    start: int,
    good: spec_fn(Real) -> bool,
    index: int,
    k: int,
)
    requires
        t.valid(),
        steady(t, good),
        rooted(t, f, start, good),
        f.labels.dom().contains(index),
        0 <= k < 8,
    ensures
        rooted(t, relaxed(t, f, index, k), start, good),
        relaxed(t, f, index, k).labels.dom().contains(index),
        relaxed(t, f, index, k).labels[index] == f.labels[index],
{
    let g: Frontier = relaxed(t, f, index, k);
    lemma_relaxed_layered(t, f, start, good, index, k);
    lemma_relaxed_sound(t, f, index, k);
    let n: int = neighbour(t, index, k);
    let c: Real = t.extended(cost_at(f.labels, index), n, k >= 4);
    assert(good(f.labels[index].cost));
    let better: bool = may_step(t, index, k) && c.spec_lt(cost_at(f.labels, n));
    if better {
        lemma_neighbour_inside(t, index, k);
        assert(good(c));
        // the start is never improved on
        assert(n != start);
        assert forall|i: int| #[trigger] g.labels.dom().contains(i) implies good(
            g.labels[i].cost,
        ) by {
            if i != n {
                assert(f.labels.dom().contains(i));
            }
        }
        assert forall|i: int| g.labels.dom().contains(i) && i != start implies #[trigger] uphill(
            g,
            i,
        ) by {
            if i != n {
                assert(f.labels.dom().contains(i));
                assert(uphill(f, i));
                assert(linked(t, f, i));
            }
        }
    }
}

/// A cell that was spent is still spent after a step, unless it was improved.
pub proof fn lemma_relaxed_spent(t: Model,
    f: Frontier,
    start: int,
    good: spec_fn(Real) -> bool,
    index: int,
    k: int,
    i: int,
    m: int,
)
    requires
        t.valid(),
        steady(t, good),
        rooted(t, f, start, good),
        f.labels.dom().contains(index),
        f.labels.dom().contains(i),
        0 <= k < 8,
        m <= 8,
        spent(t, f, i, m),
        relaxed(t, f, index, k).labels[i] == f.labels[i],
    ensures
        spent(t, relaxed(t, f, index, k), i, m),
{
    let g: Frontier = relaxed(t, f, index, k);
    assert(good(f.labels[i].cost));
    assert forall|j: int| 0 <= j < m && #[trigger] may_step(t, i, j) implies !t.extended(
        cost_at(g.labels, i),
        neighbour(t, i, j),
        j >= 4,
    ).spec_lt(cost_at(g.labels, neighbour(t, i, j))) by {
        lemma_neighbour_inside(t, i, j);
        let x: Real = t.extended(cost_at(f.labels, i), neighbour(t, i, j), j >= 4);
        assert(good(x));
        assert(!x.spec_lt(cost_at(f.labels, neighbour(t, i, j))));
    }
}

/// Trying one step keeps a search regular.
proof fn lemma_relaxed_regular(t: Model,
    f: Frontier,
    start: int,
    good: spec_fn(Real) -> bool,
    index: int,
    k: int,
)
    requires
        t.valid(),
        steady(t, good),
        regular(t, f, start, good, index, k),
        f.labels.dom().contains(index),
        0 <= k < 8,
        spent(t, f, index, k),
    ensures
        regular(t, relaxed(t, f, index, k), start, good, index, k + 1),
        spent(t, relaxed(t, f, index, k), index, k + 1),
        relaxed(t, f, index, k).labels.dom().contains(index),
{
    let g: Frontier = relaxed(t, f, index, k);
    lemma_relaxed_rooted(t, f, start, good, index, k);
    let n: int = neighbour(t, index, k);
    let c: Real = t.extended(cost_at(f.labels, index), n, k >= 4);
    let better: bool = may_step(t, index, k) && c.spec_lt(cost_at(f.labels, n));
    if better {
        lemma_neighbour_inside(t, index, k);
        let entry: Entry = Entry { key: t.score(c, n).spec_total_key(), index: n as usize };
        assert(g.queue.count(entry) > 0);
        assert(queued(g, n));
    }
    lemma_relaxed_spent(t, f, start, good, index, k, index, k);
    assert(spent(t, g, index, k + 1)) by {
        assert forall|j: int| 0 <= j < k + 1 && #[trigger] may_step(t, index, j) implies !t.extended(
            cost_at(g.labels, index),
            neighbour(t, index, j),
            j >= 4,
        ).spec_lt(cost_at(g.labels, neighbour(t, index, j))) by {}
    }
    assert forall|i: int| #[trigger] g.labels.dom().contains(i) implies queued(g, i) || spent(
        t,
        g,
        i,
        if i == index {
            k + 1
        } else {
            8
        },
    ) by {
        if !(better && i == n) && i != index {
            assert(f.labels.dom().contains(i));
            if queued(f, i) {
                let e: Entry = choose|e: Entry| #[trigger] f.queue.count(e) > 0 && e.index == i;
                assert(g.queue.count(e) > 0);
            } else {
                lemma_relaxed_spent(t, f, start, good, index, k, i, 8);
            }
        }
    }
}

/// Expanding a cell that just left the queue keeps a search regular.
proof fn lemma_expanded_regular(t: Model,
    f: Frontier,
    start: int,
    good: spec_fn(Real) -> bool,
    index: int,
    k: int,
)
    requires
        t.valid(),
        steady(t, good),
        regular(t, f, start, good, index, 0),
        f.labels.dom().contains(index),
        0 <= k <= 8,
    ensures
        regular(t, expanded(t, f, index, k), start, good, index, k),
        spent(t, expanded(t, f, index, k), index, k),
        expanded(t, f, index, k).labels.dom().contains(index),
    decreases k,
{
    if k > 0 {
        lemma_expanded_regular(t, f, start, good, index, k - 1);
        lemma_relaxed_regular(t, expanded(t, f, index, k - 1), start, good, index, k - 1);
    }
}

/// The first frontier is regular.
pub proof fn lemma_origin_regular(t: Model, start: int, good: spec_fn(Real) -> bool)
    requires
        t.valid(),
        steady(t, good),
        0 <= start < cell_count(t),
    ensures
        regular(t, origin_frontier(t, start), start, good, -1, 8),
{
    lemma_origin_sound(t, start);
    let f: Frontier = origin_frontier(t, start);
    let e: Entry = Entry {
        key: t.score(Real { bits: 0 }, start).spec_total_key(),
        index: start as usize,
    };
    assert(f.queue.count(e) > 0);
    assert(queued(f, start));
    let depth: spec_fn(int) -> nat = |x: int| 0nat;
    assert(layered(f, depth));
}

/// A search stays regular when a node leaves the queue to be expanded.
proof fn lemma_popped_regular(t: Model,
    f: Frontier,
    start: int,
    good: spec_fn(Real) -> bool,
    e: Entry,
)
    requires
        regular(t, f, start, good, -1, 8),
        f.queue.count(e) > 0,
    ensures
        regular(
            t,
            (Frontier { labels: f.labels, queue: f.queue.remove(e) }),
            start,
            good,
            e.index as int,
            0,
        ),
{
    let popped: Frontier = Frontier { labels: f.labels, queue: f.queue.remove(e) };
    let index: int = e.index as int;
    lemma_popped_sound(t, f, e);
    let depth: spec_fn(int) -> nat = choose|depth: spec_fn(int) -> nat| layered(f, depth);
    assert(layered(popped, depth));
    assert forall|i: int| popped.labels.dom().contains(i) && i != start implies #[trigger] uphill(
        popped,
        i,
    ) by {
        assert(uphill(f, i));
    }
    assert forall|i: int| #[trigger] popped.labels.dom().contains(i) implies queued(popped, i)
        || spent(
        t,
        popped,
        i,
        if i == index {
            0
        } else {
            8
        },
    ) by {
        if i != index {
            assert(f.labels.dom().contains(i));
            if queued(f, i) {
                let x: Entry = choose|x: Entry| #[trigger] f.queue.count(x) > 0 && x.index == i;
                assert(popped.queue.count(x) > 0);
            } else {
                assert(spent(t, f, i, 8));
                assert(spent(t, popped, i, 8));
            }
        }
    }
}

/// Every state of a search with steady costs is rooted, and regular unless the
/// target was found.
pub proof fn lemma_wave_regular(t: Model,
    start: int,
    target: int,
    good: spec_fn(Real) -> bool,
    n: nat,
)
    requires
        t.valid(),
        steady(t, good),
        0 <= start < cell_count(t),
    ensures
        ({
            let w: Wave = wave_after(t, start, target, n);
            &&& rooted(t, w.frontier, start, good)
            &&& w.phase != Phase::Found ==> regular(t, w.frontier, start, good, -1, 8)
            &&& w.phase == Phase::Found ==> w.frontier.labels.dom().contains(target)
            &&& w.phase == Phase::Exhausted ==> w.frontier.queue == Multiset::<Entry>::empty()
            &&& w.phase != Phase::Capped
        }),
    decreases n,
{
    if n == 0 {
        lemma_origin_regular(t, start, good);
    } else {
        lemma_wave_regular(t, start, target, good, (n - 1) as nat);
        let v: Wave = wave_after(t, start, target, (n - 1) as nat);
        if v.phase == Phase::Running && v.frontier.queue != Multiset::<Entry>::empty() {
            let f: Frontier = v.frontier;
            lemma_some_leader(f.queue);
            let e: Entry = next_entry(f.queue);
            let index: int = e.index as int;
            assert(f.queue.count(e) > 0);
            assert(f.labels.dom().contains(index));
            lemma_popped_regular(t, f, start, good, e);
            let popped: Frontier = Frontier { labels: f.labels, queue: f.queue.remove(e) };
            if index != target {
                lemma_expanded_regular(t, popped, start, good, index, 8);
                lemma_unbusy(t, expanded(t, popped, index, 8), start, good, index);
            }
        }
    }
}

proof fn lemma_unbusy(t: Model,
    f: Frontier,
    start: int,
    good: spec_fn(Real) -> bool,
    busy: int,
)
    requires
        regular(t, f, start, good, busy, 8),
    ensures
        regular(t, f, start, good, -1, 8),
{
}

/// Whether some route leads from one cell to another.
pub open spec fn reachable(t: Model, start: int, target: int) -> bool {
    exists|route: Seq<int>| #[trigger]
        is_route(t, route) && route[0] == start && route.last() == target
}

proof fn lemma_exhausted_labels(t: Model,
    f: Frontier,
    start: int,
    good: spec_fn(Real) -> bool,
    route: Seq<int>,
    i: int,
)
    requires
        t.valid(),
        steady(t, good),
        regular(t, f, start, good, -1, 8),
        f.queue == Multiset::<Entry>::empty(),
        is_route(t, route),
        route[0] == start,
        0 <= i < route.len(),
    ensures
        f.labels.dom().contains(route[i]),
    decreases i,
{
    if i > 0 {
        lemma_exhausted_labels(t, f, start, good, route, i - 1);
        let a: int = route[i - 1];
        let b: int = route[i - 1 + 1];
        assert(adjoins(t, a, b));
        let k: int = choose|k: int|
            0 <= k < 8 && #[trigger] may_step(t, a, k) && neighbour(t, a, k) == b;
        assert(f.labels.dom().contains(a));
        if queued(f, a) {
            let e: Entry = choose|e: Entry| #[trigger] f.queue.count(e) > 0 && e.index == a;
            assert(false);
        }
        assert(spent(t, f, a, 8));
        assert(good(f.labels[a].cost));
        lemma_neighbour_inside(t, a, k);
        let x: Real = t.extended(cost_at(f.labels, a), b, k >= 4);
        assert(good(x));
        assert(may_step(t, a, k));
        assert(!x.spec_lt(cost_at(f.labels, b)));
    }
}

proof fn lemma_way_length(labels: Map<int, Label>, start: int, cursor: int, a: nat, b: nat)
    requires
        way_back(labels, start, cursor, a) matches Some(way) && way.len() <= b,
    ensures
        way_back(labels, start, cursor, b) == way_back(labels, start, cursor, a),
    decreases a,
{
    if cursor != start && b > 0 {
        lemma_way_length(
            labels,
            start,
            labels[cursor].from as int,
            (a - 1) as nat,
            (b - 1) as nat,
        );
    }
}

proof fn lemma_way_exists(t: Model,
    f: Frontier,
    start: int,
    good: spec_fn(Real) -> bool,
    depth: spec_fn(int) -> nat,
    cursor: int,
)
    requires
        rooted(t, f, start, good),
        layered(f, depth),
        f.labels.dom().contains(cursor),
    ensures
        way_back(f.labels, start, cursor, depth(cursor) + 1) matches Some(way) && {
            &&& way.len() > 0
            &&& forall|i: int| 0 <= i < way.len() ==> depth(#[trigger] way[i]) <= depth(cursor)
            &&& way.no_duplicates()
        },
    decreases depth(cursor),
{
    if cursor != start {
        let from: int = f.labels[cursor].from as int;
        assert(uphill(f, cursor));
        assert(linked(t, f, cursor));
        assert(depth(from) < depth(cursor));
        lemma_way_exists(t, f, start, good, depth, from);
        let rest: Seq<int> = way_back(f.labels, start, from, depth(from) + 1).unwrap();
        lemma_way_back_is_route(t, f, start, from, depth(from) + 1);
        lemma_way_length(f.labels, start, from, depth(from) + 1, depth(cursor));
        let way: Seq<int> = seq![cursor] + rest;
        assert forall|i: int| 0 <= i < way.len() implies depth(#[trigger] way[i]) <= depth(
            cursor,
        ) by {
            if i > 0 {
                assert(way[i] == rest[i - 1]);
            }
        }
        assert forall|i: int, j: int|
            0 <= i < way.len() && 0 <= j < way.len() && i != j implies way[i] != way[j] by {
            if i > 0 && j > 0 {
                assert(way[i] == rest[i - 1]);
                assert(way[j] == rest[j - 1]);
            } else if i > 0 {
                assert(way[i] == rest[i - 1]);
                assert(depth(rest[i - 1]) <= depth(from));
            } else {
                assert(way[j] == rest[j - 1]);
                assert(depth(rest[j - 1]) <= depth(from));
            }
        }
        assert(way_back(f.labels, start, cursor, depth(cursor) + 1) == Some(way));
    } else {
        assert(seq![cursor].no_duplicates());
    }
}

/// The labels lead from every labelled cell back to the start, over no more
/// cells than the grid has.
pub proof fn lemma_labelled_has_way(t: Model,
    f: Frontier,
    start: int,
    good: spec_fn(Real) -> bool,
    target: int,
)
    requires
        t.valid(),
        rooted(t, f, start, good),
        f.labels.dom().contains(target),
    ensures
        way_back(f.labels, start, target, cell_count(t) as nat) is Some,
{
    let depth: spec_fn(int) -> nat = choose|depth: spec_fn(int) -> nat| layered(f, depth);
    lemma_way_exists(t, f, start, good, depth, target);
    let fuel: nat = depth(target) + 1;
    let way: Seq<int> = way_back(f.labels, start, target, fuel).unwrap();
    lemma_way_back_is_route(t, f, start, target, fuel);
    let all: Set<int> = set_int_range(0, cell_count(t));
    lemma_int_range(0, cell_count(t));
    way.unique_seq_to_set();
    assert forall|i: int| way.to_set().contains(i) implies all.contains(i) by {
        assert(way.contains(i));
        let j: int = choose|j: int| 0 <= j < way.len() && way[j] == i;
        assert(f.labels.dom().contains(way[j]));
    }
    lemma_len_subset(way.to_set(), all);
    lemma_way_length(f.labels, start, target, fuel, cell_count(t) as nat);
}

/// With steady costs, a finished search has labelled its target if and only if
/// a route leads there, and the labels then lead all the way back.
pub proof fn lemma_search_decides(t: Model,
    start: int,
    target: int,
    good: spec_fn(Real) -> bool,
)
    requires
        t.valid(),
        steady(t, good),
        0 <= start < cell_count(t),
    ensures
        ({
            let labels: Map<int, Label> = wave_finish(t, start, target).frontier.labels;
            &&& labels.dom().contains(target) <==> reachable(t, start, target)
            &&& labels.dom().contains(target) ==> way_back(
                labels,
                start,
                target,
                cell_count(t) as nat,
            ) is Some
            &&& labels.dom().contains(start) && labels[start].from == usize::MAX
            &&& forall|i: int| #[trigger]
                labels.dom().contains(i) && i != start ==> labels[i].from != usize::MAX
            &&& sound(t, wave_finish(t, start, target).frontier)
        }),
{
    lemma_wave_ends(t, start, target);
    let n: nat = choose|n: nat| #[trigger]
        wave_after(t, start, target, n).phase != Phase::Running;
    let labels: Map<int, Label> = wave_finish(t, start, target).frontier.labels;
    let w: Wave = wave_after(t, start, target, n);
    let f: Frontier = w.frontier;
    lemma_wave_regular(t, start, target, good, n);
    assert forall|i: int| #[trigger]
        labels.dom().contains(i) && i != start implies labels[i].from != usize::MAX by {
        assert(uphill(f, i));
    }
    if labels.dom().contains(target) {
        lemma_labelled_has_way(t, f, start, good, target);
        lemma_way_back_is_route(t, f, start, target, cell_count(t) as nat);
        let way: Seq<int> = way_back(labels, start, target, cell_count(t) as nat).unwrap();
        let route: Seq<int> = way.reverse();
        assert(route[0] == way[way.len() - 1]);
        assert(route[route.len() - 1] == way[0]);
        assert(is_route(t, route) && route[0] == start && route.last() == target);
        assert(reachable(t, start, target));
    }
    if reachable(t, start, target) && w.phase == Phase::Exhausted {
        let route: Seq<int> = choose|route: Seq<int>| #[trigger]
            is_route(t, route) && route[0] == start && route.last() == target;
        lemma_exhausted_labels(t, f, start, good, route, route.len() - 1);
        assert(route[route.len() - 1] == target);
        assert(labels.dom().contains(target));
    }
}

/// Sum of the ranks of what is known of the first `n` cells.
spec fn burden(labels: Map<int, Label>, n: int) -> int
    decreases n,
{
    if n <= 0 {
        0
    } else {
        burden(labels, n - 1) + cost_at(labels, n - 1).rank() + SIGN
    }
}

proof fn lemma_burden_insert(labels: Map<int, Label>, n: int, i: int, label: Label)
    ensures
        burden(labels.insert(i, label), n) == burden(labels, n) + (if 0 <= i < n {
            label.cost.rank() - cost_at(labels, i).rank()
        } else {
            0
        }),
    decreases n,
{
    if n > 0 {
        lemma_burden_insert(labels, n - 1, i, label);
    }
}

proof fn lemma_burden_positive(labels: Map<int, Label>, n: int)
    ensures
        burden(labels, n) >= 0,
    decreases n,
{
    if n > 0 {
        lemma_burden_positive(labels, n - 1);
    }
}

proof fn lemma_expanded_burden(t: Model, f: Frontier, index: int, k: int)
    requires
        t.valid(),
        sound(t, f),
        f.labels.dom().contains(index),
        0 <= k <= 8,
    ensures
        ({
            let g: Frontier = expanded(t, f, index, k);
            ||| burden(g.labels, cell_count(t)) < burden(f.labels, cell_count(t))
            ||| g == f
        }),
    decreases k,
{
    if k > 0 {
        lemma_expanded_burden(t, f, index, k - 1);
        lemma_expanded_sound(t, f, index, k - 1);
        let g: Frontier = expanded(t, f, index, k - 1);
        let n: int = neighbour(t, index, k - 1);
        if may_step(t, index, k - 1) {
            assert(g.labels.dom().contains(index));
            lemma_neighbour_inside(t, index, k - 1);
            let cost: Real = t.extended(cost_at(g.labels, index), n, k - 1 >= 4);
            lemma_burden_insert(
                g.labels,
                cell_count(t),
                n,
                Label { cost, from: index as usize },
            );
        }
    }
}

/// Every search ends.
pub proof fn lemma_wave_ends(t: Model, start: int, target: int)
    requires
        t.valid(),
        0 <= start < cell_count(t),
    ensures
        wave_finish(t, start, target).phase != Phase::Running,
        sound(t, wave_finish(t, start, target).frontier),
{
    lemma_origin_sound(t, start);
    let n: nat = lemma_wave_ends_from(t, start, target, 0);
    lemma_wave_finish_unique(t, start, target, n);
}

proof fn lemma_wave_ends_from(t: Model, start: int, target: int, n: nat) -> (m: nat)
    requires
        t.valid(),
        sound(t, wave_after(t, start, target, n).frontier),
    ensures
        wave_after(t, start, target, m).phase != Phase::Running,
        sound(t, wave_after(t, start, target, m).frontier),
    decreases
            burden(wave_after(t, start, target, n).frontier.labels, cell_count(t)),
            wave_after(t, start, target, n).frontier.queue.len(),
{
    broadcast use vstd::multiset::group_multiset_axioms;

    let v: Wave = wave_after(t, start, target, n);
    let w: Wave = wave_after(t, start, target, n + 1);
    assert(w == spread(t, v, target));
    if v.phase != Phase::Running {
        n
    } else if v.frontier.queue == Multiset::<Entry>::empty() {
        n + 1
    } else {
        lemma_some_leader(v.frontier.queue);
        let e: Entry = next_entry(v.frontier.queue);
        lemma_popped_sound(t, v.frontier, e);
        assert(v.frontier.queue.count(e) > 0);
        assert(v.frontier.labels.dom().contains(e.index as int));
        let f: Frontier = Frontier {
            labels: v.frontier.labels,
            queue: v.frontier.queue.remove(e),
        };
        lemma_expanded_sound(t, f, e.index as int, 8);
        lemma_expanded_burden(t, f, e.index as int, 8);
        lemma_burden_positive(f.labels, cell_count(t));
        lemma_burden_positive(w.frontier.labels, cell_count(t));
        lemma_wave_ends_from(t, start, target, n + 1)
    }
}

/// Searches from `start` for `target`.
///
/// Both collections are scratch space; what they held before does not matter.
pub fn spread_out<T: Terrain>(
    t: &T,
    start: usize,
    target: usize,
    labels: &mut StampedMap<Label>,
    queue: &mut Queue,
)
    requires
        t.ready(),
        start < cell_count(t.model()),
        target < cell_count(t.model()),
        old(labels).wf(),
    ensures
        final(labels).wf(),
        final(queue).wf(),
        final(labels).capacity() >= cell_count(t.model()),
        final(labels)@ == wave_finish(t.model(), start as int, target as int).frontier.labels,
        sound(t.model(), (Frontier { labels: final(labels)@, queue: final(queue)@ })),
{
    let ghost m: Model = t.model();
    let zero: Real = Real { bits: 0 };
    proof {
        t.lemma_ready();
    }
    let ghost count: int = cell_count(m);
    let cells: usize = t.width() * t.height();
    labels.reset(cells, Label { cost: zero, from: usize::MAX });
    queue.clear();
    labels.set(start, Label { cost: zero, from: usize::MAX });
    let key: i64 = t.score_at(zero, start).total_key();
    queue.push(Entry { key, index: start });
    let ghost mut w: Wave = Wave {
        frontier: origin_frontier(m, start as int),
        phase: Phase::Running,
    };
    let ghost mut n: nat = 0;
    proof {
        lemma_origin_sound(m, start as int);
        assert(wave_after(m, start as int, target as int, 0) == w);
    }
    loop
        invariant_except_break
            w.phase == Phase::Running,
        invariant
            t.ready(),
            m == t.model(),
            m.valid(),
            count == cell_count(m),
            labels.wf(),
            queue.wf(),
            labels.capacity() >= count,
            w == wave_after(m, start as int, target as int, n),
            sound(m, w.frontier),
            w.frontier.labels == labels@,
            w.frontier.queue == queue@,
        ensures
            w.phase != Phase::Running,
        decreases burden(labels@, count), queue@.len(),
    {
        let ghost before: Wave = w;
        let popped: Option<Entry> = queue.pop();
        proof {
            n = n + 1;
            w = spread(m, before, target as int);
            assert(w == wave_after(m, start as int, target as int, n));
            lemma_burden_positive(before.frontier.labels, count);
        }
        match popped {
            None => {
                break;
            },
            Some(e) => {
                proof {
                    lemma_leader_unique(
                        before.frontier.queue,
                        next_entry(before.frontier.queue),
                        e,
                    );
                    lemma_popped_sound(m, before.frontier, e);
                    assert(before.frontier.queue.count(e) > 0);
                    assert(before.frontier.labels.dom().contains(e.index as int));
                }
                if e.index == target {
                    break;
                }
                proof {
                    let f: Frontier = Frontier {
                        labels: before.frontier.labels,
                        queue: before.frontier.queue.remove(e),
                    };
                    lemma_expanded_sound(m, f, e.index as int, 8);
                    lemma_expanded_burden(m, f, e.index as int, 8);
                    lemma_burden_positive(expanded(m, f, e.index as int, 8).labels, count);
                }
                expand(t, labels, queue, e.index);
            },
        }
    }
    proof {
        lemma_wave_finish_unique(m, start as int, target as int, n);
    }
}

} // verus!
