//! Best-first search in which every cell is expanded at most once.
use vstd::multiset::Multiset;
use vstd::prelude::*;
use vstd::set_lib::*;

use crate::number::Real;
use crate::queue::{leads, lemma_leader_unique, no_later, Entry, Queue};
use crate::search::{
    adjoins, cell_count, expand, expanded, is_route, lemma_expanded_sound, lemma_origin_sound,
    lemma_popped_sound, linked, origin_frontier, sound, Frontier, Label, Model, Terrain,
};
use crate::stamped::StampedMap;

verus! {

/// Where a search stands.
#[derive(Clone, Copy, PartialEq, Eq, Structural, Debug)]
pub enum Phase {
    /// Nodes are still to be taken from the queue.
    Running,
    /// The target left the queue.
    Found,
    /// More cells were expanded than allowed.
    Capped,
    /// The queue ran empty.
    Exhausted,
}

/// State of a search between two nodes.
pub struct Progress {
    pub frontier: Frontier,
    /// Cells that have been taken from the queue.
    pub closed: Set<int>,
    /// The taken cell of least estimate, and that estimate.
    pub best: int,
    pub best_estimate: Real,
    pub expansions: nat,
    pub phase: Phase,
}

/// The node that leaves a queue next.
pub open spec fn next_entry(queue: Multiset<Entry>) -> Entry {
    choose|e: Entry| leads(queue, e)
}

/// State of a search before its first node.
pub open spec fn outset(t: Model, start: int) -> Progress {
    Progress {
        frontier: origin_frontier(t, start),
        closed: Set::<int>::empty(),
        best: start,
        best_estimate: t.estimate(start),
        expansions: 0,
        phase: Phase::Running,
    }
}

/// Takes one node from the queue: a cell that was taken before is dropped, the
/// target ends the search, every other cell is expanded while the cap allows.
pub open spec fn advanced(t: Model, p: Progress, target: int, cap: nat) -> Progress {
    if p.phase != Phase::Running {
        p
    } else if p.frontier.queue == Multiset::<Entry>::empty() {
        Progress { phase: Phase::Exhausted, ..p }
    } else {
        let e: Entry = next_entry(p.frontier.queue);
        let index: int = e.index as int;
        let popped: Frontier = Frontier {
            labels: p.frontier.labels,
            queue: p.frontier.queue.remove(e),
        };
        if p.closed.contains(index) {
            Progress { frontier: popped, ..p }
        } else {
            let closer: bool = t.estimate(index).spec_lt(p.best_estimate);
            let taken: Progress = Progress {
                frontier: popped,
                closed: p.closed.insert(index),
                best: if closer {
                    index
                } else {
                    p.best
                },
                best_estimate: if closer {
                    t.estimate(index)
                } else {
                    p.best_estimate
                },
                ..p
            };
            if index == target {
                Progress { phase: Phase::Found, ..taken }
            } else if p.expansions + 1 > cap {
                Progress { expansions: p.expansions + 1, phase: Phase::Capped, ..taken }
            } else {
                Progress {
                    expansions: p.expansions + 1,
                    frontier: expanded(t, popped, index, 8),
                    ..taken
                }
            }
        }
    }
}

/// State of a search after `n` nodes.
pub open spec fn progress_after(t: Model,
    start: int,
    target: int,
    cap: nat,
    n: nat,
) -> Progress
    decreases n,
{
    if n == 0 {
        outset(t, start)
    } else {
        advanced(t, progress_after(t, start, target, cap, (n - 1) as nat), target, cap)
    }
}

/// How a search ended.
#[derive(Clone, Copy, PartialEq, Eq, Structural, Debug)]
pub struct Settled {
    pub found: bool,
    pub best: usize,
    pub best_estimate: Real,
}

/// State in which a search ends.
pub open spec fn finish(t: Model, start: int, target: int, cap: nat) -> Progress {
    progress_after(
        t,
        start,
        target,
        cap,
        choose|n: nat| #[trigger] progress_after(t, start, target, cap, n).phase != Phase::Running,
    )
}

/// A queue that is not empty has a node that leaves next.
pub proof fn lemma_some_leader(m: Multiset<Entry>)
    requires
        m != Multiset::<Entry>::empty(),
    ensures
        leads(m, next_entry(m)),
    decreases m.len(),
{
    broadcast use vstd::multiset::group_multiset_axioms;

    if m.len() == 0 {
        assert(m =~= Multiset::<Entry>::empty());
        assert(false);
    }
    let x: Entry = m.choose();
    assert(m.count(x) > 0);
    let rest: Multiset<Entry> = m.remove(x);
    if rest == Multiset::<Entry>::empty() {
        assert forall|y: Entry| m.count(y) > 0 implies #[trigger] no_later(x, y) by {
            if y != x {
                assert(rest.count(y) > 0);
            }
        }
        assert(leads(m, x));
    } else {
        lemma_some_leader(rest);
        let y: Entry = next_entry(rest);
        assert(rest.count(y) > 0);
        if no_later(x, y) {
            assert forall|z: Entry| m.count(z) > 0 implies #[trigger] no_later(
                x,
                z,
            ) by {
                if z != x {
                    assert(rest.count(z) > 0);
                    assert(no_later(y, z));
                }
            }
            assert(leads(m, x));
        } else {
            assert forall|z: Entry| m.count(z) > 0 implies #[trigger] no_later(
                y,
                z,
            ) by {
                if z != x {
                    assert(rest.count(z) > 0);
                    assert(no_later(y, z));
                }
            }
            assert(leads(m, y));
        }
    }
}

/// A search that has ended stays as it is.
proof fn lemma_finished_stays(t: Model, start: int, target: int, cap: nat, n: nat, m: nat)
    requires
        n <= m,
        progress_after(t, start, target, cap, n).phase != Phase::Running,
    ensures
        progress_after(t, start, target, cap, m) == progress_after(t, start, target, cap, n),
    decreases m,
{
    if n < m {
        lemma_finished_stays(t, start, target, cap, n, (m - 1) as nat);
    }
}

/// A search ends in one way only.
pub proof fn lemma_finish_unique(t: Model, start: int, target: int, cap: nat, n: nat)
    requires
        progress_after(t, start, target, cap, n).phase != Phase::Running,
    ensures
        finish(t, start, target, cap) == progress_after(t, start, target, cap, n),
{
    let m: nat = choose|m: nat| #[trigger]
        progress_after(t, start, target, cap, m).phase != Phase::Running;
    if n <= m {
        lemma_finished_stays(t, start, target, cap, n, m);
    } else {
        lemma_finished_stays(t, start, target, cap, m, n);
    }
}

/// What holds of a search at every node.
pub open spec fn on_course(t: Model, p: Progress, start: int) -> bool {
    &&& sound(t, p.frontier)
    &&& forall|i: int| #[trigger] p.closed.contains(i) ==> p.frontier.labels.dom().contains(i)
    &&& p.frontier.labels.dom().contains(p.best)
    &&& p.frontier.labels.dom().contains(start)
}

/// Taking a node keeps a search on course.
pub proof fn lemma_advanced_on_course(t: Model,
    p: Progress,
    start: int,
    target: int,
    cap: nat,
    e: Entry,
)
    requires
        t.valid(),
        on_course(t, p, start),
        p.phase == Phase::Running,
        leads(p.frontier.queue, e),
    ensures
        on_course(t, advanced(t, p, target, cap), start),
        next_entry(p.frontier.queue) == e,
        p.frontier.queue != Multiset::<Entry>::empty(),
        0 <= e.index < cell_count(t),
        p.frontier.labels.dom().contains(e.index as int),
{
    lemma_leader_unique(p.frontier.queue, next_entry(p.frontier.queue), e);
    lemma_popped_sound(t, p.frontier, e);
    let popped: Frontier = Frontier {
        labels: p.frontier.labels,
        queue: p.frontier.queue.remove(e),
    };
    assert(p.frontier.queue.count(e) > 0);
    assert(p.frontier.labels.dom().contains(e.index as int));
    lemma_expanded_keeps(t, popped, e.index as int, 8);
    lemma_expanded_sound(t, popped, e.index as int, 8);
    let q: Progress = advanced(t, p, target, cap);
    assert forall|i: int| #[trigger] q.closed.contains(i) implies q.frontier.labels.dom().contains(
        i,
    ) by {
        if p.closed.contains(i) {
            assert(p.frontier.labels.dom().contains(i));
        }
    }
}

/// Expanding a cell unlabels none.
pub proof fn lemma_expanded_keeps(t: Model, f: Frontier, index: int, k: int)
    ensures
        forall|i: int|
            f.labels.dom().contains(i) ==> #[trigger] expanded(
                t,
                f,
                index,
                k,
            ).labels.dom().contains(i),
    decreases k,
{
    if k > 0 {
        lemma_expanded_keeps(t, f, index, k - 1);
        assert forall|i: int| f.labels.dom().contains(i) implies #[trigger] expanded(
            t,
            f,
            index,
            k,
        ).labels.dom().contains(i) by {
            assert(expanded(t, f, index, k - 1).labels.dom().contains(i));
        }
    }
}

/// Searches from `start` for `target`, expanding at most `cap` cells.
///
/// The three collections are scratch space; what they held before does not
/// matter.
pub fn settle<T: Terrain>(
    t: &T,
    start: usize,
    target: usize,
    cap: usize,
    labels: &mut StampedMap<Label>,
    closed: &mut StampedMap<bool>,
    queue: &mut Queue,
) -> (r: Settled)
    requires
        t.ready(),
        start < cell_count(t.model()),
        target < cell_count(t.model()),
        old(labels).wf(),
        old(closed).wf(),
    ensures
        final(labels).wf(),
        final(closed).wf(),
        final(queue).wf(),
        final(labels).capacity() >= cell_count(t.model()),
        ({
            let end: Progress = finish(t.model(), start as int, target as int, cap as nat);
            &&& final(labels)@ == end.frontier.labels
            &&& r.found == (end.phase == Phase::Found)
            &&& r.best == end.best
            &&& r.best_estimate == end.best_estimate
            &&& end.phase != Phase::Running
            &&& on_course(t.model(), end, start as int)
        }),
        sound(t.model(), (Frontier { labels: final(labels)@, queue: final(queue)@ })),
        final(labels)@.dom().contains(r.best as int),
        final(labels)@.dom().contains(start as int),
        r.found ==> final(labels)@.dom().contains(target as int),
{
    let ghost m: Model = t.model();
    let zero: Real = Real { bits: 0 };
    proof {
        t.lemma_ready();
    }
    let ghost count: int = cell_count(m);
    let cells: usize = t.width() * t.height();
    labels.reset(cells, Label { cost: zero, from: usize::MAX });
    closed.reset(cells, false);
    queue.clear();
    labels.set(start, Label { cost: zero, from: usize::MAX });
    let key: i64 = t.score_at(zero, start).total_key();
    queue.push(Entry { key, index: start });
    let mut best: usize = start;
    let mut best_estimate: Real = t.estimate_at(start);
    let mut expansions: usize = 0;
    let mut found: bool = false;
    let ghost mut p: Progress = outset(m, start as int);
    let ghost mut n: nat = 0;
    proof {
        lemma_origin_sound(m, start as int);
        assert(closed@.dom() =~= Set::<int>::empty());
        assert(progress_after(m, start as int, target as int, cap as nat, 0) == p);
    }
    loop
        invariant_except_break
            p.phase == Phase::Running,
            !found,
        invariant
            t.ready(),
            m == t.model(),
            m.valid(),
            count == cell_count(m),
            count <= usize::MAX,
            target < count,
            labels.wf(),
            closed.wf(),
            queue.wf(),
            labels.capacity() >= count,
            closed.capacity() >= count,
            p == progress_after(m, start as int, target as int, cap as nat, n),
            on_course(m, p, start as int),
            p.frontier.labels == labels@,
            p.frontier.queue == queue@,
            p.closed == closed@.dom(),
            p.closed.finite(),
            p.best == best,
            p.best_estimate == best_estimate,
            p.expansions == expansions,
            expansions <= p.closed.len(),
        ensures
            p.phase != Phase::Running,
            found == (p.phase == Phase::Found),
            found ==> labels@.dom().contains(target as int),
        decreases count - p.closed.len(), queue.length(),
    {
        let ghost before: Progress = p;
        let popped: Option<Entry> = queue.pop();
        proof {
            n = n + 1;
            p = advanced(m, before, target as int, cap as nat);
            assert(p == progress_after(m, start as int, target as int, cap as nat, n));
        }
        match popped {
            None => {
                break;
            },
            Some(e) => {
                proof {
                    lemma_advanced_on_course(
                        m,
                        before,
                        start as int,
                        target as int,
                        cap as nat,
                        e,
                    );
                }
                let index: usize = e.index;
                if closed.contains(index) {
                    continue;
                }
                closed.set(index, true);
                proof {
                    assert(closed@.dom() =~= before.closed.insert(index as int));
                    lemma_closed_bound(m, p, start as int);
                }
                let estimate: Real = t.estimate_at(index);
                if estimate.lt(best_estimate) {
                    best_estimate = estimate;
                    best = index;
                }
                if index == target {
                    found = true;
                    break;
                }
                expansions = expansions + 1;
                if expansions > cap {
                    break;
                }
                proof {
                    lemma_popped_sound(m, before.frontier, e);
                }
                expand(t, labels, queue, index);
            },
        }
    }
    proof {
        lemma_finish_unique(m, start as int, target as int, cap as nat, n);
        assert(labels@.dom().contains(start as int));
    }
    Settled { found, best, best_estimate }
}

proof fn lemma_closed_bound(t: Model, p: Progress, start: int)
    requires
        t.valid(),
        on_course(t, p, start),
    ensures
        p.closed.finite(),
        p.closed.len() <= cell_count(t),
{
    let all: Set<int> = set_int_range(0, cell_count(t));
    lemma_int_range(0, cell_count(t));
    assert forall|i: int| p.closed.contains(i) implies all.contains(i) by {
        assert(p.frontier.labels.dom().contains(i));
    }
    lemma_len_subset(p.closed, all);
}

/// Every search ends.
pub proof fn lemma_search_ends(t: Model, start: int, target: int, cap: nat)
    requires
        t.valid(),
        0 <= start < cell_count(t),
    ensures
        finish(t, start, target, cap).phase != Phase::Running,
        on_course(t, finish(t, start, target, cap), start),
{
    lemma_origin_sound(t, start);
    let n: nat = lemma_ends_from(t, start, target, cap, 0);
    lemma_finish_unique(t, start, target, cap, n);
}

proof fn lemma_ends_from(t: Model, start: int, target: int, cap: nat, n: nat) -> (m: nat)
    requires
        t.valid(),
        on_course(t, progress_after(t, start, target, cap, n), start),
    ensures
        progress_after(t, start, target, cap, m).phase != Phase::Running,
        on_course(t, progress_after(t, start, target, cap, m), start),
    decreases
            cell_count(t) - progress_after(t, start, target, cap, n).closed.len(),
            progress_after(t, start, target, cap, n).frontier.queue.len(),
{
    broadcast use vstd::multiset::group_multiset_axioms;

    let p: Progress = progress_after(t, start, target, cap, n);
    let q: Progress = progress_after(t, start, target, cap, n + 1);
    assert(q == advanced(t, p, target, cap));
    lemma_closed_bound(t, p, start);
    if p.phase != Phase::Running {
        n
    } else if p.frontier.queue == Multiset::<Entry>::empty() {
        n + 1
    } else {
        lemma_some_leader(p.frontier.queue);
        let e: Entry = next_entry(p.frontier.queue);
        lemma_advanced_on_course(t, p, start, target, cap, e);
        lemma_closed_bound(t, q, start);
        lemma_ends_from(t, start, target, cap, n + 1)
    }
}

/// The way back from `cursor` to `start` along the labels, at most `fuel`
/// cells long.
pub open spec fn way_back(labels: Map<int, Label>, start: int, cursor: int, fuel: nat) -> Option<
    Seq<int>,
>
    decreases fuel,
{
    if fuel == 0 {
        None
    } else if cursor == start {
        Some(seq![cursor])
    } else if !labels.dom().contains(cursor) || labels[cursor].from == usize::MAX {
        None
    } else {
        match way_back(labels, start, labels[cursor].from as int, (fuel - 1) as nat) {
            None => None,
            Some(rest) => Some(seq![cursor] + rest),
        }
    }
}

/// A way back, read forwards, is a route.
pub proof fn lemma_way_back_is_route(t: Model,
    f: Frontier,
    start: int,
    cursor: int,
    fuel: nat,
)
    requires
        sound(t, f),
        f.labels.dom().contains(cursor),
    ensures
        way_back(f.labels, start, cursor, fuel) matches Some(way) ==> {
            &&& way.len() > 0
            &&& way[0] == cursor
            &&& way.last() == start
            &&& way.len() <= fuel
            &&& forall|i: int| 0 <= i < way.len() ==> f.labels.dom().contains(#[trigger] way[i])
            &&& is_route(t, way.reverse())
        },
    decreases fuel,
{
    if fuel > 0 && cursor != start && f.labels[cursor].from != usize::MAX {
        let prior: int = f.labels[cursor].from as int;
        assert(linked(t, f, cursor));
        lemma_way_back_is_route(t, f, start, prior, (fuel - 1) as nat);
        if let Some(rest) = way_back(f.labels, start, prior, (fuel - 1) as nat) {
            let way: Seq<int> = seq![cursor] + rest;
            let forward: Seq<int> = way.reverse();
            let tail: Seq<int> = rest.reverse();
            assert forall|i: int| 0 <= i < forward.len() - 1 implies adjoins(
                t,
                #[trigger] forward[i],
                forward[i + 1],
            ) by {
                if i + 1 < tail.len() {
                    assert(forward[i] == tail[i]);
                    assert(forward[i + 1] == tail[i + 1]);
                } else {
                    assert(forward[i] == prior);
                    assert(forward[i + 1] == cursor);
                }
            }
            assert(way.last() == start);
            assert forall|i: int| 0 <= i < way.len() implies f.labels.dom().contains(
                #[trigger] way[i],
            ) by {
                if i > 0 {
                    assert(way[i] == rest[i - 1]);
                }
            }
        }
    }
}

/// Follows the labels from `end` back to `start`.
pub fn trace_back(
    labels: &StampedMap<Label>,
    start: usize,
    end: usize,
    cells: usize,
) -> (r: Option<Vec<usize>>)
    requires
        labels.wf(),
        labels.capacity() >= cells,
        end < cells,
        forall|i: int| #[trigger]
            labels@.dom().contains(i) && labels@[i].from != usize::MAX ==> labels@[i].from < cells,
    ensures
        match r {
            None => way_back(labels@, start as int, end as int, cells as nat) is None,
            Some(way) => way_back(labels@, start as int, end as int, cells as nat) == Some(
                way@.map_values(|i: usize| i as int),
            ),
        },
{
    let mut way: Vec<usize> = Vec::new();
    let mut cursor: usize = end;
    let ghost whole: Option<Seq<int>> = way_back(labels@, start as int, end as int, cells as nat);
    let mut fuel: usize = cells;
    proof {
        let done: Seq<int> = way@.map_values(|i: usize| i as int);
        if let Some(s) = whole {
            assert(done + s =~= s);
        }
    }
    while fuel > 0
        invariant
            labels.wf(),
            labels.capacity() >= cells,
            cursor < cells,
            forall|i: int| #[trigger]
                labels@.dom().contains(i) && labels@[i].from != usize::MAX ==> labels@[i].from
                    < cells,
            whole == way_back(labels@, start as int, end as int, cells as nat),
            whole == (match way_back(labels@, start as int, cursor as int, fuel as nat) {
                None => None,
                Some(rest) => Some(way@.map_values(|i: usize| i as int) + rest),
            }),
        decreases fuel,
    {
        let ghost done: Seq<int> = way@.map_values(|i: usize| i as int);
        let ghost here: int = cursor as int;
        way.push(cursor);
        proof {
            assert(way@.map_values(|i: usize| i as int) =~= done + seq![here]);
        }
        if cursor == start {
            return Some(way);
        }
        match labels.get(cursor) {
            None => {
                return None;
            },
            Some(label) => {
                if label.from == usize::MAX {
                    return None;
                }
                proof {
                    assert(labels@.dom().contains(here));
                    let prior: int = label.from as int;
                    if let Some(rest) = way_back(
                        labels@,
                        start as int,
                        prior,
                        (fuel - 1) as nat,
                    ) {
                        assert(done + (seq![here] + rest) =~= (done + seq![here]) + rest);
                    }
                }
                cursor = label.from;
            },
        }
        fuel = fuel - 1;
    }
    None
}

} // verus!
