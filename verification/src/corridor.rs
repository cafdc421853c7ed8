//! Global planning: a corridor of coarse cells from the agent to its goal.
use vstd::prelude::*;

use crate::coarse::CoarseView;
use crate::config::{NavConfig, NavShared, Threat};
use crate::frugal::{affordable, lemma_payable_step, payable};
use crate::geometry::{cell_coordinate, distance_sq, octile, Point, HALF, ONE, SQRT_2, ZERO};
use crate::number::{Real, INF};
use crate::queue::Entry;
use crate::reopen::{reachable, steady};
use crate::ring::{first_accepted, first_offset, Probe};
use crate::scratch::Scratch;
use crate::search::{
    cell_count, is_route, lemma_number, lemma_place, linked, sound, Frontier, Label, Model, Terrain,
};
use crate::settle::{
    finish, lemma_search_ends, lemma_way_back_is_route, settle, trace_back, way_back, Phase,
    Progress, Settled,
};
use crate::stamped::StampedMap;
use crate::thorough::lemma_settling_decides;

verus! {

/// How many cells around a blocked coarse cell are searched for an open one.
pub const COARSE_REACH: isize = 3;

/// Cost of crossing a threat, in coarse cells: `10`.
pub const THREAT_TOLL: u64 = 0x4024_0000_0000_0000;

pub open spec fn spec_stride(diagonal: bool) -> Real {
    if diagonal {
        Real::of(SQRT_2)
    } else {
        Real::of(ONE)
    }
}

/// Length of a step between neighbouring cells, in cells.
#[verifier::when_used_as_spec(spec_stride)]
pub fn stride(diagonal: bool) -> (r: Real)
    ensures
        r == spec_stride(diagonal),
{
    if diagonal {
        Real::of(SQRT_2)
    } else {
        Real::of(ONE)
    }
}

/// Radius around a threat within which coarse cells cost extra.
pub open spec fn wide_berth(coarse: &CoarseView, config: NavConfig, threat: Threat) -> Real {
    threat.radius.add(config.inflation().add(coarse.cell_size.mul(Real::of(HALF))))
}

/// Whether a threat makes a coarse cell cost extra.
pub open spec fn looms(
    coarse: &CoarseView,
    config: NavConfig,
    threat: Threat,
    col: int,
    row: int,
) -> bool {
    let berth: Real = wide_berth(coarse, config, threat);
    let cell: Real = coarse.cell_size;
    &&& coarse.within(col, row)
    &&& cell_coordinate(threat.center.x.sub(berth), coarse.origin.x, cell) <= col
        <= cell_coordinate(threat.center.x.add(berth), coarse.origin.x, cell)
    &&& cell_coordinate(threat.center.z.sub(berth), coarse.origin.z, cell) <= row
        <= cell_coordinate(threat.center.z.add(berth), coarse.origin.z, cell)
    &&& distance_sq(coarse.center(col as usize, row as usize), threat.center).le(berth.mul(berth))
}

/// What the first `n` threats charge for a coarse cell: the same amount each.
pub open spec fn toll(
    coarse: &CoarseView,
    config: NavConfig,
    threats: Seq<Threat>,
    n: int,
    col: int,
    row: int,
) -> Option<Real>
    decreases n,
{
    if n <= 0 {
        None
    } else {
        let rest: Option<Real> = toll(coarse, config, threats, n - 1, col, row);
        if looms(coarse, config, threats[n - 1], col, row) {
            Some(
                rest.unwrap_or(Real::of(ZERO)).single_sum(
                    Real::of(THREAT_TOLL).mul(coarse.cell_size).to_single(),
                ),
            )
        } else {
            rest
        }
    }
}

/// The entry of a map, if there is one.
pub open spec fn entry(map: Map<int, Real>, index: int) -> Option<Real> {
    if map.dom().contains(index) {
        Some(map[index])
    } else {
        None
    }
}

/// Cost of a step onto a coarse cell: its length, weighted by the density of
/// the cell, the tolls of the threats, and what failed plans have charged.
pub open spec fn coarse_step(
    shared: &NavShared,
    threats: Seq<Threat>,
    penalties: Map<int, Real>,
    to: int,
    diagonal: bool,
) -> Real {
    let coarse: &CoarseView = &shared.coarse;
    let weight: Real = Real::of(ONE).single_sum(
        shared.config.density_cost.to_single().single_product(coarse.density@[to]),
    );
    let plain: Real = stride(diagonal).mul(coarse.cell_size).to_single().single_product(weight);
    let charged: Real = match toll(
        coarse,
        shared.config,
        threats,
        threats.len() as int,
        to % (coarse.width as int),
        to / (coarse.width as int),
    ) {
        Some(extra) => plain.single_sum(extra),
        None => plain,
    };
    match entry(penalties, to) {
        Some(extra) => charged.single_sum(extra),
        None => charged,
    }
}

pub open spec fn spec_remaining(
    index: usize,
    width: usize,
    col: usize,
    row: usize,
    cell_size: Real,
) -> Real {
    octile(
        Real::from_int((index as int % width as int - col) as isize),
        Real::from_int((index as int / width as int - row) as isize),
    ).mul(cell_size).to_single()
}

/// Estimated cost from a numbered cell to the cell at `col` and `row`.
#[verifier::when_used_as_spec(spec_remaining)]
pub fn remaining(index: usize, width: usize, col: usize, row: usize, cell_size: Real) -> (r: Real)
    requires
        0 < width <= isize::MAX,
        index / width <= isize::MAX,
        col <= isize::MAX,
        row <= isize::MAX,
    ensures
        r == spec_remaining(index, width, col, row, cell_size),
{
    let dc: isize = (index % width) as isize - col as isize;
    let dr: isize = (index / width) as isize - row as isize;
    octile(Real::from_int(dc), Real::from_int(dr)).mul(cell_size).to_single()
}

/// The coarse view as a terrain to be searched for a cell.
pub open spec fn coarse_model(
    shared: &NavShared,
    threats: Seq<Threat>,
    penalties: Map<int, Real>,
    goal: (usize, usize),
) -> Model {
    let coarse: &CoarseView = &shared.coarse;
    Model {
        columns: coarse.width as int,
        rows: coarse.height as int,
        open: |col: int, row: int| coarse.open_at(col, row),
        extended: |cost: Real, to: int, diagonal: bool|
            cost.single_sum(coarse_step(shared, threats, penalties, to, diagonal)),
        estimate: |index: int|
            remaining(index as usize, coarse.width, goal.0, goal.1, coarse.cell_size),
        score: |cost: Real, index: int|
            cost.single_sum(
                remaining(index as usize, coarse.width, goal.0, goal.1, coarse.cell_size),
            ),
    }
}

struct CoarseTerrain<'a> {
    shared: &'a NavShared,
    tolls: &'a StampedMap<Real>,
    penalties: &'a StampedMap<Real>,
    threats: Ghost<Seq<Threat>>,
    goal: (usize, usize),
}

impl<'a> Terrain for CoarseTerrain<'a> {
    closed spec fn model(&self) -> Model {
        coarse_model(self.shared, self.threats@, self.penalties@, self.goal)
    }

    closed spec fn ready(&self) -> bool {
        let coarse: &CoarseView = &self.shared.coarse;
        &&& coarse.wf()
        &&& coarse.width > 0
        &&& coarse.height > 0
        &&& self.tolls.wf()
        &&& self.penalties.wf()
        &&& self.tolls.capacity() >= coarse.width * coarse.height
        &&& self.penalties.capacity() >= coarse.width * coarse.height
        &&& self.goal.0 < coarse.width
        &&& self.goal.1 < coarse.height
        &&& forall|col: int, row: int|
            coarse.within(col, row) ==> entry(
                self.tolls@,
                row * coarse.width + col,
            ) == #[trigger] toll(
                coarse,
                self.shared.config,
                self.threats@,
                self.threats@.len() as int,
                col,
                row,
            )
    }

    proof fn lemma_ready(&self) {
    }

    fn width(&self) -> (r: usize) {
        self.shared.coarse.width
    }

    fn height(&self) -> (r: usize) {
        self.shared.coarse.height
    }

    fn is_open(&self, col: isize, row: isize) -> (r: bool) {
        self.shared.coarse.is_open(col, row)
    }

    fn extend(&self, cost: Real, to: usize, diagonal: bool) -> (r: Real) {
        let coarse: &CoarseView = &self.shared.coarse;
        proof {
            let w: int = coarse.width as int;
            lemma_place(w, coarse.height as int, to as int);
            let col: int = to as int % w;
            let row: int = to as int / w;
            assert(entry(self.tolls@, row * coarse.width + col) == toll(
                coarse,
                self.shared.config,
                self.threats@,
                self.threats@.len() as int,
                col,
                row,
            ));
        }
        let weight: Real = Real::of(ONE).single_sum(
            self.shared.config.density_cost.to_single().single_product(coarse.density[to]),
        );
        let mut step: Real = stride(diagonal).mul(coarse.cell_size).to_single().single_product(
            weight,
        );
        if let Some(extra) = self.tolls.get(to) {
            step = step.single_sum(extra);
        }
        if let Some(extra) = self.penalties.get(to) {
            step = step.single_sum(extra);
        }
        cost.single_sum(step)
    }

    fn estimate_at(&self, index: usize) -> (r: Real) {
        let coarse: &CoarseView = &self.shared.coarse;
        proof {
            lemma_place(coarse.width as int, coarse.height as int, index as int);
        }
        remaining(index, coarse.width, self.goal.0, self.goal.1, coarse.cell_size)
    }

    fn score_at(&self, cost: Real, index: usize) -> (r: Real) {
        let h: Real = self.estimate_at(index);
        cost.single_sum(h)
    }
}

/// The open coarse cells around a cell, by their offsets.
pub open spec fn open_offsets(coarse: &CoarseView, cell: (usize, usize)) -> spec_fn(
    int,
    int,
) -> bool {
    |dx: int, dz: int| coarse.open_at(cell.0 + dx, cell.1 + dz)
}

/// The first open coarse cell in the rings around a cell.
pub open spec fn nearest_open(coarse: &CoarseView, cell: (usize, usize)) -> Option<(usize, usize)> {
    match first_accepted(open_offsets(coarse, cell), COARSE_REACH as int) {
        None => None,
        Some((dx, dz)) => Some(((cell.0 + dx) as usize, (cell.1 + dz) as usize)),
    }
}

struct OpenProbe<'a> {
    coarse: &'a CoarseView,
    cell: (usize, usize),
}

impl<'a> Probe for OpenProbe<'a> {
    closed spec fn accepts(&self) -> spec_fn(int, int) -> bool {
        open_offsets(self.coarse, self.cell)
    }

    closed spec fn ready(&self) -> bool {
        self.coarse.wf()
    }

    fn accept(&self, dx: isize, dz: isize) -> (r: bool) {
        let col: i128 = self.cell.0 as i128 + dx as i128;
        let row: i128 = self.cell.1 as i128 + dz as i128;
        if col < 0 || row < 0 || col >= self.coarse.width as i128 || row
            >= self.coarse.height as i128 {
            return false;
        }
        self.coarse.is_open(col as isize, row as isize)
    }
}

fn nearest_open_coarse(coarse: &CoarseView, cell: (usize, usize)) -> (r: Option<(usize, usize)>)
    requires
        coarse.wf(),
    ensures
        r == nearest_open(coarse, cell),
        r matches Some((col, row)) ==> coarse.open_at(col as int, row as int),
{
    let probe: OpenProbe = OpenProbe { coarse, cell };
    match first_offset(&probe, COARSE_REACH) {
        None => None,
        Some((dx, dz)) => {
            proof {
                assert((probe.accepts())(dx as int, dz as int));
            }
            Some(
                (
                    (cell.0 as i128 + dx as i128) as usize,
                    (cell.1 as i128 + dz as i128) as usize,
                ),
            )
        },
    }
}

/// Where a coarse route begins or ends for a point: the open cell nearest to
/// the cell it falls into.
pub open spec fn gateway(coarse: &CoarseView, point: Point) -> Option<(usize, usize)> {
    match coarse.cell_at(point) {
        None => None,
        Some(cell) => nearest_open(coarse, cell),
    }
}

/// The middles of the numbered cells of a way back, in walking order.
pub open spec fn coarse_points(coarse: &CoarseView, way: Seq<int>) -> Seq<Point> {
    Seq::new(
        way.len(),
        |i: int|
            {
                let cell: int = way[way.len() - 1 - i];
                coarse.center(
                    (cell % (coarse.width as int)) as usize,
                    (cell / (coarse.width as int)) as usize,
                )
            },
    )
}

/// The cells, last first, of the coarse route that the search finds between two
/// cells, if there is one.
pub open spec fn way_between(
    shared: &NavShared,
    threats: Seq<Threat>,
    penalties: Map<int, Real>,
    start: (usize, usize),
    end: (usize, usize),
) -> Option<Seq<int>> {
    let coarse: &CoarseView = &shared.coarse;
    let from: int = start.1 * coarse.width + start.0;
    let to: int = end.1 * coarse.width + end.0;
    let p: Progress = finish(
        coarse_model(shared, threats, penalties, end),
        from,
        to,
        usize::MAX as nat,
    );
    if p.phase == Phase::Found {
        way_back(p.frontier.labels, from, to, (coarse.width * coarse.height) as nat)
    } else {
        None
    }
}

/// The cells, last first, of the coarse route that the search finds between two
/// points, if there is one.
pub open spec fn coarse_way(
    shared: &NavShared,
    threats: Seq<Threat>,
    penalties: Map<int, Real>,
    position: Point,
    goal: Point,
) -> Option<Seq<int>> {
    match (gateway(&shared.coarse, position), gateway(&shared.coarse, goal)) {
        (Some(start), Some(end)) => way_between(shared, threats, penalties, start, end),
        _ => None,
    }
}

/// The corridor between two points: the middles of the coarse route's cells.
pub open spec fn corridor_between(
    shared: &NavShared,
    threats: Seq<Threat>,
    penalties: Map<int, Real>,
    position: Point,
    goal: Point,
) -> Option<Seq<Point>> {
    match coarse_way(shared, threats, penalties, position, goal) {
        Some(way) => Some(coarse_points(&shared.coarse, way)),
        None => None,
    }
}

/// Whether a scan row by row has passed a cell when it stands at `col` and
/// `row`.
spec fn passed(c: int, r: int, col: int, row: int) -> bool {
    r < row || (r == row && c < col)
}

/// What a cell is charged while the `n`-th threat is being scanned.
spec fn partial_toll(
    coarse: &CoarseView,
    config: NavConfig,
    threats: Seq<Threat>,
    n: int,
    c: int,
    r: int,
    col: int,
    row: int,
) -> Option<Real> {
    toll(
        coarse,
        config,
        threats,
        if passed(c, r, col, row) {
            n + 1
        } else {
            n
        },
        c,
        r,
    )
}

/// Charges the coarse cells around every threat.
fn charge_threats(shared: &NavShared, threats: &[Threat], tolls: &mut StampedMap<Real>)
    requires
        shared.coarse.wf(),
        old(tolls).wf(),
    ensures
        final(tolls).wf(),
        final(tolls).capacity() >= shared.coarse.width * shared.coarse.height,
        forall|col: int, row: int|
            shared.coarse.within(col, row) ==> entry(
                final(tolls)@,
                row * shared.coarse.width + col,
            ) == #[trigger] toll(
                &shared.coarse,
                shared.config,
                threats@,
                threats@.len() as int,
                col,
                row,
            ),
{
    let coarse: &CoarseView = &shared.coarse;
    let cells: usize = coarse.width * coarse.height;
    tolls.reset(cells, Real::of(ZERO));
    let amount: Real = Real::of(THREAT_TOLL).mul(coarse.cell_size).to_single();
    let extra: Real = shared.config.inflation().add(coarse.cell_size.mul(Real::of(HALF)));
    let mut n: usize = 0;
    while n < threats.len()
        invariant
            coarse == &shared.coarse,
            coarse.wf(),
            tolls.wf(),
            tolls.capacity() >= coarse.width * coarse.height,
            amount == Real::of(THREAT_TOLL).mul(coarse.cell_size).to_single(),
            extra == shared.config.inflation().add(coarse.cell_size.mul(Real::of(HALF))),
            n <= threats@.len(),
            forall|c: int, r: int|
                coarse.within(c, r) ==> entry(tolls@, r * coarse.width + c) == #[trigger] toll(
                    coarse,
                    shared.config,
                    threats@,
                    n as int,
                    c,
                    r,
                ),
        decreases threats@.len() - n,
    {
        let threat: Threat = threats[n];
        let berth: Real = threat.radius.add(extra);
        let left: isize = cell_coordinate(
            threat.center.x.sub(berth),
            coarse.origin.x,
            coarse.cell_size,
        );
        let right: isize = cell_coordinate(
            threat.center.x.add(berth),
            coarse.origin.x,
            coarse.cell_size,
        );
        let low: isize = cell_coordinate(
            threat.center.z.sub(berth),
            coarse.origin.z,
            coarse.cell_size,
        );
        let high: isize = cell_coordinate(
            threat.center.z.add(berth),
            coarse.origin.z,
            coarse.cell_size,
        );
        let first_col: isize = if left < 0 {
            0
        } else {
            left
        };
        let first_row: isize = if low < 0 {
            0
        } else {
            low
        };
        let mut row: isize = first_row;
        proof {
            assert forall|c: int, r: int| coarse.within(c, r) implies entry(
                tolls@,
                r * coarse.width + c,
            ) == #[trigger] partial_toll(
                coarse,
                shared.config,
                threats@,
                n as int,
                c,
                r,
                first_col as int,
                first_row as int,
            ) by {
                assert(entry(tolls@, r * coarse.width + c) == toll(
                    coarse,
                    shared.config,
                    threats@,
                    n as int,
                    c,
                    r,
                ));
            }
        }
        while row <= high && (row as usize) < coarse.height
            invariant
                coarse == &shared.coarse,
                coarse.wf(),
                tolls.wf(),
                tolls.capacity() >= coarse.width * coarse.height,
                amount == Real::of(THREAT_TOLL).mul(coarse.cell_size).to_single(),
                n < threats@.len(),
                threat == threats@[n as int],
                berth == wide_berth(coarse, shared.config, threat),
                left == cell_coordinate(
                    threat.center.x.sub(berth),
                    coarse.origin.x,
                    coarse.cell_size,
                ),
                right == cell_coordinate(
                    threat.center.x.add(berth),
                    coarse.origin.x,
                    coarse.cell_size,
                ),
                low == cell_coordinate(
                    threat.center.z.sub(berth),
                    coarse.origin.z,
                    coarse.cell_size,
                ),
                high == cell_coordinate(
                    threat.center.z.add(berth),
                    coarse.origin.z,
                    coarse.cell_size,
                ),
                first_col == (if left < 0 {
                    0
                } else {
                    left
                }),
                row >= 0,
                row >= low,
                forall|c: int, r: int|
                    coarse.within(c, r) ==> entry(
                        tolls@,
                        r * coarse.width + c,
                    ) == #[trigger] partial_toll(
                        coarse,
                        shared.config,
                        threats@,
                        n as int,
                        c,
                        r,
                        first_col as int,
                        row as int,
                    ),
            decreases coarse.height - row,
        {
            let mut col: isize = first_col;
            while col <= right && (col as usize) < coarse.width
                invariant
                    coarse == &shared.coarse,
                    coarse.wf(),
                    tolls.wf(),
                    tolls.capacity() >= coarse.width * coarse.height,
                    amount == Real::of(THREAT_TOLL).mul(coarse.cell_size).to_single(),
                    n < threats@.len(),
                    threat == threats@[n as int],
                    berth == wide_berth(coarse, shared.config, threat),
                    left == cell_coordinate(
                        threat.center.x.sub(berth),
                        coarse.origin.x,
                        coarse.cell_size,
                    ),
                    right == cell_coordinate(
                        threat.center.x.add(berth),
                        coarse.origin.x,
                        coarse.cell_size,
                    ),
                    low == cell_coordinate(
                        threat.center.z.sub(berth),
                        coarse.origin.z,
                        coarse.cell_size,
                    ),
                    high == cell_coordinate(
                        threat.center.z.add(berth),
                        coarse.origin.z,
                        coarse.cell_size,
                    ),
                    0 <= row < coarse.height,
                    low <= row <= high,
                    col >= 0,
                    col >= left,
                    forall|c: int, r: int|
                        coarse.within(c, r) ==> entry(
                            tolls@,
                            r * coarse.width + c,
                        ) == #[trigger] partial_toll(
                            coarse,
                            shared.config,
                            threats@,
                            n as int,
                            c,
                            r,
                            col as int,
                            row as int,
                        ),
                decreases coarse.width - col,
            {
                let ghost before: Map<int, Real> = tolls@;
                proof {
                    lemma_number(
                        coarse.width as int,
                        coarse.height as int,
                        col as int,
                        row as int,
                    );
                    assert(row * coarse.width >= 0) by (nonlinear_arith)
                        requires
                            row >= 0,
                    ;
                    assert(entry(tolls@, row * coarse.width + col) == partial_toll(
                        coarse,
                        shared.config,
                        threats@,
                        n as int,
                        col as int,
                        row as int,
                        col as int,
                        row as int,
                    ));
                }
                let index: usize = row as usize * coarse.width + col as usize;
                let center: Point = coarse.center(col as usize, row as usize);
                if distance_sq(center, threat.center).le(berth.mul(berth)) {
                    let sum: Real = match tolls.get(index) {
                        Some(sum) => sum,
                        None => Real::of(ZERO),
                    };
                    tolls.set(index, sum.single_sum(amount));
                }
                proof {
                    assert forall|c: int, r: int| coarse.within(c, r) implies entry(
                        tolls@,
                        r * coarse.width + c,
                    ) == #[trigger] partial_toll(
                        coarse,
                        shared.config,
                        threats@,
                        n as int,
                        c,
                        r,
                        col + 1,
                        row as int,
                    ) by {
                        lemma_number(coarse.width as int, coarse.height as int, c, r);
                        assert(entry(before, r * coarse.width + c) == partial_toll(
                            coarse,
                            shared.config,
                            threats@,
                            n as int,
                            c,
                            r,
                            col as int,
                            row as int,
                        ));
                        if c == col && r == row {
                            assert(looms(coarse, shared.config, threat, c, r) == distance_sq(
                                center,
                                threat.center,
                            ).le(berth.mul(berth)));
                        }
                    }
                }
                col = col + 1;
            }
            proof {
                assert forall|c: int, r: int| coarse.within(c, r) implies entry(
                    tolls@,
                    r * coarse.width + c,
                ) == #[trigger] partial_toll(
                    coarse,
                    shared.config,
                    threats@,
                    n as int,
                    c,
                    r,
                    first_col as int,
                    row + 1,
                ) by {
                    assert(entry(tolls@, r * coarse.width + c) == partial_toll(
                        coarse,
                        shared.config,
                        threats@,
                        n as int,
                        c,
                        r,
                        col as int,
                        row as int,
                    ));
                }
            }
            row = row + 1;
        }
        proof {
            assert forall|c: int, r: int| coarse.within(c, r) implies entry(
                tolls@,
                r * coarse.width + c,
            ) == #[trigger] toll(coarse, shared.config, threats@, n + 1, c, r) by {
                assert(entry(tolls@, r * coarse.width + c) == partial_toll(
                    coarse,
                    shared.config,
                    threats@,
                    n as int,
                    c,
                    r,
                    first_col as int,
                    row as int,
                ));
            }
        }
        n = n + 1;
    }
}

/// Searches the coarse view for a route between two open cells.
fn coarse_route(
    shared: &NavShared,
    threats: &[Threat],
    penalties: &StampedMap<Real>,
    start: (usize, usize),
    end: (usize, usize),
    scratch: &mut Scratch,
) -> (r: Option<Vec<usize>>)
    requires
        shared.wf(),
        penalties.wf(),
        penalties.capacity() >= shared.coarse.width * shared.coarse.height,
        old(scratch).wf(),
        shared.coarse.within(start.0 as int, start.1 as int),
        shared.coarse.within(end.0 as int, end.1 as int),
    ensures
        final(scratch).wf(),
        match r {
            None => way_between(shared, threats@, penalties@, start, end) is None,
            Some(way) => way_between(shared, threats@, penalties@, start, end) == Some(
                way@.map_values(|i: usize| i as int),
            ),
        },
{
    let coarse: &CoarseView = &shared.coarse;
    proof {
        let w: int = coarse.width as int;
        let h: int = coarse.height as int;
        lemma_number(w, h, start.0 as int, start.1 as int);
        lemma_number(w, h, end.0 as int, end.1 as int);
        assert(start.1 * w >= 0) by (nonlinear_arith)
            requires
                w >= 0,
        ;
        assert(end.1 * w >= 0) by (nonlinear_arith)
            requires
                w >= 0,
        ;
    }
    let cells: usize = coarse.width * coarse.height;
    let from: usize = start.1 * coarse.width + start.0;
    let to: usize = end.1 * coarse.width + end.0;
    charge_threats(shared, threats, &mut scratch.tolls);
    let terrain: CoarseTerrain = CoarseTerrain {
        shared,
        tolls: &scratch.tolls,
        penalties,
        threats: Ghost(threats@),
        goal: end,
    };
    let ghost model: Model = terrain.model();
    let outcome: Settled = settle(
        &terrain,
        from,
        to,
        usize::MAX,
        &mut scratch.labels,
        &mut scratch.closed,
        &mut scratch.queue,
    );
    if !outcome.found {
        return None;
    }
    proof {
        lemma_labels_inside(model, scratch.labels@, scratch.queue@, cells as int);
    }
    trace_back(&scratch.labels, from, to, cells)
}

/// Plans a corridor from `position` to `goal` on the coarse view. Threats are
/// soft at this level; the fine window is the hard guarantee.
pub fn plan_global(
    shared: &NavShared,
    threats: &[Threat],
    penalties: &StampedMap<Real>,
    position: Point,
    goal: Point,
    scratch: &mut Scratch,
) -> (r: Option<Vec<Point>>)
    requires
        shared.wf(),
        penalties.wf(),
        penalties.capacity() >= shared.coarse.width * shared.coarse.height,
        old(scratch).wf(),
    ensures
        final(scratch).wf(),
        match r {
            None => corridor_between(shared, threats@, penalties@, position, goal) is None,
            Some(corridor) => corridor_between(shared, threats@, penalties@, position, goal)
                == Some(corridor@),
        },
{
    let coarse: &CoarseView = &shared.coarse;
    let start: (usize, usize) = match coarse.cell_of(position) {
        None => {
            return None;
        },
        Some(cell) => match nearest_open_coarse(coarse, cell) {
            None => {
                return None;
            },
            Some(open) => open,
        },
    };
    let end: (usize, usize) = match coarse.cell_of(goal) {
        None => {
            return None;
        },
        Some(cell) => match nearest_open_coarse(coarse, cell) {
            None => {
                return None;
            },
            Some(open) => open,
        },
    };
    match coarse_route(shared, threats, penalties, start, end, scratch) {
        None => None,
        Some(way) => Some(walk_coarse(coarse, &way)),
    }
}

/// The cells that labels speak of lie in the grid.
pub proof fn lemma_labels_inside(
    t: Model,
    labels: Map<int, Label>,
    queue: vstd::multiset::Multiset<Entry>,
    cells: int,
)
    requires
        sound(t, (Frontier { labels, queue })),
        cells == cell_count(t),
    ensures
        forall|i: int| #[trigger]
            labels.dom().contains(i) && labels[i].from != usize::MAX ==> labels[i].from < cells,
{
    let f: Frontier = Frontier { labels, queue };
    assert forall|i: int| #[trigger]
        labels.dom().contains(i) && labels[i].from != usize::MAX implies labels[i].from < cells by {
        assert(linked(t, f, i));
        assert(f.labels.dom().contains(labels[i].from as int));
    }
}

/// The middles of the cells of a way back, in walking order.
fn walk_coarse(coarse: &CoarseView, way: &Vec<usize>) -> (r: Vec<Point>)
    requires
        coarse.wf(),
        coarse.width > 0,
    ensures
        r@ == coarse_points(coarse, way@.map_values(|i: usize| i as int)),
{
    let mut r: Vec<Point> = Vec::new();
    let mut left: usize = way.len();
    let ghost whole: Seq<int> = way@.map_values(|i: usize| i as int);
    while left > 0
        invariant
            coarse.wf(),
            coarse.width > 0,
            left <= way@.len(),
            whole == way@.map_values(|i: usize| i as int),
            r@.len() == way@.len() - left,
            forall|i: int| 0 <= i < r@.len() ==> #[trigger] r@[i] == coarse_points(coarse, whole)[i],
        decreases left,
    {
        left = left - 1;
        let cell: usize = way[left];
        r.push(coarse.center(cell % coarse.width, cell / coarse.width));
    }
    assert(r@ =~= coarse_points(coarse, whole));
    r
}

/// A corridor leads over open coarse cells, from the one nearest to the agent
/// to the one nearest to the goal, and cuts no corner.
pub proof fn lemma_corridor_is_route(
    shared: &NavShared,
    threats: Seq<Threat>,
    penalties: Map<int, Real>,
    position: Point,
    goal: Point,
)
    requires
        shared.wf(),
    ensures
        coarse_way(shared, threats, penalties, position, goal) matches Some(way) ==> {
            let coarse: &CoarseView = &shared.coarse;
            let start: (usize, usize) = gateway(coarse, position).unwrap();
            let end: (usize, usize) = gateway(coarse, goal).unwrap();
            &&& gateway(coarse, position) is Some
            &&& gateway(coarse, goal) is Some
            &&& way.last() == start.1 * coarse.width + start.0
            &&& way[0] == end.1 * coarse.width + end.0
            &&& is_route(coarse_model(shared, threats, penalties, end), way.reverse())
        },
{
    let coarse: &CoarseView = &shared.coarse;
    if let Some(way) = coarse_way(shared, threats, penalties, position, goal) {
        let start: (usize, usize) = gateway(coarse, position).unwrap();
        let end: (usize, usize) = gateway(coarse, goal).unwrap();
        lemma_gateway_inside(coarse, position);
        lemma_gateway_inside(coarse, goal);
        let model: Model = coarse_model(shared, threats, penalties, end);
        let w: int = coarse.width as int;
        let h: int = coarse.height as int;
        lemma_number(w, h, start.0 as int, start.1 as int);
        lemma_number(w, h, end.0 as int, end.1 as int);
        let from: int = start.1 * w + start.0;
        let to: int = end.1 * w + end.0;
        assert(model.valid());
        lemma_search_ends(model, from, to, usize::MAX as nat);
        let p: Progress = finish(model, from, to, usize::MAX as nat);
        lemma_way_back_labelled(p.frontier.labels, from, to, (w * h) as nat);
        lemma_way_back_is_route(model, p.frontier, from, to, (w * h) as nat);
    }
}

proof fn lemma_way_back_labelled(labels: Map<int, Label>, start: int, cursor: int, fuel: nat)
    requires
        labels.dom().contains(start),
        way_back(labels, start, cursor, fuel) is Some,
    ensures
        labels.dom().contains(cursor),
{
}

/// A point's way begins and ends in an open cell.
pub proof fn lemma_gateway_inside(coarse: &CoarseView, point: Point)
    ensures
        gateway(coarse, point) matches Some((col, row)) ==> coarse.open_at(col as int, row as int),
{
    if let Some(cell) = coarse.cell_at(point) {
        crate::ring::lemma_first_exists(open_offsets(coarse, cell), COARSE_REACH as int);
    }
}

proof fn lemma_coarse_steady(
    shared: &NavShared,
    threats: Seq<Threat>,
    penalties: Map<int, Real>,
    goal: (usize, usize),
)
    requires
        forall|to: int, diagonal: bool|
            0 <= to < shared.coarse.width * shared.coarse.height ==> affordable(
                #[trigger] coarse_step(shared, threats, penalties, to, diagonal),
            ),
    ensures
        steady(coarse_model(shared, threats, penalties, goal), |cost: Real| payable(cost)),
{
    let model: Model = coarse_model(shared, threats, penalties, goal);
    let good: spec_fn(Real) -> bool = |cost: Real| payable(cost);
    assert(payable(Real { bits: 0 })) by {
        reveal(Real::spec_to_single);
        let zero: Real = Real { bits: 0 };
        assert(zero.significand() == 0);
    }
    assert forall|c: Real, to: int, diagonal: bool|
        good(c) && 0 <= to < cell_count(model) implies {
        let x: Real = #[trigger] model.extended(c, to, diagonal);
        good(x) && c.rank() <= x.rank() < INF
    } by {
        lemma_payable_step(c, coarse_step(shared, threats, penalties, to, diagonal));
    }
}

/// Where every step is affordable, a corridor is found if and only if both ends
/// have an open coarse cell nearby and a route over open coarse cells joins
/// those.
pub proof fn lemma_corridor_found_iff_connected(
    shared: &NavShared,
    threats: Seq<Threat>,
    penalties: Map<int, Real>,
    position: Point,
    goal: Point,
)
    requires
        shared.wf(),
        forall|to: int, diagonal: bool|
            0 <= to < shared.coarse.width * shared.coarse.height ==> affordable(
                #[trigger] coarse_step(shared, threats, penalties, to, diagonal),
            ),
    ensures
        corridor_between(shared, threats, penalties, position, goal) is Some <==> {
            let coarse: &CoarseView = &shared.coarse;
            let start: (usize, usize) = gateway(coarse, position).unwrap();
            let end: (usize, usize) = gateway(coarse, goal).unwrap();
            &&& gateway(coarse, position) is Some
            &&& gateway(coarse, goal) is Some
            &&& reachable(
                coarse_model(shared, threats, penalties, end),
                start.1 * coarse.width + start.0,
                end.1 * coarse.width + end.0,
            )
        },
{
    let coarse: &CoarseView = &shared.coarse;
    if gateway(coarse, position) is Some && gateway(coarse, goal) is Some {
        let start: (usize, usize) = gateway(coarse, position).unwrap();
        let end: (usize, usize) = gateway(coarse, goal).unwrap();
        lemma_gateway_inside(coarse, position);
        lemma_gateway_inside(coarse, goal);
        let model: Model = coarse_model(shared, threats, penalties, end);
        let w: int = coarse.width as int;
        let h: int = coarse.height as int;
        lemma_number(w, h, start.0 as int, start.1 as int);
        lemma_number(w, h, end.0 as int, end.1 as int);
        let from: int = start.1 * w + start.0;
        let to: int = end.1 * w + end.0;
        assert(model.valid());
        lemma_coarse_steady(shared, threats, penalties, end);
        lemma_settling_decides(
            model,
            from,
            to,
            usize::MAX as nat,
            |cost: Real| payable(cost),
        );
    }
}

} // verus!
