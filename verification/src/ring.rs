//! Searching the neighbourhood of a cell ring by ring.
use vstd::prelude::*;

verus! {

/// Distance of an offset in rings around the centre.
pub open spec fn ring_of(dx: int, dz: int) -> int {
    let across: int = if dx < 0 {
        -dx
    } else {
        dx
    };
    let along: int = if dz < 0 {
        -dz
    } else {
        dz
    };
    if across < along {
        along
    } else {
        across
    }
}

/// Whether offset `a` is looked at before offset `b`: inner rings first, then
/// lower rows, then lower columns.
pub open spec fn sooner(a: (int, int), b: (int, int)) -> bool {
    let ring_a: int = ring_of(a.0, a.1);
    let ring_b: int = ring_of(b.0, b.1);
    ring_a < ring_b || (ring_a == ring_b && (a.1 < b.1 || (a.1 == b.1 && a.0 < b.0)))
}

/// Whether `r` is the first accepted offset within `reach`.
pub open spec fn is_first(
    accepts: spec_fn(int, int) -> bool,
    reach: int,
    r: Option<(int, int)>,
) -> bool {
    match r {
        None => forall|x: int, z: int| #[trigger] accepts(x, z) ==> ring_of(x, z) > reach,
        Some((dx, dz)) => {
            &&& accepts(dx, dz)
            &&& ring_of(dx, dz) <= reach
            &&& forall|x: int, z: int| #[trigger]
                accepts(x, z) ==> (x, z) == (dx, dz) || sooner((dx, dz), (x, z))
        },
    }
}

/// The first accepted offset within `reach`, if there is one.
pub open spec fn first_accepted(accepts: spec_fn(int, int) -> bool, reach: int) -> Option<
    (int, int),
> {
    choose|r: Option<(int, int)>| is_first(accepts, reach, r)
}

/// There is only one first accepted offset.
pub proof fn lemma_first_unique(
    accepts: spec_fn(int, int) -> bool,
    reach: int,
    r: Option<(int, int)>,
)
    requires
        is_first(accepts, reach, r),
    ensures
        first_accepted(accepts, reach) == r,
{
    let other: Option<(int, int)> = first_accepted(accepts, reach);
    assert(is_first(accepts, reach, other));
    match (r, other) {
        (Some(a), Some(b)) => {
            assert(accepts(a.0, a.1));
            assert(accepts(b.0, b.1));
        },
        (Some(a), None) => {
            assert(accepts(a.0, a.1));
        },
        (None, Some(b)) => {
            assert(accepts(b.0, b.1));
        },
        (None, None) => {},
    }
}

/// Place of an offset in the order in which offsets within `reach` are looked
/// at.
spec fn place(reach: int, a: (int, int)) -> int {
    let side: int = 2 * reach + 1;
    (ring_of(a.0, a.1) * side + (a.1 + reach)) * side + (a.0 + reach)
}

proof fn lemma_place_orders(reach: int, a: (int, int), b: (int, int))
    requires
        ring_of(a.0, a.1) <= reach,
        ring_of(b.0, b.1) <= reach,
    ensures
        place(reach, a) >= 0,
        sooner(a, b) ==> place(reach, a) < place(reach, b),
        a == b || sooner(a, b) || sooner(b, a),
{
    let side: int = 2 * reach + 1;
    let ra: int = ring_of(a.0, a.1);
    let rb: int = ring_of(b.0, b.1);
    let ha: int = ra * side + (a.1 + reach);
    let hb: int = rb * side + (b.1 + reach);
    assert(ra * side >= 0) by (nonlinear_arith)
        requires
            ra >= 0,
            side >= 0,
    ;
    assert(ha * side >= 0) by (nonlinear_arith)
        requires
            ha >= 0,
            side >= 0,
    ;
    if ra < rb {
        assert(ra * side + side <= rb * side) by (nonlinear_arith)
            requires
                ra + 1 <= rb,
                side >= 0,
        ;
    }
    if ha < hb {
        assert(ha * side + side <= hb * side) by (nonlinear_arith)
            requires
                ha + 1 <= hb,
                side >= 0,
        ;
    }
}

/// Some offset is the first accepted one, unless none in reach is accepted.
pub proof fn lemma_first_exists(accepts: spec_fn(int, int) -> bool, reach: int)
    ensures
        is_first(accepts, reach, first_accepted(accepts, reach)),
{
    if exists|x: int, z: int| #[trigger] accepts(x, z) && ring_of(x, z) <= reach {
        let (x, z): (int, int) = choose|x: int, z: int| #[trigger]
            accepts(x, z) && ring_of(x, z) <= reach;
        let a: (int, int) = lemma_least(accepts, reach, (x, z));
        assert(is_first(accepts, reach, Some(a)));
    } else {
        assert(is_first(accepts, reach, None));
    }
}

proof fn lemma_least(accepts: spec_fn(int, int) -> bool, reach: int, a: (int, int)) -> (r: (
    int,
    int,
))
    requires
        accepts(a.0, a.1),
        ring_of(a.0, a.1) <= reach,
    ensures
        is_first(accepts, reach, Some(r)),
    decreases place(reach, a),
{
    if exists|x: int, z: int| #[trigger] accepts(x, z) && sooner((x, z), a) {
        let (x, z): (int, int) = choose|x: int, z: int| #[trigger]
            accepts(x, z) && sooner((x, z), a);
        lemma_place_orders(reach, (x, z), a);
        lemma_least(accepts, reach, (x, z))
    } else {
        assert forall|x: int, z: int| #[trigger] accepts(x, z) implies (x, z) == a || sooner(
            a,
            (x, z),
        ) by {
            if ring_of(x, z) <= reach {
                lemma_place_orders(reach, (x, z), a);
            }
        }
        a
    }
}

/// Nothing is accepted beyond a smaller reach either.
pub proof fn lemma_first_within(
    accepts: spec_fn(int, int) -> bool,
    reach: int,
    less: int,
    r: Option<(int, int)>,
)
    requires
        is_first(accepts, less, r),
        less <= reach,
        forall|x: int, z: int| #[trigger]
            accepts(x, z) && ring_of(x, z) <= reach ==> ring_of(x, z) <= less,
    ensures
        is_first(accepts, reach, r),
{
}

/// A test on offsets from a centre.
pub trait Probe {
    spec fn accepts(&self) -> spec_fn(int, int) -> bool;

    spec fn ready(&self) -> bool;

    fn accept(&self, dx: isize, dz: isize) -> (r: bool)
        requires
            self.ready(),
        ensures
            r == (self.accepts())(dx as int, dz as int),
    ;
}

/// Finds the first accepted offset within `reach`.
pub fn first_offset<P: Probe>(probe: &P, reach: isize) -> (r: Option<(isize, isize)>)
    requires
        probe.ready(),
        0 <= reach < isize::MAX,
    ensures
        match r {
            None => first_accepted(probe.accepts(), reach as int) is None,
            Some((dx, dz)) => first_accepted(probe.accepts(), reach as int) == Some(
                (dx as int, dz as int),
            ),
        },
        match r {
            None => is_first(probe.accepts(), reach as int, None),
            Some((dx, dz)) => is_first(
                probe.accepts(),
                reach as int,
                Some((dx as int, dz as int)),
            ),
        },
{
    let ghost accepts: spec_fn(int, int) -> bool = probe.accepts();
    let mut radius: isize = 0;
    while radius <= reach
        invariant
            probe.ready(),
            accepts == probe.accepts(),
            0 <= radius <= reach + 1,
            0 <= reach < isize::MAX,
            forall|x: int, z: int| #[trigger] accepts(x, z) ==> ring_of(x, z) >= radius,
        decreases reach + 1 - radius,
    {
        let mut dz: isize = -radius;
        while dz <= radius
            invariant
                probe.ready(),
                accepts == probe.accepts(),
                0 <= radius <= reach,
                0 <= reach < isize::MAX,
                -radius <= dz <= radius + 1,
                forall|x: int, z: int| #[trigger]
                    accepts(x, z) ==> ring_of(x, z) > radius || (ring_of(x, z) == radius && z
                        >= dz),
            decreases radius + 1 - dz,
        {
            let edge: bool = dz == radius || dz == -radius;
            let mut dx: isize = -radius;
            while dx <= radius
                invariant
                    probe.ready(),
                    accepts == probe.accepts(),
                    0 <= radius <= reach,
                    0 <= reach < isize::MAX,
                    -radius <= dz <= radius,
                    -radius <= dx <= radius + 1,
                    edge == (dz == radius || dz == -radius),
                    dx > radius || edge || dx == -radius || dx == radius,
                    forall|x: int, z: int| #[trigger]
                        accepts(x, z) ==> ring_of(x, z) > radius || (ring_of(x, z) == radius && (z
                            > dz || (z == dz && x >= dx))),
                decreases radius + 1 - dx,
            {
                if probe.accept(dx, dz) {
                    proof {
                        assert(accepts(dx as int, dz as int));
                        lemma_first_unique(
                            accepts,
                            reach as int,
                            Some((dx as int, dz as int)),
                        );
                    }
                    return Some((dx, dz));
                }
                dx = if edge || dx == radius {
                    dx + 1
                } else {
                    radius
                };
            }
            dz = dz + 1;
        }
        radius = radius + 1;
    }
    proof {
        lemma_first_unique(accepts, reach as int, None);
    }
    None
}

} // verus!
