//! Clearance: closing every cell that lies too near to a blocked one.
use vstd::arithmetic::div_mod::*;
use vstd::arithmetic::power2::*;
use vstd::prelude::*;

use crate::number::{full_exponent, full_significand, nearest_double, with_sticky, Real, INF};
use crate::ordering::{
    lemma_int_exact, lemma_mul_monotone, lemma_product_of_sizes, lemma_size_code,
    lemma_value_order, lemma_zero_rank,
};
use crate::roots::{lemma_full_significand, lemma_hypot_commutes, lemma_hypot_not_shorter};
use crate::rounding::{bit_len, lemma_nearest_monotone, lemma_nearest_scaled};
use crate::search::{lemma_number, lemma_place};
use crate::walk::WalkView;

verus! {

pub open spec fn spec_gap(offset: isize, cell_size: Real) -> Real {
    let away: int = if offset < 0 {
        -offset
    } else {
        offset as int
    };
    Real::from_int(
        (if away > 1 {
            away - 1
        } else {
            0
        }) as isize,
    ).mul(cell_size)
}

/// Width of the strip between two columns (or rows) of cells.
#[verifier::when_used_as_spec(spec_gap)]
pub fn gap(offset: isize, cell_size: Real) -> (r: Real)
    requires
        offset > isize::MIN,
    ensures
        r == spec_gap(offset, cell_size),
{
    let away: isize = if offset < 0 {
        -offset
    } else {
        offset
    };
    let between: isize = if away > 1 {
        away - 1
    } else {
        0
    };
    Real::from_int(between).mul(cell_size)
}

/// How many cells away a clearance radius can be felt.
pub open spec fn dilation_reach(radius: Real, cell_size: Real) -> int {
    radius.div(cell_size).ceil_int() + 1
}

/// Whether two cells that many columns and rows apart come closer to each
/// other than the clearance radius.
pub open spec fn crowds(radius: Real, cell_size: Real, dx: int, dz: int) -> bool {
    let reach: int = dilation_reach(radius, cell_size);
    &&& -reach <= dx <= reach
    &&& -reach <= dz <= reach
    &&& gap(dx as isize, cell_size).hypot(gap(dz as isize, cell_size)).lt(radius)
}

/// Whether the `k`-th offset leads from the numbered cell to the given place.
spec fn hits(offsets: Seq<(isize, isize)>, k: int, width: int, source: int, col: int, row: int) -> bool {
    &&& source % width + offsets[k].0 == col
    &&& source / width + offsets[k].1 == row
}

/// Whether some of the first `k` offsets leads from the numbered cell to the
/// given place.
spec fn hit_from(offsets: Seq<(isize, isize)>, n: int, width: int, source: int, col: int, row: int) -> bool {
    exists|k: int| 0 <= k < n && #[trigger] hits(offsets, k, width, source, col, row)
}

impl WalkView {
    /// Whether a blocked cell closes the given place.
    pub open spec fn crowded_from(&self, radius: Real, col: int, row: int, c: int, r: int) -> bool {
        &&& self.within(c, r)
        &&& self.blocked_at(c, r)
        &&& crowds(radius, self.cell_size, col - c, row - r)
    }

    /// Whether a cell is blocked, or comes closer than `radius` to one that is.
    pub open spec fn dilated_at(&self, radius: Real, col: int, row: int) -> bool {
        self.blocked_at(col, row) || exists|c: int, r: int| #[trigger]
            self.crowded_from(radius, col, row, c, r)
    }

    /// Whether one of the first `n` cells is blocked and hits the given place.
    spec fn touched(&self, offsets: Seq<(isize, isize)>, n: int, col: int, row: int) -> bool {
        exists|s: int|
            0 <= s < n && self.marked(s) && #[trigger] hit_from(
                offsets,
                offsets.len() as int,
                self.width as int,
                s,
                col,
                row,
            )
    }

    /// The offsets, as far as they matter on this grid, at which a cell is
    /// closed.
    fn crowding_offsets(&self, radius: Real) -> (offsets: Vec<(isize, isize)>)
        requires
            self.wf(),
        ensures
            forall|k: int|
                0 <= k < offsets@.len() ==> crowds(
                    radius,
                    self.cell_size,
                    #[trigger] offsets@[k].0 as int,
                    offsets@[k].1 as int,
                ),
            forall|dx: isize, dz: isize|
                crowds(radius, self.cell_size, dx as int, dz as int) && -self.width <= dx
                    <= self.width && -self.height <= dz <= self.height
                    ==> #[trigger] offsets@.contains((dx, dz)),
    {
        let mut offsets: Vec<(isize, isize)> = Vec::new();
        let full: isize = radius.div(self.cell_size).ceil_int();
        let limit: isize = if self.width > self.height {
            self.width as isize
        } else {
            self.height as isize
        };
        let reach: isize = if full >= limit {
            limit
        } else {
            full + 1
        };
        if reach < 0 {
            return offsets;
        }
        let mut dz: isize = -reach;
        loop
            invariant
                reach >= 0,
                -reach <= dz <= reach,
                reach <= dilation_reach(radius, self.cell_size),
                forall|k: int|
                    0 <= k < offsets@.len() ==> crowds(
                        radius,
                        self.cell_size,
                        #[trigger] offsets@[k].0 as int,
                        offsets@[k].1 as int,
                    ),
                forall|x: isize, z: isize|
                    crowds(radius, self.cell_size, x as int, z as int) && -reach <= x <= reach
                        && -reach <= z < dz ==> #[trigger] offsets@.contains((x, z)),
            ensures
                forall|k: int|
                    0 <= k < offsets@.len() ==> crowds(
                        radius,
                        self.cell_size,
                        #[trigger] offsets@[k].0 as int,
                        offsets@[k].1 as int,
                    ),
                forall|x: isize, z: isize|
                    crowds(radius, self.cell_size, x as int, z as int) && -reach <= x <= reach
                        && -reach <= z <= reach ==> #[trigger] offsets@.contains((x, z)),
            decreases reach - dz,
        {
            let high: Real = gap(dz, self.cell_size);
            let mut dx: isize = -reach;
            loop
                invariant
                    reach >= 0,
                    -reach <= dx <= reach,
                    -reach <= dz <= reach,
                    reach <= dilation_reach(radius, self.cell_size),
                    high == gap(dz, self.cell_size),
                    forall|k: int|
                        0 <= k < offsets@.len() ==> crowds(
                            radius,
                            self.cell_size,
                            #[trigger] offsets@[k].0 as int,
                            offsets@[k].1 as int,
                        ),
                    forall|x: isize, z: isize|
                        crowds(radius, self.cell_size, x as int, z as int) && -reach <= x <= reach
                            && -reach <= z < dz ==> #[trigger] offsets@.contains((x, z)),
                    forall|x: isize|
                        crowds(radius, self.cell_size, x as int, dz as int) && -reach <= x < dx
                            ==> #[trigger] offsets@.contains((x, dz)),
                ensures
                    forall|k: int|
                        0 <= k < offsets@.len() ==> crowds(
                            radius,
                            self.cell_size,
                            #[trigger] offsets@[k].0 as int,
                            offsets@[k].1 as int,
                        ),
                    forall|x: isize, z: isize|
                        crowds(radius, self.cell_size, x as int, z as int) && -reach <= x <= reach
                            && -reach <= z <= dz ==> #[trigger] offsets@.contains((x, z)),
                decreases reach - dx,
            {
                let ghost before: Seq<(isize, isize)> = offsets@;
                if gap(dx, self.cell_size).hypot(high).lt(radius) {
                    offsets.push((dx, dz));
                    proof {
                        assert(offsets@[before.len() as int] == (dx, dz));
                        assert forall|x: isize, z: isize| before.contains(
                            (x, z),
                        ) implies #[trigger] offsets@.contains((x, z)) by {
                            let k: int = choose|k: int|
                                0 <= k < before.len() && before[k] == (x, z);
                            assert(offsets@[k] == (x, z));
                        }
                    }
                }
                proof {
                    assert(crowds(radius, self.cell_size, dx as int, dz as int)
                        ==> offsets@.contains((dx, dz)));
                }
                if dx == reach {
                    break;
                }
                dx = dx + 1;
            }
            if dz == reach {
                break;
            }
            dz = dz + 1;
        }
        offsets
    }

    /// Derived clearance view: additionally blocks every cell that contains
    /// any point closer than `radius` to a blocked cell, so every position
    /// inside a cell that stays open keeps the full clearance.
    pub fn dilated(&self, radius: Real) -> (result: WalkView)
        requires
            self.wf(),
        ensures
            result.wf(),
            result.same_geometry(self),
            forall|col: int, row: int|
                result.within(col, row) ==> #[trigger] result.blocked_at(col, row)
                    == self.dilated_at(radius, col, row),
    {
        let offsets: Vec<(isize, isize)> = self.crowding_offsets(radius);
        let mut result: WalkView = self.clone();
        let cells: usize = self.width * self.height;
        let ghost width: int = self.width as int;
        let mut index: usize = 0;
        while index < cells
            invariant
                self.wf(),
                result.wf(),
                result.same_geometry(self),
                result.capacity() == self.capacity(),
                cells == self.width * self.height,
                width == self.width,
                index <= cells,
                forall|col: int, row: int|
                    self.within(col, row) ==> #[trigger] result.blocked_at(col, row) == (
                    self.blocked_at(col, row) || self.touched(offsets@, index as int, col, row)),
            decreases cells - index,
        {
            proof {
                lemma_place(width, self.height as int, index as int);
            }
            let col: isize = (index % self.width) as isize;
            let row: isize = (index / self.width) as isize;
            let closed: bool = self.blocked(col, row);
            let mut k: usize = 0;
            while closed && k < offsets.len()
                invariant
                    self.wf(),
                    result.wf(),
                    result.same_geometry(self),
                    result.capacity() == self.capacity(),
                    width == self.width,
                    self.within(col as int, row as int),
                    col == index as int % width,
                    row == index as int / width,
                    k <= offsets@.len(),
                    !closed ==> k == 0,
                    forall|c: int, r: int|
                        self.within(c, r) ==> #[trigger] result.blocked_at(c, r) == (
                        self.blocked_at(c, r) || self.touched(offsets@, index as int, c, r)
                            || hit_from(offsets@, k as int, width, index as int, c, r)),
                decreases offsets@.len() - k,
            {
                let ghost before: WalkView = result;
                let (dx, dz): (isize, isize) = offsets[k];
                let c: i128 = col as i128 + dx as i128;
                let r: i128 = row as i128 + dz as i128;
                if c >= 0 && r >= 0 && c < self.width as i128 && r < self.height as i128 {
                    proof {
                        lemma_number(width, self.height as int, c as int, r as int);
                    }
                    result.set_blocked(c as usize, r as usize, true);
                }
                proof {
                    assert forall|x: int, z: int|
                        self.within(x, z) implies #[trigger] result.blocked_at(x, z) == (
                    self.blocked_at(x, z) || self.touched(offsets@, index as int, x, z) || hit_from(
                        offsets@,
                        k + 1,
                        width,
                        index as int,
                        x,
                        z,
                    )) by {
                        assert(before.blocked_at(x, z) == (self.blocked_at(x, z) || self.touched(
                            offsets@,
                            index as int,
                            x,
                            z,
                        ) || hit_from(offsets@, k as int, width, index as int, x, z)));
                        lemma_number(width, self.height as int, x, z);
                        if self.within(c as int, r as int) {
                            lemma_number(width, self.height as int, c as int, r as int);
                        }
                        if hit_from(offsets@, k + 1, width, index as int, x, z) {
                            let j: int = choose|j: int|
                                0 <= j < k + 1 && #[trigger] hits(
                                    offsets@,
                                    j,
                                    width,
                                    index as int,
                                    x,
                                    z,
                                );
                            if j < k {
                                assert(hit_from(offsets@, k as int, width, index as int, x, z));
                            }
                        }
                        if hit_from(offsets@, k as int, width, index as int, x, z) {
                            let j: int = choose|j: int|
                                0 <= j < k && #[trigger] hits(
                                    offsets@,
                                    j,
                                    width,
                                    index as int,
                                    x,
                                    z,
                                );
                            assert(hit_from(offsets@, k + 1, width, index as int, x, z));
                        }
                        if x == c && z == r {
                            assert(hits(offsets@, k as int, width, index as int, x, z));
                        }
                    }
                }
                k = k + 1;
            }
            proof {
                lemma_number(width, self.height as int, col as int, row as int);
                assert(closed == self.marked(index as int));
                assert forall|x: int, z: int| self.within(x, z) implies #[trigger] result.blocked_at(
                    x,
                    z,
                ) == (self.blocked_at(x, z) || self.touched(offsets@, index + 1, x, z)) by {
                    if self.touched(offsets@, index as int, x, z) {
                        let s: int = choose|s: int|
                            0 <= s < index && self.marked(s) && #[trigger] hit_from(
                                offsets@,
                                offsets@.len() as int,
                                width,
                                s,
                                x,
                                z,
                            );
                        assert(self.touched(offsets@, index + 1, x, z));
                    }
                    if self.touched(offsets@, index + 1, x, z) {
                        let s: int = choose|s: int|
                            0 <= s < index + 1 && self.marked(s) && #[trigger] hit_from(
                                offsets@,
                                offsets@.len() as int,
                                width,
                                s,
                                x,
                                z,
                            );
                        if s < index {
                            assert(self.touched(offsets@, index as int, x, z));
                        }
                    }
                    if closed && hit_from(
                        offsets@,
                        offsets@.len() as int,
                        width,
                        index as int,
                        x,
                        z,
                    ) {
                        assert(self.touched(offsets@, index + 1, x, z));
                    }
                }
            }
            index = index + 1;
        }
        proof {
            assert forall|col: int, row: int| result.within(col, row) implies #[trigger] result.blocked_at(
                col,
                row,
            ) == self.dilated_at(radius, col, row) by {
                self.lemma_touched_is_crowded(radius, offsets@, col, row);
            }
        }
        result
    }

    proof fn lemma_touched_is_crowded(
        &self,
        radius: Real,
        offsets: Seq<(isize, isize)>,
        col: int,
        row: int,
    )
        requires
            self.wf(),
            self.within(col, row),
            forall|k: int|
                0 <= k < offsets.len() ==> crowds(
                    radius,
                    self.cell_size,
                    #[trigger] offsets[k].0 as int,
                    offsets[k].1 as int,
                ),
            forall|dx: isize, dz: isize|
                crowds(radius, self.cell_size, dx as int, dz as int) && -self.width <= dx
                    <= self.width && -self.height <= dz <= self.height
                    ==> #[trigger] offsets.contains((dx, dz)),
        ensures
            self.touched(offsets, self.width * self.height, col, row) == (exists|c: int, r: int|
             #[trigger] self.crowded_from(radius, col, row, c, r)),
    {
        let w: int = self.width as int;
        let n: int = self.width * self.height;
        if self.touched(offsets, n, col, row) {
            let s: int = choose|s: int|
                0 <= s < n && self.marked(s) && #[trigger] hit_from(
                    offsets,
                    offsets.len() as int,
                    w,
                    s,
                    col,
                    row,
                );
            lemma_place(w, self.height as int, s);
            let k: int = choose|k: int|
                0 <= k < offsets.len() && #[trigger] hits(offsets, k, w, s, col, row);
            assert(offsets[k].0 == col - s % w);
            assert(self.crowded_from(radius, col, row, s % w, s / w));
        }
        if exists|c: int, r: int| #[trigger] self.crowded_from(radius, col, row, c, r) {
            let (c, r): (int, int) = choose|c: int, r: int| #[trigger]
                self.crowded_from(radius, col, row, c, r);
            lemma_number(w, self.height as int, c, r);
            let dx: isize = (col - c) as isize;
            let dz: isize = (row - r) as isize;
            assert(offsets.contains((dx, dz)));
            let k: int = choose|k: int| 0 <= k < offsets.len() && offsets[k] == (dx, dz);
            assert(hits(offsets, k, w, r * w + c, col, row));
            assert(hit_from(offsets, offsets.len() as int, w, r * w + c, col, row));
            assert(self.touched(offsets, n, col, row));
        }
    }
}

/// A quotient that is no less than a whole number is rounded to no less.
proof fn lemma_quotient_not_below(radius: Real, cell: Real, n: isize)
    requires
        radius.finite(),
        cell.finite(),
        radius.rank() > 0,
        cell.rank() > 0,
        0 < n < 0x20_0000_0000_0000,
        radius.size() >= n * cell.size(),
    ensures
        !radius.spec_div(cell).nan(),
        radius.spec_div(cell).rank() >= Real::spec_from_int(n).rank(),
{
    reveal(Real::spec_div);
    lemma2_to64_rest();
    lemma2_to64();
    let q: Real = radius.spec_div(cell);
    let (fr, jr, ir): (nat, nat, nat) = lemma_full(radius);
    let (fc, jc, ic): (nat, nat, nat) = lemma_full(cell);
    let e: int = (ir - jr) - (ic - jc);
    let num: nat = fr * pow2(57);
    let whole: nat = num / fc;
    lemma_fundamental_div_mod(num as int, fc as int);
    lemma_mod_bound(num as int, fc as int);
    let ws: nat = with_sticky(whole, num % fc != 0);
    assert(q.magnitude() == nearest_double(ws, e - 58));
    if e > 57 {
        let low: nat = pow2(52);
        assert(whole >= 0x100_0000_0000_0000) by (nonlinear_arith)
            requires
                num == fc * whole + num as int % fc as int,
                num as int % (fc as int) < fc,
                num == fr * pow2(57),
                pow2(57) == 0x200_0000_0000_0000,
                fr >= 0x10_0000_0000_0000,
                fc < 0x20_0000_0000_0000,
        ;
        let k: nat = (e - 58) as nat;
        let c: nat = pow2(k);
        lemma_pow2_pos(k);
        lemma_nearest_scaled(ws, k, e - 58, 53, -1074, INF as nat);
        assert(ws * c >= n) by (nonlinear_arith)
            requires
                ws >= n,
                c >= 1,
        ;
        lemma_nearest_monotone(n as nat, ws * c, 0, 53, -1074, INF as nat);
    } else {
        let a: nat = ir + jc;
        let b: nat = ic + jr;
        let pa: nat = pow2(a);
        let pb: nat = pow2(b);
        let sr: nat = radius.size();
        let sc: nat = cell.size();
        lemma_pow2_adds(ir, jc);
        lemma_pow2_adds(ic, jr);
        let pjr: nat = pow2(jr);
        let pjc: nat = pow2(jc);
        let pir: nat = pow2(ir);
        let pic: nat = pow2(ic);
        assert(sr * (pjr * pjc) >= (n * sc) * (pjr * pjc)) by (nonlinear_arith)
            requires
                sr >= n * sc,
                pjr * pjc >= 0,
        ;
        assert(sr * (pjr * pjc) == (sr * pjr) * pjc) by (nonlinear_arith);
        assert((fr * pir) * pjc == fr * (pir * pjc)) by (nonlinear_arith);
        assert((n * sc) * (pjr * pjc) == n * ((sc * pjc) * pjr)) by (nonlinear_arith);
        assert(n * ((fc * pic) * pjr) == (n * fc) * (pic * pjr)) by (nonlinear_arith);
        assert(fr * pa >= (n * fc) * pb);
        let k: nat = (57 - e) as nat;
        let pk: nat = pow2(k);
        lemma_pow2_adds(b, 57);
        lemma_pow2_adds(k, a);
        lemma_pow2_pos(a);
        assert(b + 57 == k + a);
        let p57: nat = pow2(57);
        assert(pb * p57 == pk * pa);
        assert((fr * pa) * p57 >= ((n * fc) * pb) * p57) by (nonlinear_arith)
            requires
                fr * pa >= (n * fc) * pb,
                p57 >= 0,
        ;
        assert((fr * pa) * p57 == (fr * p57) * pa) by (nonlinear_arith);
        assert(((n * fc) * pb) * p57 == (n * fc) * (pb * p57)) by (nonlinear_arith);
        assert((n * fc) * (pk * pa) == (n * fc * pk) * pa) by (nonlinear_arith);
        assert(num * pa >= (n * fc * pk) * pa);
        assert(num >= n * fc * pk) by (nonlinear_arith)
            requires
                num * pa >= (n * fc * pk) * pa,
                pa > 0,
        ;
        let least: nat = (n * pk) as nat;
        assert(whole >= least) by (nonlinear_arith)
            requires
                num == fc * whole + num as int % fc as int,
                num as int % (fc as int) < fc,
                num >= n * fc * pk,
                least == n * pk,
                fc > 0,
        ;
        lemma_pow2_unfold((k + 1) as nat);
        assert(n as nat * pow2((k + 1) as nat) == 2 * least) by (nonlinear_arith)
            requires
                pow2((k + 1) as nat) == 2 * pk,
                least == n * pk,
        ;
        lemma_nearest_scaled(n as nat, (k + 1) as nat, 0, 53, -1074, INF as nat);
        lemma_nearest_monotone(2 * least, ws, e - 58, 53, -1074, INF as nat);
    }
}

/// The full significand of a positive number, the digits it was filled up with
/// and the power of two of its own significand.
proof fn lemma_full(a: Real) -> (r: (nat, nat, nat))
    requires
        a.finite(),
        a.rank() > 0,
    ensures
        ({
            let (full, j, i): (nat, nat, nat) = r;
            &&& full == full_significand(a.significand())
            &&& i - j == full_exponent(a.significand(), a.exponent()) + 1074
            &&& a.size() * pow2(j) == full * pow2(i)
            &&& 0x10_0000_0000_0000 <= full < 0x20_0000_0000_0000
        }),
{
    lemma2_to64_rest();
    lemma_full_significand(a);
    let m: nat = a.significand();
    let j: nat = (53 - bit_len(m)) as nat;
    let i: nat = (a.exponent() + 1074) as nat;
    let c: nat = pow2(j);
    let full: nat = m * c;
    let p: nat = pow2(i);
    assert((m * p) * c == full * p) by (nonlinear_arith)
        requires
            full == m * c,
    ;
    (full, j, i)
}

/// Beyond the reach of a radius even one strip of cells is as wide as it.
proof fn lemma_beyond_reach(radius: Real, cell: Real, offset: isize)
    requires
        radius.finite(),
        cell.finite(),
        radius.rank() > 0,
        cell.rank() > 0,
        -0x20_0000_0000_0000 < offset < 0x20_0000_0000_0000,
        offset > dilation_reach(radius, cell) || -offset > dilation_reach(radius, cell),
    ensures
        gap(offset, cell).rank() >= radius.rank(),
        !gap(offset, cell).nan(),
{
    let q: Real = radius.spec_div(cell);
    let away: int = if offset < 0 {
        -offset
    } else {
        offset as int
    };
    let n: isize = (away - 1) as isize;
    lemma_quotient_not_negative(radius, cell);
    let unit: int = pow2(1074) as int;
    lemma_pow2_pos(1074);
    if q.infinite() {
        assert(dilation_reach(radius, cell) == isize::MAX + 1);
    } else {
        lemma_zero_rank(q);
        lemma_ceiling(q.value(), unit);
        assert(q.ceil_int() <= n - 1);
        assert(q.ceil_int() == q.ceiling());
        assert(n > 0);
        lemma_int_exact(n);
        let whole: Real = Real::spec_from_int(n);
        if radius.size() >= n * cell.size() {
            lemma_quotient_not_below(radius, cell, n);
            lemma_value_order(whole, q);
            assert(q.value() >= n * unit);
            assert(q.ceiling() * unit >= q.value());
            assert((n - 1) * unit < n * unit) by (nonlinear_arith)
                requires
                    unit > 0,
            ;
            assert(q.ceiling() * unit <= (n - 1) * unit) by (nonlinear_arith)
                requires
                    q.ceiling() <= n - 1,
                    unit > 0,
            ;
            assert(false);
        }
        lemma_zero_rank(cell);
        lemma_product_of_sizes(whole, cell);
        lemma_size_code(radius);
        lemma_nearest_scaled(radius.size(), 1074, -1074, 53, -1074, INF as nat);
        let sr: nat = radius.size();
        let sc: nat = cell.size();
        assert(sr * pow2(1074) <= whole.size() * sc) by (nonlinear_arith)
            requires
                sr <= n * sc,
                whole.size() == n * pow2(1074),
        ;
        lemma_nearest_monotone(
            sr * pow2(1074),
            whole.size() * sc,
            -2148,
            53,
            -1074,
            INF as nat,
        );
        reveal(Real::spec_mul);
    }
}

proof fn lemma_ceiling(v: int, unit: int)
    requires
        unit > 0,
    ensures
        -((-v) / unit) * unit >= v,
        v >= 0 ==> -((-v) / unit) >= 0,
{
    lemma_fundamental_div_mod(-v, unit);
    lemma_mod_bound(-v, unit);
    let k: int = (-v) / unit;
    assert((-k) * unit == -(unit * k)) by (nonlinear_arith);
    if v >= 0 {
        assert(k <= 0) by (nonlinear_arith)
            requires
                -v == unit * k + (-v) % unit,
                0 <= (-v) % unit,
                v >= 0,
                unit > 0,
        ;
    }
}

proof fn lemma_quotient_not_negative(radius: Real, cell: Real)
    requires
        radius.finite(),
        cell.finite(),
        radius.rank() > 0,
        cell.rank() > 0,
    ensures
        !radius.spec_div(cell).nan(),
        radius.spec_div(cell).rank() >= 0,
{
    reveal(Real::spec_div);
}

/// A cell that stays open keeps the full clearance: it comes no closer than the
/// radius to any blocked cell of the grid, however far away.
pub proof fn lemma_open_cell_keeps_clearance(
    view: &WalkView,
    radius: Real,
    col: int,
    row: int,
    c: int,
    r: int,
)
    requires
        view.wf(),
        view.width <= 0x20_0000_0000_0000,
        view.height <= 0x20_0000_0000_0000,
        view.cell_size.finite(),
        view.cell_size.rank() > 0,
        !radius.nan(),
        radius.rank() > 0,
        view.within(col, row),
        view.within(c, r),
        view.blocked_at(c, r),
        !view.dilated_at(radius, col, row),
    ensures
        !gap((col - c) as isize, view.cell_size).hypot(
            gap((row - r) as isize, view.cell_size),
        ).lt(radius),
{
    let cell: Real = view.cell_size;
    let dx: isize = (col - c) as isize;
    let dz: isize = (row - r) as isize;
    let reach: int = dilation_reach(radius, cell);
    assert(!view.crowded_from(radius, col, row, c, r));
    if radius.infinite() {
        assert(radius.spec_div(cell).infinite() && !radius.spec_div(cell).negative()) by {
            reveal(Real::spec_div);
        }
        assert(reach == isize::MAX + 1);
    } else if !(-reach <= dx <= reach) {
        lemma_beyond_reach(radius, cell, dx);
        lemma_gap_finite(cell, dx);
        lemma_gap_finite(cell, dz);
        lemma_wide_side(gap(dx, cell), gap(dz, cell), radius);
    } else if !(-reach <= dz <= reach) {
        lemma_beyond_reach(radius, cell, dz);
        lemma_gap_finite(cell, dx);
        lemma_gap_finite(cell, dz);
        lemma_hypot_commutes(gap(dx, cell), gap(dz, cell));
        lemma_wide_side(gap(dz, cell), gap(dx, cell), radius);
    }
}

proof fn lemma_gap_finite(cell: Real, offset: isize)
    requires
        cell.finite(),
        cell.rank() > 0,
        -0x20_0000_0000_0000 < offset < 0x20_0000_0000_0000,
    ensures
        !gap(offset, cell).nan(),
        gap(offset, cell).rank() >= 0,
{
    let away: int = if offset < 0 {
        -offset
    } else {
        offset as int
    };
    let n: isize = (if away > 1 {
        away - 1
    } else {
        0
    }) as isize;
    if n > 0 {
        lemma_int_exact(n);
    } else {
        assert(Real::spec_from_int(0).magnitude() == 0);
    }
    let whole: Real = Real::spec_from_int(n);
    lemma_mul_monotone(whole, whole, cell, cell);
}

proof fn lemma_wide_side(a: Real, b: Real, radius: Real)
    requires
        !a.nan(),
        !b.nan(),
        !radius.nan(),
        0 < radius.rank() <= a.rank(),
        b.rank() >= 0,
    ensures
        !a.hypot(b).lt(radius),
{
    if a.finite() && b.finite() {
        lemma_hypot_not_shorter(a, b);
    } else {
        assert(a.spec_abs().infinite() || b.spec_abs().infinite());
    }
}

} // verus!
