//! Where the walls of a ship stand, in whole steps of the fixed-point numbers and in cells.
use vstd::prelude::*;
use crate::boat;
use crate::boat::{BoatParams, ContainerLayoutKind};
use crate::fixed;
use crate::fixed::{Fixed, ONE};
use crate::scalar;
use crate::scalar::Scalar;
use crate::ship;
use crate::ship::{Fairing, FairingSide, ShipLayout, WallKind};
use crate::stamp;

verus! {

/// The distance between `a` and `b`.
pub open spec fn apart(a: int, b: int) -> int {
    if a < b {
        b - a
    } else {
        a - b
    }
}

/// `x` is a length of at most ten thousand cells.
pub open spec fn is_length(x: Fixed) -> bool {
    0 <= x.raw <= 10_000 * ONE
}

proof fn lemma_half_cells(x: Fixed)
    requires
        is_length(x),
    ensures
        0 <= 2 * ONE * stamp::half_cells_spec(x) <= x.raw,
        x.raw < 2 * ONE * (stamp::half_cells_spec(x) + 1),
{
    fixed::lemma_half(x);
    let half = x.over_spec(Fixed::whole_spec(2));
    fixed::lemma_truncated_near(half);
}

/// A rectangle holds the cells whose middles lie no farther from its centre than half its width
/// along the row, and half its height along the column.
pub proof fn lemma_rectangle_cells(
    center: (isize, isize),
    width: Fixed,
    height: Fixed,
    i: int,
    j: int,
)
    requires
        is_length(width),
        is_length(height),
    ensures
        stamp::rectangle_shape(center, width, height)(i, j) <==> 2 * ONE * apart(
            i,
            center.0 as int,
        ) <= width.raw && 2 * ONE * apart(j, center.1 as int) <= height.raw,
{
    lemma_half_cells(width);
    lemma_half_cells(height);
}

/// What is left of a wedge shrinks evenly from its base to its tip.
pub proof fn lemma_taper_even(s: nat, length: nat)
    requires
        s <= length,
        1 <= length <= 10_000,
    ensures
        fixed::differ_less(
            length * ship::taper_spec::<Fixed>(s, length).raw,
            (length - s) * ONE,
            length as int,
        ),
        0 <= ship::taper_spec::<Fixed>(s, length).raw <= ONE,
{
    let a = Fixed::whole_spec(s);
    let d = Fixed::whole_spec(length);
    fixed::lemma_small_whole(s);
    fixed::lemma_small_whole(length);
    let n = a.raw * ONE;
    let z = i64::MAX * d.raw;
    assert(0 <= n <= z) by {
        assert(n <= d.raw * ONE);
        assert(d.raw * ONE <= z) by (nonlinear_arith)
            requires
                z == 0x7fff_ffff_ffff_ffff * d.raw,
                d.raw >= 0,
                ONE == 510_000_000,
        ;
    }
    fixed::lemma_over_near(a, d);
    let q = a.over_spec(d).raw as int;
    let w = length * q;
    assert(d.raw * q == 510_000_000 * w) by (nonlinear_arith)
        requires
            d.raw == length * 510_000_000,
            w == length * q,
    ;
    assert(0 <= w <= s * ONE);
    assert(s * ONE - w < length);
    assert(0 <= q <= ONE) by (nonlinear_arith)
        requires
            w == length * q,
            0 <= w <= s * ONE,
            s <= length,
            1 <= length,
            ONE == 510_000_000,
    ;
    assert(length * (ONE - q) == length * ONE - w) by (nonlinear_arith)
        requires
            w == length * q,
    ;
    assert((length - s) * ONE == length * ONE - s * ONE) by (nonlinear_arith);
}

proof fn lemma_unit_product(a: Fixed, b: Fixed)
    requires
        0 <= a.raw <= ONE,
        0 <= b.raw <= ONE,
    ensures
        0 <= a.raw * b.raw - ONE * a.times_spec(b).raw < ONE,
        0 <= a.times_spec(b).raw <= ONE,
        a.times_spec(b).raw <= b.raw,
{
    let n = a.raw * b.raw;
    assert(0 <= n <= 510_000_000 * b.raw) by (nonlinear_arith)
        requires
            n == a.raw * b.raw,
            0 <= a.raw <= 510_000_000,
            0 <= b.raw <= 510_000_000,
    ;
    fixed::lemma_times_near(a, b);
}

/// With full curvature the end of a hull is a quarter of an ellipse: where the share `t` of it is
/// left, the squares of what is gone and of what remains of its height make up 1, up to rounding.
/// Without curvature its height is what is left.
pub proof fn lemma_profile_ellipse(t: Fixed)
    requires
        0 <= t.raw <= ONE,
    ensures
        ({
            let r = ship::profile_spec(t, Fixed::whole_spec(1)).raw;
            let gone = ONE - t.raw;
            &&& 0 <= r <= ONE
            &&& r * r + gone * gone < ONE * ONE + ONE
            &&& ONE * ONE < (r + 1) * (r + 1) + gone * gone
            &&& ship::profile_spec(t, Fixed::whole_spec(0)) == t
        }),
{
    let zero = Fixed::whole_spec(0);
    let one = Fixed::whole_spec(1);
    ship::lemma_profile_extremes(t);
    let gone = one.minus_spec(t);
    lemma_unit_product(gone, gone);
    let left = one.minus_spec(gone.times_spec(gone));
    fixed::lemma_root_near(left);
    let r = left.root_spec().raw as int;
    let square = scalar::at_least_spec(left, zero);
    assert(square == left);
    assert(r <= ONE) by (nonlinear_arith)
        requires
            r * r <= left.raw * 510_000_000,
            left.raw <= 510_000_000,
            0 <= r,
            ONE == 510_000_000,
    ;
}

/// Between no curvature and full curvature the end of a hull lies between the pointed and the
/// rounded one, in proportion to the curvature, less at most two steps.
pub proof fn lemma_profile_proportional(t: Fixed, c: Fixed)
    requires
        0 <= t.raw <= ONE,
        0 <= c.raw <= ONE,
    ensures
        ({
            let pointed = ship::profile_spec(t, Fixed::whole_spec(0)).raw;
            let rounded = ship::profile_spec(t, Fixed::whole_spec(1)).raw;
            let p = ship::profile_spec(t, c).raw;
            &&& 0 <= (ONE - c.raw) * pointed + c.raw * rounded - ONE * p < 2 * ONE
            &&& 0 <= p <= ONE
        }),
{
    let one = Fixed::whole_spec(1);
    ship::lemma_profile_extremes(t);
    lemma_profile_ellipse(t);
    let r = ship::profile_spec(t, one);
    let rest = one.minus_spec(c);
    lemma_unit_product(t, rest);
    lemma_unit_product(r, c);
    assert(t.times_spec(rest).raw + r.times_spec(c).raw <= rest.raw + c.raw);
    assert(ship::profile_spec(t, c) == t.times_spec(rest).plus_spec(r.times_spec(c)));
    assert(t.raw * rest.raw == (ONE - c.raw) * t.raw) by (nonlinear_arith)
        requires
            rest.raw == ONE - c.raw,
    ;
    assert(r.raw * c.raw == c.raw * r.raw) by (nonlinear_arith);
}

/// With half the full curvature the end of a hull is the mean of the pointed and the rounded one,
/// less at most two steps.
pub proof fn lemma_profile_half_way(t: Fixed, c: Fixed)
    requires
        0 <= t.raw <= ONE,
        2 * c.raw == ONE,
    ensures
        0 <= ship::profile_spec(t, Fixed::whole_spec(0)).raw + ship::profile_spec(
            t,
            Fixed::whole_spec(1),
        ).raw - 2 * ship::profile_spec(t, c).raw < 4,
{
    lemma_profile_proportional(t, c);
    let a = ship::profile_spec(t, Fixed::whole_spec(0)).raw as int;
    let b = ship::profile_spec(t, Fixed::whole_spec(1)).raw as int;
    assert((510_000_000 - c.raw) * a + c.raw * b == 255_000_000 * (a + b)) by (nonlinear_arith)
        requires
            c.raw == 255_000_000,
    ;
}

/// Where the rounded end of a hull is higher than the pointed one, the end grows with its curvature,
/// as soon as that makes more than the steps that are lost.
pub proof fn lemma_profile_grows(t: Fixed, c: Fixed, d: Fixed)
    requires
        0 <= t.raw <= ONE,
        0 <= c.raw < d.raw <= ONE,
        (d.raw - c.raw) * (ship::profile_spec(t, Fixed::whole_spec(1)).raw - ship::profile_spec(
            t,
            Fixed::whole_spec(0),
        ).raw) >= 2 * ONE,
    ensures
        ship::profile_spec(t, c).raw < ship::profile_spec(t, d).raw,
{
    lemma_profile_proportional(t, c);
    lemma_profile_proportional(t, d);
    let a = ship::profile_spec(t, Fixed::whole_spec(0)).raw as int;
    let b = ship::profile_spec(t, Fixed::whole_spec(1)).raw as int;
    let x = c.raw as int;
    let y = d.raw as int;
    assert((ONE - y) * a + y * b - ((ONE - x) * a + x * b) == (y - x) * (b - a))
        by (nonlinear_arith);
}

/// The half height of the end of a hull is the nearest number of cells to the share of its full half
/// height that is left, up to a step.
pub proof fn lemma_end_half_nearest(half_height: Fixed, curvature: Fixed, length: nat, s: nat)
    requires
        is_length(half_height),
        s <= length,
        1 <= length <= 10_000,
    ensures
        ({
            let c = if curvature.raw < 0 {
                0
            } else if curvature.raw > ONE {
                ONE
            } else {
                curvature.raw
            };
            let p = ship::profile_spec(ship::taper_spec(s, length), Fixed { raw: c }).raw;
            let half = ship::end_half(half_height, curvature, length, s);
            &&& -(ONE * ONE) - 2 * ONE < 2 * ONE * (ONE * half) - 2 * (half_height.raw * p)
            &&& 2 * ONE * (ONE * half) - 2 * (half_height.raw * p) <= ONE * ONE
            &&& 0 <= p <= ONE
            &&& 0 <= half
        }),
{
    lemma_taper_even(s, length);
    let t = ship::taper_spec::<Fixed>(s, length);
    let c = scalar::clamped_spec(curvature, Fixed::whole_spec(0), Fixed::whole_spec(1));
    lemma_profile_proportional(t, c);
    let p = ship::profile_spec(t, c);
    lemma_share_of_length(half_height, p);
}

proof fn lemma_share_of_length(h: Fixed, p: Fixed)
    requires
        is_length(h),
        0 <= p.raw <= ONE,
    ensures
        ({
            let half = h.times_spec(p).rounded_spec();
            &&& -(ONE * ONE) - 2 * ONE < 2 * ONE * (ONE * half) - 2 * (h.raw * p.raw)
            &&& 2 * ONE * (ONE * half) - 2 * (h.raw * p.raw) <= ONE * ONE
            &&& 0 <= half
        }),
{
    let n = h.raw * p.raw;
    assert(0 <= n <= 10_000 * 510_000_000 * 510_000_000) by (nonlinear_arith)
        requires
            n == h.raw * p.raw,
            0 <= h.raw <= 10_000 * 510_000_000,
            0 <= p.raw <= 510_000_000,
    ;
    fixed::lemma_times_near(h, p);
    let x = h.times_spec(p);
    fixed::lemma_rounded_near(x);
}

/// The end of a hull takes up the columns from its base to its tip, or one column on where these are
/// the same, and in each of them the rows no farther from its middle than its half height there.
pub proof fn lemma_hull_end_cells<S: Scalar>(
    base: int,
    tip: int,
    y: int,
    half_height: S,
    curvature: S,
    i: int,
    j: int,
)
    ensures
        ({
            let here = ship::hull_end_shape(base, tip, y, half_height, curvature)(i, j);
            let rows = |length: int, s: int|
                apart(j, y) <= ship::end_half(half_height, curvature, length as nat, s as nat);
            &&& tip > base ==> (here <==> base <= i <= tip && rows(tip - base, i - base))
            &&& tip < base ==> (here <==> tip <= i <= base && rows(base - tip, base - i))
            &&& tip == base ==> (here <==> base <= i <= base + 1 && rows(1, i - base))
        }),
{
}

/// A fairing is as many columns long as its length has whole cells, and not less than one.
pub proof fn lemma_fairing_columns(fairing: Fairing<Fixed>)
    requires
        fairing.length.raw <= 10_000 * ONE,
    ensures
        ship::fairing_length(fairing) >= 1,
        fairing.length.raw >= ONE ==> ONE * ship::fairing_length(fairing) <= fairing.length.raw
            < ONE * (ship::fairing_length(fairing) + 1),
        fairing.length.raw < ONE ==> ship::fairing_length(fairing) == 1,
{
    fixed::lemma_truncated_near(scalar::at_least_spec(fairing.length, Fixed::whole_spec(1)));
}

/// The half height of a fairing is the nearest number of cells to the share of its full half height
/// that is left, which shrinks evenly away from the stack.
pub proof fn lemma_fairing_half_nearest(fairing: Fairing<Fixed>, s: nat)
    requires
        is_length(fairing.half_height),
        fairing.length.raw <= 10_000 * ONE,
        s <= ship::fairing_length(fairing),
    ensures
        ({
            let length = ship::fairing_length(fairing);
            let t = ship::taper_spec::<Fixed>(s, length as nat).raw;
            let half = ship::fairing_half(fairing, s);
            &&& fixed::differ_less(length * t, (length - s) * ONE, length as int)
            &&& -(ONE * ONE) - 2 * ONE < 2 * ONE * (ONE * half) - 2 * (fairing.half_height.raw * t)
            &&& 2 * ONE * (ONE * half) - 2 * (fairing.half_height.raw * t) <= ONE * ONE
            &&& 0 <= half
        }),
{
    lemma_fairing_columns(fairing);
    let length = ship::fairing_length(fairing) as nat;
    lemma_taper_even(s, length);
    lemma_share_of_length(fairing.half_height, ship::taper_spec(s, length));
}

/// A fairing at the bow reaches from the stack toward lower columns, one at the stern toward higher
/// ones, and in each column the rows no farther from its middle than its half height there.
pub proof fn lemma_fairing_cells<S: Scalar>(fairing: Fairing<S>, i: int, j: int)
    ensures
        ({
            let here = ship::fairing_shape(fairing)(i, j);
            let (x, y) = fairing.position;
            let length = ship::fairing_length(fairing);
            &&& fairing.side == FairingSide::Bow ==> (here <==> x - length <= i <= x && apart(
                j,
                y as int,
            ) <= ship::fairing_half(fairing, (x - i) as nat))
            &&& fairing.side == FairingSide::Stern ==> (here <==> x <= i <= x + length && apart(
                j,
                y as int,
            ) <= ship::fairing_half(fairing, (i - x) as nat))
        }),
{
}

/// A bow and a stern of the same length mirror each other about the middle of the hull.
pub proof fn lemma_stern_mirrors_bow<S: Scalar>(layout: ShipLayout<S>, d: int, j: int)
    requires
        layout.hull_rects@.len() > 0,
        layout.hull_curve is Some,
        layout.hull_curve->0.curve_bow,
        layout.hull_curve->0.curve_stern,
        layout.hull_curve->0.bow_length == layout.hull_curve->0.stern_length,
        layout.hull_curve->0.bow_length.truncated_spec() > 0,
    ensures
        layout.in_stern(layout.hull_rects@[0].0.0 + d, j) == layout.in_bow(
            layout.hull_rects@[0].0.0 - d,
            j,
        ),
{
}

/// The bow stands before the first rectangle of the hull: from its first column, where it is as high
/// as the rectangle, as far toward lower columns as the bow is long, where it ends in one cell.
/// There is none where the bow is not curved or has no length.
pub proof fn lemma_bow_cells(layout: ShipLayout<Fixed>, i: int, j: int)
    requires
        layout.hull_rects@.len() > 0,
        is_length(layout.hull_rects@[0].1),
        is_length(layout.hull_rects@[0].2),
        layout.hull_curve is Some,
        layout.hull_curve->0.bow_length.raw <= 10_000 * ONE,
    ensures
        ({
            let (center, width, height) = layout.hull_rects@[0];
            let curve = layout.hull_curve->0;
            let first = center.0 - stamp::half_cells_spec(width);
            let length = curve.bow_length.truncated_spec();
            let middle = center.1 as int;
            let full = height.over_spec(Fixed::whole_spec(2)).rounded_spec();
            &&& !curve.curve_bow || curve.bow_length.raw <= 0 ==> !layout.in_bow(i, j)
            &&& curve.curve_bow && curve.bow_length.raw >= ONE ==> {
                &&& ONE * length <= curve.bow_length.raw < ONE * (length + 1)
                &&& layout.in_bow(i, j) ==> first - length <= i <= first
                &&& layout.in_bow(first, j) <==> apart(j, middle) <= full
                &&& layout.in_bow(first - length, j) <==> j == middle
            }
        }),
{
    let (center, width, height) = layout.hull_rects@[0];
    let curve = layout.hull_curve->0;
    let h = height.over_spec(Fixed::whole_spec(2));
    fixed::lemma_half(height);
    if curve.curve_bow && curve.bow_length.raw >= ONE {
        fixed::lemma_truncated_near(curve.bow_length);
        let length = curve.bow_length.truncated_spec() as nat;
        lemma_ends_of_end(h, curve.curvature, length);
    }
}

/// The stern stands behind the first rectangle of the hull, from its last column as far toward
/// higher columns as the stern is long.
pub proof fn lemma_stern_cells(layout: ShipLayout<Fixed>, i: int, j: int)
    requires
        layout.hull_rects@.len() > 0,
        is_length(layout.hull_rects@[0].1),
        is_length(layout.hull_rects@[0].2),
        layout.hull_curve is Some,
        layout.hull_curve->0.stern_length.raw <= 10_000 * ONE,
    ensures
        ({
            let (center, width, height) = layout.hull_rects@[0];
            let curve = layout.hull_curve->0;
            let last = center.0 + stamp::half_cells_spec(width);
            let length = curve.stern_length.truncated_spec();
            let middle = center.1 as int;
            let full = height.over_spec(Fixed::whole_spec(2)).rounded_spec();
            &&& !curve.curve_stern || curve.stern_length.raw <= 0 ==> !layout.in_stern(i, j)
            &&& curve.curve_stern && curve.stern_length.raw >= ONE ==> {
                &&& ONE * length <= curve.stern_length.raw < ONE * (length + 1)
                &&& layout.in_stern(i, j) ==> last <= i <= last + length
                &&& layout.in_stern(last, j) <==> apart(j, middle) <= full
                &&& layout.in_stern(last + length, j) <==> j == middle
            }
        }),
{
    let (center, width, height) = layout.hull_rects@[0];
    let curve = layout.hull_curve->0;
    let h = height.over_spec(Fixed::whole_spec(2));
    fixed::lemma_half(height);
    if curve.curve_stern && curve.stern_length.raw >= ONE {
        fixed::lemma_truncated_near(curve.stern_length);
        let length = curve.stern_length.truncated_spec() as nat;
        lemma_ends_of_end(h, curve.curvature, length);
    }
}

proof fn lemma_ends_of_end(half_height: Fixed, curvature: Fixed, length: nat)
    requires
        1 <= length,
    ensures
        ship::end_half(half_height, curvature, length, 0) == half_height.rounded_spec(),
        ship::end_half(half_height, curvature, length, length) == 0,
{
    fixed::lemma_unit_exact();
    ship::lemma_fixed_tapers_exactly(length);
    fixed::lemma_times_zero(half_height);
    fixed::lemma_times_one(half_height);
    ship::lemma_hull_end_ends(half_height, curvature, length);
}

/// The cell in column `i` and row `j` lies in container `m` of the ship.
pub open spec fn in_container<S: Scalar>(layout: ShipLayout<S>, m: int, i: int, j: int) -> bool {
    &&& 0 <= m < layout.containers@.len()
    &&& stamp::rectangle_shape(
        layout.containers@[m].center,
        layout.containers@[m].width,
        layout.containers@[m].height,
    )(i, j)
}

proof fn lemma_first_container<S: Scalar>(
    layout: ShipLayout<S>,
    n: nat,
    m: int,
    i: int,
    j: int,
)
    requires
        n <= layout.containers@.len(),
    ensures
        0 <= m < n && in_container(layout, m, i, j) && (forall|c: int|
            0 <= c < m ==> !#[trigger] in_container(layout, c, i, j)) ==> ship::container_at(
            layout.containers@,
            n,
            i,
            j,
        ) == Some(layout.containers@[m].id),
        (forall|c: int| 0 <= c < n ==> !#[trigger] in_container(layout, c, i, j))
            ==> ship::container_at(layout.containers@, n, i, j) is None,
    decreases n,
{
    if n > 0 {
        lemma_first_container(layout, (n - 1) as nat, m, i, j);
        assert(in_container(layout, n - 1, i, j) == ship::container_shape(
            layout.containers@[n - 1],
        )(i, j));
    }
}

/// A cell of a ship belongs to its hull if it lies in a rectangle of the hull, in the bow or in the
/// stern, or was a wall before; else to the first container that it lies in; else to a fairing, if
/// it lies in one; and else to nothing.
pub proof fn lemma_parts_of_ship<S: Scalar>(
    layout: ShipLayout<S>,
    was_wall: bool,
    i: int,
    j: int,
    m: int,
)
    ensures
        ({
            let hull = was_wall || layout.in_bow(i, j) || layout.in_stern(i, j) || exists|r: int|
                0 <= r < layout.hull_rects@.len() && stamp::rectangle_shape(
                    (#[trigger] layout.hull_rects@[r]).0,
                    layout.hull_rects@[r].1,
                    layout.hull_rects@[r].2,
                )(i, j);
            let fairing = exists|f: int|
                0 <= f < layout.fairings@.len() && ship::fairing_shape(
                    #[trigger] layout.fairings@[f],
                )(i, j);
            let contained = exists|c: int| #[trigger] in_container(layout, c, i, j);
            let part = layout.part(was_wall, i, j);
            &&& hull ==> part == Some(WallKind::Hull)
            &&& !hull && in_container(layout, m, i, j) && (forall|c: int|
                0 <= c < m ==> !#[trigger] in_container(layout, c, i, j)) ==> part == Some(
                WallKind::Container(layout.containers@[m].id),
            )
            &&& !hull && !contained && fairing ==> part == Some(WallKind::Fairing)
            &&& !hull && !contained && !fairing ==> part is None
        }),
{
    lemma_first_container(layout, layout.containers@.len(), m, i, j);
}

/// The measures of a ship are lengths of at most a thousand cells, and its stack has at most a
/// thousand rows and columns.
pub open spec fn ordinary_ship(p: BoatParams<Fixed>) -> bool {
    let fine = |x: Fixed| 0 <= x.raw <= 1_000 * ONE;
    &&& fine(p.hull_width)
    &&& fine(p.hull_height)
    &&& fine(p.container_width)
    &&& fine(p.container_height)
    &&& fine(p.container_gap)
    &&& p.kind.rows() <= 1_000
    &&& match p.kind {
        ContainerLayoutKind::Grid { cols, .. } => cols <= 1_000,
        ContainerLayoutKind::Pyramid { .. } => true,
        ContainerLayoutKind::Staggered { cols, .. } => cols <= 1_000,
    }
}

proof fn lemma_times_count(n: int, x: Fixed)
    requires
        0 <= n <= 10_000,
        0 <= x.raw <= 10_000 * ONE,
    ensures
        Fixed::whole_spec(n as nat).times_spec(x).raw == n * x.raw,
        0 <= n * x.raw <= 100_000_000 * ONE,
{
    let w = Fixed::whole_spec(n as nat);
    fixed::lemma_small_whole(n as nat);
    let m = w.raw * x.raw;
    let v = n * x.raw;
    assert(m == v * 510_000_000 && 0 <= v <= 10_000 * (10_000 * 510_000_000)) by (nonlinear_arith)
        requires
            m == w.raw * x.raw,
            v == n * x.raw,
            w.raw == n * 510_000_000,
            0 <= n <= 10_000,
            0 <= x.raw <= 10_000 * 510_000_000,
    ;
}

/// Half of `x` steps in whole cells, for an `x` that is not negative.
spec fn half_of(x: int) -> int {
    x / (2 * ONE as int)
}

proof fn lemma_half_of(x: Fixed)
    requires
        0 <= x.raw <= 200_000_000 * ONE,
    ensures
        x.over_spec(Fixed::whole_spec(2)).truncated_spec() == half_of(x.raw as int),
        2 * ONE * half_of(x.raw as int) <= x.raw < 2 * ONE * half_of(x.raw as int) + 2 * ONE,
        0 <= half_of(x.raw as int),
{
    fixed::lemma_half(x);
}

proof fn lemma_start(p: BoatParams<Fixed>, r: int)
    requires
        ordinary_ship(p),
        0 <= r < p.kind.rows(),
        p.kind.row_length(r) >= 1,
    ensures
        ({
            let step = p.container_width.raw + p.container_gap.raw;
            let n = p.kind.row_length(r) as int;
            let width = n * step - p.container_gap.raw;
            let shift = if p.kind.shifted(r) {
                half_of(step)
            } else {
                0
            };
            &&& p.step_x_spec().raw == step
            &&& 0 <= width
            &&& 0 <= n * step <= 2_000_000 * ONE
            &&& p.start_x(r) == p.center.0 - half_of(width) + shift
            &&& 2 * ONE * half_of(width) <= width < 2 * ONE * half_of(width) + 2 * ONE
            &&& 2 * ONE * half_of(step) <= step < 2 * ONE * half_of(step) + 2 * ONE
        }),
{
    let step = p.step_x_spec();
    let n = p.kind.row_length(r) as int;
    assert(step.raw == p.container_width.raw + p.container_gap.raw);
    assert(1 <= n <= 1_000);
    lemma_times_count(n, step);
    assert(step.raw <= n * step.raw <= 1_000 * (2_000 * 510_000_000)) by (nonlinear_arith)
        requires
            1 <= n <= 1_000,
            0 <= step.raw <= 2_000 * 510_000_000,
    ;
    let width = Fixed::whole_spec(n as nat).times_spec(step).minus_spec(p.container_gap);
    lemma_half_of(width);
    lemma_half_of(step);
    assert(Fixed::whole_spec(0).truncated_spec() == 0);
}

/// The columns from the beginning of a row to its container `c`.
proof fn lemma_column(p: BoatParams<Fixed>, r: int, c: int)
    requires
        ordinary_ship(p),
        0 <= c <= 1_000,
    ensures
        ({
            let step = p.container_width.raw + p.container_gap.raw;
            let way = p.column(r, c) - p.start_x(r);
            &&& 2 * (c * step) + p.container_width.raw - 2 * ONE - 1 <= 2 * ONE * way
            &&& 2 * ONE * way <= 2 * (c * step) + p.container_width.raw
            &&& way == (c * step + p.container_width.raw as int / 2) / (ONE as int)
            &&& 0 <= c * step
        }),
{
    let step = p.step_x_spec();
    assert(step.raw == p.container_width.raw + p.container_gap.raw);
    lemma_times_count(c, step);
    fixed::lemma_half(p.container_width);
    let x = Fixed::whole_spec(c as nat).times_spec(step).plus_spec(
        p.container_width.over_spec(Fixed::whole_spec(2)),
    );
    fixed::lemma_truncated_near(x);
}

/// Each row of a stack is centred on the hull: its first and its last container lie equally far to
/// the left and to the right of the middle column, up to rounding to cells. A row that is shifted is
/// centred half a step behind it.
pub proof fn lemma_row_centred(p: BoatParams<Fixed>, r: int)
    requires
        ordinary_ship(p),
        0 <= r < p.kind.rows(),
        p.kind.row_length(r) >= 1,
    ensures
        ({
            let first = p.column(r, 0) - p.center.0;
            let last = p.column(r, p.kind.row_length(r) - 1) - p.center.0;
            let step = p.container_width.raw + p.container_gap.raw;
            &&& !p.kind.shifted(r) ==> -2 <= first + last <= 2
            &&& p.kind.shifted(r) ==> fixed::differ_less(ONE * (first + last), step, 4 * ONE)
        }),
{
    let n = p.kind.row_length(r) as int;
    let step = p.container_width.raw + p.container_gap.raw;
    lemma_start(p, r);
    lemma_column(p, r, 0);
    lemma_column(p, r, n - 1);
    assert((n - 1) * step == n * step - step) by (nonlinear_arith);
}

/// The containers of a row follow each other by their width and the gap between them, up to rounding
/// to cells.
pub proof fn lemma_containers_spaced(p: BoatParams<Fixed>, r: int, c: int)
    requires
        ordinary_ship(p),
        0 <= c < 1_000,
    ensures
        fixed::differ_less(
            ONE * (p.column(r, c + 1) - p.column(r, c)),
            p.container_width.raw + p.container_gap.raw,
            ONE as int,
        ),
{
    let step = p.container_width.raw + p.container_gap.raw;
    lemma_column(p, r, c);
    lemma_column(p, r, c + 1);
    assert((c + 1) * step == c * step + step) by (nonlinear_arith);
}

/// Each row of a pyramid begins half a step behind the one below it, up to rounding to cells.
pub proof fn lemma_pyramid_steps(p: BoatParams<Fixed>, r: int)
    requires
        ordinary_ship(p),
        p.kind is Pyramid,
        0 <= r,
        r + 1 < p.kind.rows(),
    ensures
        fixed::differ_less(
            2 * ONE * (p.start_x(r + 1) - p.start_x(r)),
            p.container_width.raw + p.container_gap.raw,
            2 * ONE,
        ),
{
    let step = p.container_width.raw + p.container_gap.raw;
    let n = p.kind.row_length(r) as int;
    lemma_start(p, r);
    lemma_start(p, r + 1);
    assert((n - 1) * step == n * step - step) by (nonlinear_arith);
}

/// The rows of a stack follow each other upward by the height of the containers and the gap, up to
/// rounding to cells.
pub proof fn lemma_rows_spaced(p: BoatParams<Fixed>, r: int)
    requires
        ordinary_ship(p),
        0 <= r < 1_000,
    ensures
        fixed::differ_less(
            ONE * (p.height(r) - p.height(r + 1)),
            p.container_height.raw + p.container_gap.raw,
            ONE as int,
        ),
{
    let step = p.step_y_spec();
    assert(step.raw == p.container_height.raw + p.container_gap.raw);
    lemma_times_count(r, step);
    lemma_times_count(r + 1, step);
    let a = Fixed::whole_spec(r as nat).times_spec(step);
    let b = Fixed::whole_spec((r + 1) as nat).times_spec(step);
    assert((r + 1) * step.raw == r * step.raw + step.raw) by (nonlinear_arith);
    fixed::lemma_truncated_near(a);
    fixed::lemma_truncated_near(b);
}

/// The lowest row of a stack stands on the hull, with the gap between them: half the height of the
/// hull, the gap, and half the height of a container above the middle of the hull, up to rounding to
/// cells.
pub proof fn lemma_lowest_row(p: BoatParams<Fixed>)
    requires
        ordinary_ship(p),
    ensures
        ({
            let above = p.center.1 - p.height(0);
            let exact = p.hull_height.raw + p.container_height.raw + 2 * p.container_gap.raw;
            exact - 6 * ONE < 2 * ONE * above <= exact
        }),
{
    lemma_half_cells(p.hull_height);
    lemma_half_cells(p.container_height);
    fixed::lemma_truncated_near(p.container_gap);
    fixed::lemma_times_zero(p.step_y_spec());
    assert(Fixed::whole_spec(0).truncated_spec() == 0);
}

/// The lowest row of a stack has as many containers as the user asks for: the columns of a grid or of
/// a staggered stack, and the rows of a pyramid, whose last row has one.
pub proof fn lemma_row_counts(rows: usize, cols: usize)
    ensures
        (ContainerLayoutKind::Grid { rows, cols }).row_length(0) == cols,
        (ContainerLayoutKind::Staggered { rows, cols }).row_length(0) == cols,
        (ContainerLayoutKind::Pyramid { rows }).row_length(0) == rows,
        rows >= 1 ==> (ContainerLayoutKind::Pyramid { rows }).row_length(rows - 1) == 1,
        (ContainerLayoutKind::Grid { rows, cols }).rows() == rows,
        (ContainerLayoutKind::Staggered { rows, cols }).rows() == rows,
        (ContainerLayoutKind::Pyramid { rows }).rows() == rows,
{
}

/// A fairing is as high as the stack: no container reaches farther up or down from its middle row
/// than its half height, up to half a cell, and some container reaches as far up, and some as far
/// down, unless the fairing has the least half height of one cell.
pub proof fn lemma_fairing_as_high_as_stack(p: BoatParams<Fixed>, side: FairingSide, n: int)
    requires
        p.fits(),
        p.has_fairings(),
        0 <= n < p.stack().len(),
        apart(p.max_y(), p.min_y()) <= 10_000,
        stamp::half_cells_spec(p.container_height) >= 0,
    ensures
        ({
            let fairing = p.fairing(side);
            let middle = fairing.position.1;
            let half = stamp::half_cells_spec(p.container_height);
            let top = |m: int| p.stack()[m].1 - half;
            let bottom = |m: int| p.stack()[m].1 + half;
            &&& 2 * ONE * (middle - top(n)) <= 2 * fairing.half_height.raw + ONE
            &&& 2 * ONE * (bottom(n) - middle) <= 2 * fairing.half_height.raw + ONE
            &&& fairing.half_height.raw >= ONE
            &&& fairing.half_height.raw == ONE || exists|m: int|
                0 <= m < p.stack().len() && 2 * ONE * (middle - ((#[trigger] p.stack()[m]).1 - half))
                    + ONE >= 2 * fairing.half_height.raw
            &&& fairing.half_height.raw == ONE || exists|m: int|
                0 <= m < p.stack().len() && 2 * ONE * ((#[trigger] p.stack()[m]).1 + half - middle)
                    + ONE >= 2 * fairing.half_height.raw
            &&& fairing.length == p.fairing_length
            &&& fairing.side == side
        }),
{
    let ys = p.stack().map_values(|c: (int, int)| c.1);
    boat::lemma_least_greatest(ys);
    assert(ys[n] == p.stack()[n].1);
    let low = ys.index_of(boat::least(ys));
    let high = ys.index_of(boat::greatest(ys));
    assert(ys[low] == boat::least(ys) && p.stack()[low].1 == ys[low]);
    assert(ys[high] == boat::greatest(ys) && p.stack()[high].1 == ys[high]);
    let tall = p.max_y() - p.min_y();
    assert(ys[low] <= ys[high]);
    fixed::lemma_small_whole(tall as nat);
    let whole = Fixed::whole_spec(tall as nat);
    fixed::lemma_half(whole);
    assert(scalar::signed_spec::<Fixed>(tall) == whole);
    assert(p.fairing(side).position.1 == fixed::toward_zero(p.min_y() + p.max_y(), 2));
}

/// The ends of a hull are curved as the user asks for, and all their measures are those given.
pub proof fn lemma_hull_curve_given<S: Scalar>(p: BoatParams<S>)
    ensures
        p.hull_curve() is Some <==> p.curve_bow || p.curve_stern,
        p.hull_curve() is Some ==> {
            let curve = p.hull_curve()->0;
            &&& curve.curve_bow == p.curve_bow
            &&& curve.curve_stern == p.curve_stern
            &&& curve.curvature == p.hull_curvature
            &&& curve.bow_length == p.bow_length
            &&& curve.stern_length == p.stern_length
        },
{
}

/// A ship has the fairings that the user asks for, that at the bow first, and none without
/// containers.
pub proof fn lemma_fairings_given<S: Scalar>(p: BoatParams<S>)
    ensures
        p.stack().len() == 0 ==> p.fairings().len() == 0,
        p.stack().len() > 0 ==> {
            &&& p.add_bow_fairing ==> p.fairings().len() >= 1 && p.fairings()[0] == p.fairing(
                FairingSide::Bow,
            )
            &&& p.add_stern_fairing ==> p.fairings().len() >= 1 && p.fairings().last() == p.fairing(
                FairingSide::Stern,
            )
            &&& p.fairings().len() == (if p.add_bow_fairing {
                1int
            } else {
                0
            }) + (if p.add_stern_fairing {
                1int
            } else {
                0
            })
        },
{
}

/// The greatest gap that is drawn is three times that of the ship, and not below three; the greatest
/// length of a fairing is half the width of the hull, and not below two.
pub proof fn lemma_limits_of_draws(base: BoatParams<Fixed>)
    requires
        -1_000_000 * ONE <= base.container_gap.raw <= 1_000_000 * ONE,
    ensures
        base.container_gap.raw >= ONE ==> boat::gap_limit_spec(base).raw == 3
            * base.container_gap.raw,
        base.container_gap.raw <= ONE ==> boat::gap_limit_spec(base).raw == 3 * ONE,
        base.hull_width.raw >= 4 * ONE ==> 0 <= base.hull_width.raw - 2 * boat::fairing_limit_spec(
            base,
        ).raw <= 1,
        base.hull_width.raw <= 4 * ONE ==> boat::fairing_limit_spec(base).raw == 2 * ONE,
{
    let gap = scalar::at_least_spec(base.container_gap, Fixed::whole_spec(1));
    let three = Fixed::whole_spec(3);
    let n = gap.raw * three.raw;
    assert(n == (3 * gap.raw) * 510_000_000) by (nonlinear_arith)
        requires
            n == gap.raw * three.raw,
            three.raw == 3 * 510_000_000,
    ;
    fixed::lemma_half(scalar::at_least_spec(base.hull_width, Fixed::whole_spec(4)));
}

/// A random ship has the gap, the ends and the fairings that were drawn, and all else of the ship
/// that it is made from.
pub proof fn lemma_draws_taken<S: Scalar>(
    base: BoatParams<S>,
    kind: ContainerLayoutKind,
    draws: boat::Draws<S>,
)
    ensures
        ({
            let p = base.with_draws_spec(kind, draws);
            &&& p.kind == kind
            &&& p.container_gap == draws.gap
            &&& p.curve_bow == draws.curve_bow
            &&& p.curve_stern == draws.curve_stern
            &&& p.hull_curvature == draws.curvature
            &&& p.add_bow_fairing == draws.add_bow_fairing
            &&& p.add_stern_fairing == draws.add_stern_fairing
            &&& p.fairing_length == draws.fairing_length
            &&& p.center == base.center
            &&& p.hull_width == base.hull_width
            &&& p.hull_height == base.hull_height
            &&& p.container_width == base.container_width
            &&& p.container_height == base.container_height
            &&& p.flow_angle == base.flow_angle
            &&& p.bow_length == base.bow_length
            &&& p.stern_length == base.stern_length
        }),
{
}

proof fn lemma_centers_known(p: BoatParams<Fixed>, n: nat, k: int)
    requires
        0 <= k < p.centers(n).len(),
    ensures
        exists|r: int, c: int|
            0 <= r < n && 0 <= c < p.kind.row_length(r) && p.centers(n)[k] == (
                #[trigger] p.column(r, c),
                p.height(r),
            ),
    decreases n,
{
    if n > 0 {
        let before = p.centers((n - 1) as nat);
        if k < before.len() {
            lemma_centers_known(p, (n - 1) as nat, k);
            let (r, c) = choose|r: int, c: int|
                0 <= r < n - 1 && 0 <= c < p.kind.row_length(r) && before[k] == (
                    #[trigger] p.column(r, c),
                    p.height(r),
                );
            assert(p.centers(n)[k] == (p.column(r, c), p.height(r)));
        } else {
            let c = k - before.len();
            assert(p.centers(n)[k] == (p.column(n - 1, c), p.height(n - 1)));
        }
    }
}

/// The containers of a ship whose measures are ordinary lie not far from the middle of its hull.
proof fn lemma_stack_near(p: BoatParams<Fixed>, k: int)
    requires
        ordinary_ship(p),
        0 <= k < p.stack().len(),
    ensures
        -3_000_000 <= p.stack()[k].0 - p.center.0 <= 6_000_000,
        -3_000_000 <= p.center.1 - p.stack()[k].1 <= 3_000_000,
{
    lemma_centers_known(p, p.kind.rows(), k);
    let (r, c) = choose|r: int, c: int|
        0 <= r < p.kind.rows() && 0 <= c < p.kind.row_length(r) && p.stack()[k] == (
            #[trigger] p.column(r, c),
            p.height(r),
        );
    let step = p.container_width.raw + p.container_gap.raw;
    let n = p.kind.row_length(r) as int;
    lemma_start(p, r);
    lemma_column(p, r, c);
    assert(c * step <= n * step) by (nonlinear_arith)
        requires
            0 <= c < n,
            0 <= step,
    ;
    let up = p.step_y_spec();
    lemma_times_count(r, up);
    assert(r * up.raw <= 1_000 * (2_000 * 510_000_000)) by (nonlinear_arith)
        requires
            0 <= r <= 1_000,
            0 <= up.raw <= 2_000 * 510_000_000,
    ;
    fixed::lemma_truncated_near(Fixed::whole_spec(r as nat).times_spec(up));
    lemma_half_cells(p.hull_height);
    lemma_half_cells(p.container_height);
    fixed::lemma_truncated_near(p.container_gap);
}

/// A ship with ordinary measures not too far from the first column and row can be built.
pub proof fn lemma_ordinary_ship_fits(p: BoatParams<Fixed>)
    requires
        ordinary_ship(p),
        -100_000_000 <= p.center.0 <= 100_000_000,
        -100_000_000 <= p.center.1 <= 100_000_000,
    ensures
        p.fits(),
{
    boat::lemma_container_count(p);
    match p.kind {
        ContainerLayoutKind::Grid { rows, cols } => {
            assert(rows * cols <= 1_000 * 1_000) by (nonlinear_arith)
                requires
                    rows <= 1_000,
                    cols <= 1_000,
            ;
        },
        ContainerLayoutKind::Pyramid { rows } => {
            assert(rows * (rows + 1) <= 1_000 * 1_001) by (nonlinear_arith)
                requires
                    rows <= 1_000,
            ;
        },
        ContainerLayoutKind::Staggered { rows, cols } => {
            assert(rows * cols <= 1_000 * 1_000) by (nonlinear_arith)
                requires
                    rows <= 1_000,
                    cols <= 1_000,
            ;
        },
    }
    assert forall|k: int| 0 <= k < p.stack().len() implies boat::fits_cells(
        (#[trigger] p.stack()[k]).0,
    ) && boat::fits_cells(p.stack()[k].1) by {
        lemma_stack_near(p, k);
    }
    if p.stack().len() > 0 {
        let xs = p.stack().map_values(|c: (int, int)| c.0);
        let ys = p.stack().map_values(|c: (int, int)| c.1);
        boat::lemma_least_greatest(xs);
        boat::lemma_least_greatest(ys);
        let a = xs.index_of(boat::least(xs));
        let b = xs.index_of(boat::greatest(xs));
        let c = ys.index_of(boat::least(ys));
        let d = ys.index_of(boat::greatest(ys));
        assert(xs[a] == p.stack()[a].0 && xs[b] == p.stack()[b].0);
        assert(ys[c] == p.stack()[c].1 && ys[d] == p.stack()[d].1);
        lemma_stack_near(p, a);
        lemma_stack_near(p, b);
        lemma_stack_near(p, c);
        lemma_stack_near(p, d);
        lemma_half_cells(p.container_width);
        lemma_half_cells(p.container_height);
    }
}

} // verus!
