//! Fixed-point numbers.
use vstd::prelude::*;
use crate::scalar;
use crate::scalar::Scalar;

verus! {

/// The number of steps of a `Fixed` between two whole numbers.
///
/// It is `N` million, so that the constants of the simulation are whole numbers of steps: the width
/// of a cell, which is one `N`-th of that of the grid, as well as decimal fractions down to a
/// millionth.
pub const ONE: i64 = 510_000_000;

/// `n`, or the end of the range of `i64` that lies nearest to it.
pub open spec fn saturated(n: int) -> i64 {
    if n < i64::MIN {
        i64::MIN
    } else if n > i64::MAX {
        i64::MAX
    } else {
        n as i64
    }
}

/// `n / d` without its fraction, for a positive `d`.
pub open spec fn toward_zero(n: int, d: int) -> int {
    if n >= 0 {
        n / d
    } else {
        -((-n) / d)
    }
}

fn saturate(n: i128) -> (r: i64)
    ensures
        r == saturated(n as int),
{
    if n < i64::MIN as i128 {
        i64::MIN
    } else if n > i64::MAX as i128 {
        i64::MAX
    } else {
        n as i64
    }
}

fn divide(n: i128, d: i128) -> (r: i128)
    requires
        d > 0,
        n > i128::MIN,
    ensures
        r == toward_zero(n as int, d as int),
{
    if n >= 0 {
        n / d
    } else {
        -((-n) / d)
    }
}

/// `n`, or the end of the range of `isize` that lies nearest to it.
pub open spec fn saturated_cells(n: int) -> isize {
    if n < isize::MIN {
        isize::MIN
    } else if n > isize::MAX {
        isize::MAX
    } else {
        n as isize
    }
}

fn saturate_cells(n: i128) -> (r: isize)
    ensures
        r == saturated_cells(n as int),
{
    if n < isize::MIN as i128 {
        isize::MIN
    } else if n > isize::MAX as i128 {
        isize::MAX
    } else {
        n as isize
    }
}

/// The greatest natural number whose square is at most `n`.
pub open spec fn whole_root(n: int) -> int {
    choose|r: int| is_root(n, r)
}

/// `r` is the greatest natural number whose square is at most `n`.
pub open spec fn is_root(n: int, r: int) -> bool {
    0 <= r && r * r <= n < (r + 1) * (r + 1)
}

proof fn lemma_root_unique(n: int, r: int, s: int)
    requires
        is_root(n, r),
        is_root(n, s),
    ensures
        r == s,
{
    if r < s {
        assert((r + 1) * (r + 1) <= s * s) by (nonlinear_arith)
            requires
                0 <= r < s,
        ;
    }
    if s < r {
        assert((s + 1) * (s + 1) <= r * r) by (nonlinear_arith)
            requires
                0 <= s < r,
        ;
    }
}

fn find_root(n: i128) -> (r: i128)
    requires
        0 <= n < 0x1_0000_0000_0000_0000_0000_0000,
    ensures
        r == whole_root(n as int),
        0 <= r < 0x1_0000_0000_0000,
{
    let mut low: i128 = 0;
    let mut high: i128 = 0x1_0000_0000_0000;
    assert(high * high > n) by (nonlinear_arith)
        requires
            high == 0x1_0000_0000_0000,
            n < 0x1_0000_0000_0000_0000_0000_0000,
    ;
    while high - low > 1
        invariant
            0 <= low < high <= 0x1_0000_0000_0000,
            low * low <= n < high * high,
        decreases high - low,
    {
        let middle: i128 = low + (high - low) / 2;
        assert(middle * middle <= 0x1_0000_0000_0000_0000_0000_0000) by (nonlinear_arith)
            requires
                0 <= middle <= 0x1_0000_0000_0000,
        ;
        assert(middle * middle >= 0) by (nonlinear_arith);
        if middle * middle <= n {
            low = middle;
        } else {
            high = middle;
        }
    }
    proof {
        assert(high == low + 1);
        assert(is_root(n as int, low as int));
        lemma_root_unique(n as int, low as int, whole_root(n as int));
    }
    low
}

/// A number in steps of `1 / ONE`. What does not fit its range is saturated.
///
/// Sums and differences are exact within the range. Products, quotients and roots are cut down to
/// whole steps, toward zero: where a result is no whole number of steps it is less than one step
/// too near to zero.
#[derive(Clone, Copy, Debug, PartialEq, Eq, Structural)]
pub struct Fixed {
    /// The number, in steps of `1 / ONE`.
    pub raw: i64,
}

impl Scalar for Fixed {
    open spec fn whole_spec(n: nat) -> Self {
        Fixed { raw: saturated(n * ONE) }
    }

    open spec fn plus_spec(self, other: Self) -> Self {
        Fixed { raw: saturated(self.raw + other.raw) }
    }

    open spec fn minus_spec(self, other: Self) -> Self {
        Fixed { raw: saturated(self.raw - other.raw) }
    }

    open spec fn times_spec(self, other: Self) -> Self {
        Fixed { raw: saturated(toward_zero(self.raw * other.raw, ONE as int)) }
    }

    /// A quotient by zero is the end of the range on the side of `self`.
    open spec fn over_spec(self, other: Self) -> Self {
        Fixed {
            raw: if other.raw > 0 {
                saturated(toward_zero(self.raw * ONE, other.raw as int))
            } else if other.raw < 0 {
                saturated(toward_zero(-(self.raw * ONE), -other.raw))
            } else if self.raw >= 0 {
                i64::MAX
            } else {
                i64::MIN
            },
        }
    }

    open spec fn negated_spec(self) -> Self {
        Fixed { raw: saturated(-self.raw) }
    }

    open spec fn size_spec(self) -> Self {
        if self.raw < 0 {
            Fixed { raw: saturated(-self.raw) }
        } else {
            self
        }
    }

    /// The greatest number whose square is not above `self`; 0 where there is none.
    open spec fn root_spec(self) -> Self {
        if self.raw < 0 {
            Fixed { raw: 0 }
        } else {
            Fixed { raw: whole_root(self.raw * ONE) as i64 }
        }
    }

    /// The square root.
    open spec fn half_power_spec(self) -> Self {
        self.root_spec()
    }

    open spec fn below_spec(self, other: Self) -> bool {
        self.raw < other.raw
    }

    open spec fn at_most_spec(self, other: Self) -> bool {
        self.raw <= other.raw
    }

    open spec fn truncated_spec(self) -> isize {
        saturated_cells(toward_zero(self.raw as int, ONE as int))
    }

    /// A half is rounded away from zero.
    open spec fn rounded_spec(self) -> isize {
        saturated_cells(
            if self.raw >= 0 {
                toward_zero(self.raw + ONE / 2, ONE as int)
            } else {
                toward_zero(self.raw - ONE / 2, ONE as int)
            },
        )
    }

    fn whole(n: usize) -> (r: Self) {
        Fixed { raw: saturate(n as i128 * ONE as i128) }
    }

    fn plus(self, other: Self) -> (r: Self) {
        Fixed { raw: saturate(self.raw as i128 + other.raw as i128) }
    }

    fn minus(self, other: Self) -> (r: Self) {
        Fixed { raw: saturate(self.raw as i128 - other.raw as i128) }
    }

    fn times(self, other: Self) -> (r: Self) {
        let a: i128 = self.raw as i128;
        let b: i128 = other.raw as i128;
        proof {
            lemma_product_fits(self.raw, other.raw);
        }
        Fixed { raw: saturate(divide(a * b, ONE as i128)) }
    }

    fn over(self, other: Self) -> (r: Self) {
        let n: i128 = self.raw as i128 * ONE as i128;
        proof {
            lemma_product_fits(self.raw, ONE);
        }
        if other.raw > 0 {
            Fixed { raw: saturate(divide(n, other.raw as i128)) }
        } else if other.raw < 0 {
            Fixed { raw: saturate(divide(-n, -(other.raw as i128))) }
        } else if self.raw >= 0 {
            Fixed { raw: i64::MAX }
        } else {
            Fixed { raw: i64::MIN }
        }
    }

    fn negated(self) -> (r: Self) {
        Fixed { raw: saturate(-(self.raw as i128)) }
    }

    fn size(self) -> (r: Self) {
        if self.raw < 0 {
            Fixed { raw: saturate(-(self.raw as i128)) }
        } else {
            self
        }
    }

    fn root(self) -> (r: Self) {
        if self.raw < 0 {
            Fixed { raw: 0 }
        } else {
            Fixed { raw: find_root(self.raw as i128 * ONE as i128) as i64 }
        }
    }

    fn half_power(self) -> (r: Self) {
        self.root()
    }

    fn below(self, other: Self) -> (r: bool) {
        self.raw < other.raw
    }

    fn at_most(self, other: Self) -> (r: bool) {
        self.raw <= other.raw
    }

    fn truncated(self) -> (r: isize) {
        saturate_cells(divide(self.raw as i128, ONE as i128))
    }

    fn rounded(self) -> (r: isize) {
        let half: i128 = ONE as i128 / 2;
        if self.raw >= 0 {
            saturate_cells(divide(self.raw as i128 + half, ONE as i128))
        } else {
            saturate_cells(divide(self.raw as i128 - half, ONE as i128))
        }
    }
}

proof fn lemma_product_fits(a: i64, b: i64)
    ensures
        i128::MIN < a * b <= i128::MAX,
{
    assert(-0x4000_0000_0000_0000_0000_0000_0000_0000 <= a * b
        <= 0x4000_0000_0000_0000_0000_0000_0000_0000) by (nonlinear_arith)
        requires
            -0x8000_0000_0000_0000 <= a <= 0x7fff_ffff_ffff_ffff,
            -0x8000_0000_0000_0000 <= b <= 0x7fff_ffff_ffff_ffff,
    ;
}

proof fn lemma_divide_monotonic(a: int, b: int, d: int)
    requires
        a <= b,
        d > 0,
    ensures
        toward_zero(a, d) <= toward_zero(b, d),
        b >= 0 ==> toward_zero(b, d) >= 0,
{
    if a >= 0 {
        assert(a / d <= b / d) by (nonlinear_arith)
            requires
                a <= b,
                d > 0,
        ;
    } else if b < 0 {
        assert((-b) / d <= (-a) / d) by (nonlinear_arith)
            requires
                a <= b,
                d > 0,
        ;
    } else {
        assert((-a) / d >= 0) by (nonlinear_arith)
            requires
                a < 0,
                d > 0,
        ;
    }
    if b >= 0 {
        assert(b / d >= 0) by (nonlinear_arith)
            requires
                b >= 0,
                d > 0,
        ;
    }
}

/// A product with one is the other factor.
pub proof fn lemma_times_one(x: Fixed)
    ensures
        x.times_spec(Fixed::whole_spec(1)) == x,
        Fixed::whole_spec(1).times_spec(x) == x,
{
    let n = x.raw * ONE;
    assert(n == ONE * x.raw) by (nonlinear_arith)
        requires
            n == x.raw * ONE,
    ;
    assert(x.raw >= 0 ==> n >= 0 && n / 510_000_000 == x.raw);
    assert(x.raw < 0 ==> n < 0 && (-n) / 510_000_000 == -x.raw);
}

/// A product with zero is zero.
pub proof fn lemma_times_zero(x: Fixed)
    ensures
        x.times_spec(Fixed::whole_spec(0)) == Fixed::whole_spec(0),
        Fixed::whole_spec(0).times_spec(x) == Fixed::whole_spec(0),
{
    assert(x.raw * 0 == 0 && 0 * x.raw == 0);
}

/// The square root of one is one, and that of zero is zero.
pub proof fn lemma_root_of_one()
    ensures
        Fixed::whole_spec(1).root_spec() == Fixed::whole_spec(1),
        Fixed::whole_spec(0).root_spec() == Fixed::whole_spec(0),
{
    let square = 510_000_000int * 510_000_000;
    assert(is_root(square, 510_000_000));
    lemma_root_unique(square, 510_000_000, whole_root(square));
    assert(is_root(0, 0));
    lemma_root_unique(0, 0, whole_root(0));
}

/// Products of numbers that are not negative grow with their factors.
pub proof fn lemma_times_monotonic(a: Fixed, b: Fixed, x: Fixed)
    requires
        a.raw <= b.raw,
        0 <= x.raw,
    ensures
        a.times_spec(x).raw <= b.times_spec(x).raw,
        x.times_spec(a).raw <= x.times_spec(b).raw,
        0 <= b.raw ==> 0 <= b.times_spec(x).raw,
{
    assert(a.raw * x.raw <= b.raw * x.raw && a.raw * x.raw == x.raw * a.raw && b.raw * x.raw
        == x.raw * b.raw && (0 <= b.raw ==> 0 <= b.raw * x.raw)) by (nonlinear_arith)
        requires
            a.raw <= b.raw,
            0 <= x.raw,
    ;
    lemma_divide_monotonic(a.raw * x.raw, b.raw * x.raw, ONE as int);
}

/// Quotients by a positive number grow with what is divided.
pub proof fn lemma_over_monotonic(a: Fixed, b: Fixed, d: Fixed)
    requires
        a.raw <= b.raw,
        0 < d.raw,
    ensures
        a.over_spec(d).raw <= b.over_spec(d).raw,
        0 <= b.raw ==> 0 <= b.over_spec(d).raw,
        d.over_spec(d) == Fixed::whole_spec(1),
        Fixed::whole_spec(0).over_spec(d) == Fixed::whole_spec(0),
{
    lemma_divide_monotonic(a.raw * ONE, b.raw * ONE, d.raw as int);
    let n = d.raw * ONE;
    assert(n >= 0 && n / (d.raw as int) == ONE) by (nonlinear_arith)
        requires
            n == d.raw * ONE,
            0 < d.raw,
            ONE == 510_000_000,
    ;
    assert(0int / (d.raw as int) == 0) by (nonlinear_arith)
        requires
            0 < d.raw,
    ;
}

proof fn lemma_root_exists(n: int)
    requires
        0 <= n,
    ensures
        is_root(n, whole_root(n)),
    decreases n,
{
    if n == 0 {
        assert(is_root(0, 0));
    } else {
        lemma_root_exists(n - 1);
        let r = whole_root(n - 1);
        if n < (r + 1) * (r + 1) {
            assert(is_root(n, r));
        } else {
            assert(n == (r + 1) * (r + 1));
            assert((r + 1) * (r + 1) < (r + 1 + 1) * (r + 1 + 1)) by (nonlinear_arith)
                requires
                    0 <= r,
            ;
            assert(is_root(n, r + 1));
        }
    }
}

/// Square roots grow with their squares.
pub proof fn lemma_root_monotonic(a: Fixed, b: Fixed)
    requires
        a.raw <= b.raw,
    ensures
        0 <= a.root_spec().raw <= b.root_spec().raw,
{
    if a.raw >= 0 {
        lemma_root_exists(a.raw * ONE);
    }
    if b.raw >= 0 {
        lemma_root_exists(b.raw * ONE);
        let s = whole_root(b.raw * ONE);
        assert(s < 0x1_0000_0000_0000) by (nonlinear_arith)
            requires
                0 <= s,
                s * s <= b.raw * 510_000_000,
                b.raw <= 0x7fff_ffff_ffff_ffff,
        ;
        if a.raw >= 0 {
            let r = whole_root(a.raw * ONE);
            assert(r <= s) by (nonlinear_arith)
                requires
                    0 <= r,
                    0 <= s,
                    r * r <= a.raw * 510_000_000,
                    b.raw * 510_000_000 < (s + 1) * (s + 1),
                    a.raw <= b.raw,
            ;
        }
    }
}

/// The nearest whole numbers keep the order.
pub proof fn lemma_rounded_monotonic(a: Fixed, b: Fixed)
    requires
        a.raw <= b.raw,
    ensures
        a.rounded_spec() <= b.rounded_spec(),
{
    if a.raw < 0 && b.raw >= 0 {
        lemma_divide_monotonic(a.raw - ONE / 2, b.raw + ONE / 2, ONE as int);
    } else if a.raw < 0 {
        lemma_divide_monotonic(a.raw - ONE / 2, b.raw - ONE / 2, ONE as int);
    } else {
        lemma_divide_monotonic(a.raw + ONE / 2, b.raw + ONE / 2, ONE as int);
    }
}

/// Numbers without their fractions keep the order.
pub proof fn lemma_truncated_monotonic(a: Fixed, b: Fixed)
    requires
        a.raw <= b.raw,
    ensures
        a.truncated_spec() <= b.truncated_spec(),
{
    lemma_divide_monotonic(a.raw as int, b.raw as int, ONE as int);
}

/// A whole number of the grid is kept as it is.
pub proof fn lemma_small_whole(n: nat)
    requires
        n <= 0x1_0000,
    ensures
        Fixed::whole_spec(n).raw == n * ONE,
        Fixed::whole_spec(n).truncated_spec() == n,
{
    assert(n * 510_000_000 / 510_000_000 == n);
}

/// A number whose square is not above `square` is not above its root.
pub proof fn lemma_root_at_least(square: Fixed, x: Fixed)
    requires
        0 <= square.raw,
        0 <= x.raw,
        x.raw * x.raw <= square.raw * ONE,
    ensures
        x.raw <= square.root_spec().raw,
{
    let n = square.raw * ONE;
    lemma_root_exists(n);
    lemma_root_monotonic(square, square);
    let r = whole_root(n);
    assert(r < 0x1_0000_0000_0000) by (nonlinear_arith)
        requires
            0 <= r,
            r * r <= square.raw * 510_000_000,
            square.raw <= 0x7fff_ffff_ffff_ffff,
    ;
    assert(x.raw <= r) by (nonlinear_arith)
        requires
            0 <= r,
            x.raw * x.raw <= n,
            n < (r + 1) * (r + 1),
            0 <= x.raw,
    ;
}

/// The fixed-point numbers between 0 and 1 add, multiply and compare as they should.
pub proof fn lemma_unit_exact()
    ensures
        scalar::unit_exact::<Fixed>(),
{
    let zero = Fixed::whole_spec(0);
    let one = Fixed::whole_spec(1);
    lemma_root_of_one();
    lemma_times_one(one);
    lemma_times_zero(zero);
    assert forall|a: Fixed| #[trigger] scalar::unit_number(a) by {
        if scalar::in_unit(a) {
            let rest = one.minus_spec(a);
            lemma_times_zero(a);
            lemma_times_zero(rest);
            lemma_times_one(a);
            lemma_times_one(rest);
            lemma_root_monotonic(a, one);
            assert(a.raw * a.raw <= a.raw * ONE) by (nonlinear_arith)
                requires
                    0 <= a.raw <= ONE,
            ;
            lemma_root_at_least(a, a);
        }
    }
    assert forall|a: Fixed, b: Fixed| #[trigger] scalar::unit_numbers(a, b) by {
        if scalar::in_unit(a) && scalar::in_unit(b) {
            lemma_times_monotonic(b, one, a);
            lemma_times_monotonic(a, one, b);
            lemma_times_one(a);
            lemma_times_one(b);
            lemma_times_zero(a);
            lemma_times_zero(b);
            lemma_times_monotonic(a, a, b);
            if a.at_most_spec(b) {
                lemma_root_monotonic(a, b);
            }
        }
    }
    assert forall|a: Fixed, b: Fixed, x: Fixed| #[trigger] scalar::unit_products(a, b, x) by {
        if scalar::in_unit(x) && a.at_most_spec(b) {
            lemma_times_monotonic(a, b, x);
        }
    }
    assert forall|a: Fixed, b: Fixed, x: Fixed, y: Fixed, c: Fixed| #[trigger]
        scalar::unit_means(a, b, x, y, c) by {
        if scalar::in_unit(a) && scalar::in_unit(b) && scalar::in_unit(x) && scalar::in_unit(y)
            && scalar::in_unit(c) && a.at_most_spec(b) && x.at_most_spec(y) {
            let rest = one.minus_spec(c);
            lemma_times_one(rest);
            lemma_times_one(c);
            lemma_times_monotonic(a, b, rest);
            lemma_times_monotonic(b, one, rest);
            lemma_times_monotonic(a, a, rest);
            lemma_times_monotonic(x, y, c);
            lemma_times_monotonic(y, one, c);
            lemma_times_monotonic(x, x, c);
        }
    }
}

/// The fixed-point numbers are strictly ordered.
pub proof fn lemma_strictly_ordered()
    ensures
        scalar::strictly_ordered::<Fixed>(),
{
}

/// A quotient stays the same when both its numbers are doubled.
pub proof fn lemma_over_doubled(a: Fixed, twice_a: Fixed, d: Fixed, twice_d: Fixed)
    requires
        twice_a.raw == 2 * a.raw,
        twice_d.raw == 2 * d.raw,
        0 < d.raw,
    ensures
        twice_a.over_spec(twice_d) == a.over_spec(d),
{
    let n = a.raw * ONE;
    assert(twice_a.raw * ONE == 2 * n);
    if n >= 0 {
        lemma_doubled_quotient(n, d.raw as int);
    } else {
        lemma_doubled_quotient(-n, d.raw as int);
    }
}

proof fn lemma_doubled_quotient(n: int, d: int)
    requires
        0 <= n,
        0 < d,
    ensures
        (2 * n) / (2 * d) == n / d,
{
    let q = n / d;
    let r = n % d;
    vstd::arithmetic::div_mod::lemma_fundamental_div_mod(n, d);
    vstd::arithmetic::div_mod::lemma_mod_bound(n, d);
    assert(2 * n == q * (2 * d) + 2 * r) by (nonlinear_arith)
        requires
            n == d * q + r,
    ;
    vstd::arithmetic::div_mod::lemma_fundamental_div_mod_converse(2 * n, 2 * d, q, 2 * r);
}

/// `a` and `b` differ by less than `tolerance`.
pub open spec fn differ_less(a: int, b: int, tolerance: int) -> bool {
    -tolerance < a - b < tolerance
}

/// `n` steps are within the range of a number, as are `-n` steps.
pub open spec fn in_bounds(n: int) -> bool {
    -i64::MAX <= n <= i64::MAX
}

proof fn lemma_toward_zero(n: int, d: int)
    requires
        d > 0,
    ensures
        differ_less(d * toward_zero(n, d), n, d),
        n >= 0 ==> 0 <= d * toward_zero(n, d) <= n,
        n <= 0 ==> n <= d * toward_zero(n, d) <= 0,
{
    if n >= 0 {
        vstd::arithmetic::div_mod::lemma_fundamental_div_mod(n, d);
        vstd::arithmetic::div_mod::lemma_mod_bound(n, d);
        assert(d * (n / d) >= 0) by (nonlinear_arith)
            requires
                n >= 0,
                d > 0,
        ;
    } else {
        let m = -n;
        vstd::arithmetic::div_mod::lemma_fundamental_div_mod(m, d);
        vstd::arithmetic::div_mod::lemma_mod_bound(m, d);
        assert(d * (m / d) >= 0 && d * (-(m / d)) == -(d * (m / d))) by (nonlinear_arith)
            requires
                m >= 0,
                d > 0,
        ;
    }
}

/// A product is the true one, cut to whole steps toward zero, where that is within the range.
pub proof fn lemma_times_near(x: Fixed, y: Fixed)
    requires
        -(i64::MAX * ONE) <= x.raw * y.raw <= i64::MAX * ONE,
    ensures
        differ_less(ONE * x.times_spec(y).raw, x.raw * y.raw, ONE as int),
        x.raw * y.raw >= 0 ==> 0 <= ONE * x.times_spec(y).raw <= x.raw * y.raw,
        x.raw * y.raw <= 0 ==> x.raw * y.raw <= ONE * x.times_spec(y).raw <= 0,
        x.times_spec(y).raw == toward_zero(x.raw * y.raw, ONE as int),
{
    let n = x.raw * y.raw;
    lemma_toward_zero(n, ONE as int);
    let q = toward_zero(n, ONE as int);
    assert(-i64::MAX <= q <= i64::MAX);
}

/// A quotient by a positive number is the true one, cut to whole steps toward zero, where that is
/// within the range.
pub proof fn lemma_over_near(x: Fixed, d: Fixed)
    requires
        0 < d.raw,
        -(i64::MAX * d.raw) <= x.raw * ONE <= i64::MAX * d.raw,
    ensures
        differ_less(d.raw * x.over_spec(d).raw, x.raw * ONE, d.raw as int),
        x.raw >= 0 ==> 0 <= d.raw * x.over_spec(d).raw <= x.raw * ONE,
        x.raw <= 0 ==> x.raw * ONE <= d.raw * x.over_spec(d).raw <= 0,
        x.over_spec(d).raw == toward_zero(x.raw * ONE, d.raw as int),
{
    let n = x.raw * ONE;
    let w = d.raw as int;
    lemma_toward_zero(n, w);
    let q = toward_zero(n, w);
    assert(-i64::MAX <= q <= i64::MAX) by (nonlinear_arith)
        requires
            0 < w,
            -(i64::MAX * w) <= n <= i64::MAX * w,
            n >= 0 ==> 0 <= w * q <= n,
            n <= 0 ==> n <= w * q <= 0,
    ;
}

/// A square root is the greatest number of steps whose square is not above the number.
pub proof fn lemma_root_near(x: Fixed)
    requires
        0 <= x.raw,
    ensures
        0 <= x.root_spec().raw,
        x.root_spec().raw * x.root_spec().raw <= x.raw * ONE,
        x.raw * ONE < (x.root_spec().raw + 1) * (x.root_spec().raw + 1),
{
    let n = x.raw * ONE;
    lemma_root_exists(n);
    let r = whole_root(n);
    assert(r < 0x1_0000_0000_0000) by (nonlinear_arith)
        requires
            0 <= r,
            r * r <= x.raw * 510_000_000,
            x.raw <= 0x7fff_ffff_ffff_ffff,
    ;
}

/// A number without its fraction is the greatest whole number not above it, for numbers that are
/// not negative, and the least not below it for the others.
pub proof fn lemma_truncated_near(x: Fixed)
    requires
        isize::MIN <= toward_zero(x.raw as int, ONE as int) <= isize::MAX,
    ensures
        differ_less(ONE * x.truncated_spec(), x.raw as int, ONE as int),
        x.raw >= 0 ==> 0 <= ONE * x.truncated_spec() <= x.raw,
        x.raw <= 0 ==> x.raw <= ONE * x.truncated_spec() <= 0,
{
    lemma_toward_zero(x.raw as int, ONE as int);
}

/// A rounded number lies no farther than one half from the number.
pub proof fn lemma_rounded_near(x: Fixed)
    requires
        -0x4000_0000 * ONE <= x.raw <= 0x4000_0000 * ONE,
    ensures
        -ONE <= 2 * (ONE * x.rounded_spec() - x.raw) <= ONE,
        x.raw >= 0 ==> x.rounded_spec() >= 0,
        x.raw <= 0 ==> x.rounded_spec() <= 0,
{
    lemma_toward_zero(x.raw + ONE / 2, ONE as int);
    lemma_toward_zero(x.raw - ONE / 2, ONE as int);
}

/// Half of a number, cut to whole steps toward zero.
pub proof fn lemma_half(x: Fixed)
    ensures
        x.over_spec(Fixed::whole_spec(2)).raw == toward_zero(x.raw as int, 2),
        x.times_spec(Fixed::whole_spec(1).over_spec(Fixed::whole_spec(2))).raw == toward_zero(
            x.raw as int,
            2,
        ),
        Fixed::whole_spec(1).over_spec(Fixed::whole_spec(2)).times_spec(x).raw == toward_zero(
            x.raw as int,
            2,
        ),
{
    let half = Fixed::whole_spec(1).over_spec(Fixed::whole_spec(2));
    assert(half.raw == 255_000_000);
    let a = x.raw * half.raw;
    let b = half.raw * x.raw;
    assert(a == x.raw * 255_000_000 && b == a) by (nonlinear_arith)
        requires
            a == x.raw * half.raw,
            b == half.raw * x.raw,
            half.raw == 255_000_000,
    ;
}

/// A square of a number of at most ten thousand.
pub proof fn lemma_square_near(x: Fixed)
    requires
        -10_000 * ONE <= x.raw <= 10_000 * ONE,
    ensures
        0 <= x.raw * x.raw - ONE * x.times_spec(x).raw < ONE,
        0 <= x.times_spec(x).raw <= 100_000_000 * ONE,
{
    let n = x.raw * x.raw;
    assert(0 <= n <= 10_000 * 510_000_000 * (10_000 * 510_000_000)) by (nonlinear_arith)
        requires
            n == x.raw * x.raw,
            -10_000 * 510_000_000 <= x.raw <= 10_000 * 510_000_000,
    ;
    lemma_times_near(x, x);
}

/// A whole number, with its sign, is as many times one.
pub proof fn lemma_signed_whole(n: int)
    requires
        -1_000_000_000 <= n <= 1_000_000_000,
    ensures
        scalar::signed_spec::<Fixed>(n).raw == n * ONE,
{
}

/// A ratio of whole numbers is the true one, cut to whole steps.
pub proof fn lemma_ratio_near(n: nat, d: nat)
    requires
        n <= 1_000_000,
        1 <= d <= 1_000_000,
    ensures
        0 <= n * ONE - d * scalar::ratio_spec::<Fixed>(n, d).raw < d,
{
    let a = Fixed::whole_spec(n);
    let b = Fixed::whole_spec(d);
    lemma_over_near(a, b);
    let q = scalar::ratio_spec::<Fixed>(n, d).raw as int;
    let w = d * q;
    assert(b.raw * q == 510_000_000 * w) by (nonlinear_arith)
        requires
            b.raw == d * 510_000_000,
            w == d * q,
    ;
}

/// A clamped number is the nearest one of its range, and one that is kept above a floor the greater
/// of the two.
pub proof fn lemma_clamped_nearest(x: Fixed, low: Fixed, high: Fixed)
    requires
        low.raw <= high.raw,
    ensures
        x.raw < low.raw ==> scalar::clamped_spec(x, low, high) == low,
        x.raw > high.raw ==> scalar::clamped_spec(x, low, high) == high,
        low.raw <= x.raw <= high.raw ==> scalar::clamped_spec(x, low, high) == x,
        x.raw >= low.raw ==> scalar::at_least_spec(x, low) == x,
        x.raw <= low.raw ==> scalar::at_least_spec(x, low) == low,
{
}

} // verus!
