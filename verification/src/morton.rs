//! The Morton order of the cells.
use vstd::prelude::*;

verus! {

/// The place of column `i` and row `j` in Morton order: the binary digits of `i` and `j`
/// interleaved, those of `i` first.
pub open spec fn morton(i: nat, j: nat) -> nat
    decreases i + j,
{
    if i == 0 && j == 0 {
        0
    } else {
        i % 2 + 2 * (j % 2) + 4 * morton(i / 2, j / 2)
    }
}

/// The column at place `k` of the Morton order.
pub open spec fn column(k: nat) -> nat
    decreases k,
{
    if k == 0 {
        0
    } else {
        k % 2 + 2 * column(k / 4)
    }
}

/// The row at place `k` of the Morton order.
pub open spec fn row(k: nat) -> nat
    decreases k,
{
    if k == 0 {
        0
    } else {
        (k / 2) % 2 + 2 * row(k / 4)
    }
}

/// Two to the power `e`.
pub open spec fn span(e: nat) -> nat
    decreases e,
{
    if e == 0 {
        1
    } else {
        2 * span((e - 1) as nat)
    }
}

proof fn lemma_digits(x: nat, y: nat, m: nat)
    requires
        x < 2,
        y < 2,
    ensures
        (x + 2 * y + 4 * m) / 4 == m,
        (x + 2 * y + 4 * m) % 2 == x,
        ((x + 2 * y + 4 * m) / 2) % 2 == y,
{
}

/// Every column and row has a place of its own: the place tells the column and the row.
pub proof fn lemma_decode_of_encode(i: nat, j: nat)
    ensures
        column(morton(i, j)) == i,
        row(morton(i, j)) == j,
    decreases i + j,
{
    if i != 0 || j != 0 {
        lemma_decode_of_encode(i / 2, j / 2);
        lemma_digits(i % 2, j % 2, morton(i / 2, j / 2));
    }
}

proof fn lemma_split(k: nat)
    ensures
        k == k % 2 + 2 * ((k / 2) % 2) + 4 * (k / 4),
        k % 2 < 2,
        (k / 2) % 2 < 2,
{
}

proof fn lemma_halves(digit: nat, rest: nat)
    requires
        digit < 2,
    ensures
        (digit + 2 * rest) % 2 == digit,
        (digit + 2 * rest) / 2 == rest,
{
}

/// Every place holds a column and a row: their place is that place.
pub proof fn lemma_encode_of_decode(k: nat)
    ensures
        morton(column(k), row(k)) == k,
    decreases k,
{
    if k != 0 {
        let m = k / 4;
        lemma_encode_of_decode(m);
        lemma_split(k);
        lemma_halves(k % 2, column(m));
        lemma_halves((k / 2) % 2, row(m));
        lemma_morton_step(k % 2, (k / 2) % 2, column(m), row(m));
    }
}

proof fn lemma_morton_step(a: nat, b: nat, c: nat, r: nat)
    requires
        a < 2,
        b < 2,
    ensures
        morton(a + 2 * c, b + 2 * r) == a + 2 * b + 4 * morton(c, r),
{
    lemma_halves(a, c);
    lemma_halves(b, r);
    if a + 2 * c == 0 && b + 2 * r == 0 {
        assert(morton(0, 0) == 0);
    }
}

/// A square of `2^e` columns and `2^e` rows fills the first `2^e * 2^e` places.
pub proof fn lemma_square_fills_places(i: nat, j: nat, e: nat)
    ensures
        (i < span(e) && j < span(e)) <==> morton(i, j) < span(e) * span(e),
    decreases e,
{
    if e == 0 {
        assert(span(0) * span(0) == 1) by (nonlinear_arith)
            requires
                span(0) == 1,
        ;
        lemma_decode_of_encode(i, j);
    } else {
        let s = span((e - 1) as nat);
        lemma_square_fills_places(i / 2, j / 2, (e - 1) as nat);
        assert(span(e) * span(e) == 4 * (s * s)) by (nonlinear_arith)
            requires
                span(e) == 2 * s,
        ;
        let m = morton(i / 2, j / 2);
        assert(morton(i, j) == i % 2 + 2 * (j % 2) + 4 * m);
        if i == 0 && j == 0 {
            assert(morton(0, 0) == 0);
        }
        assert(m < s * s <==> morton(i, j) < 4 * (s * s));
        assert(i < 2 * s <==> i / 2 < s);
        assert(j < 2 * s <==> j / 2 < s);
    }
}

/// The place of column `i` and row `j`.
pub fn encode(i: usize, j: usize) -> (k: usize)
    requires
        i < 0x1_0000,
        j < 0x1_0000,
    ensures
        k == morton(i as nat, j as nat),
{
    let mut a: u64 = i as u64;
    let mut b: u64 = j as u64;
    let mut weight: u64 = 1;
    let mut sum: u64 = 0;
    proof {
        lemma_span_16();
        lemma_square_fills_places(i as nat, j as nat, 16);
    }
    while a != 0 || b != 0
        invariant
            i < 0x1_0000,
            j < 0x1_0000,
            sum + weight * morton(a as nat, b as nat) == morton(i as nat, j as nat),
            morton(i as nat, j as nat) < 0x1_0000_0000,
            weight >= 1,
        decreases a + b,
    {
        let ghost m = morton((a / 2) as nat, (b / 2) as nat);
        let digits: u64 = a % 2 + 2 * (b % 2);
        proof {
            assert(morton(a as nat, b as nat) == digits + 4 * m);
            assert(weight * (digits + 4 * m) == weight * digits + (weight * 4) * m)
                by (nonlinear_arith);
            assert(morton(a as nat, b as nat) >= 1) by {
                lemma_decode_of_encode(a as nat, b as nat);
            }
            assert(weight * morton(a as nat, b as nat) >= weight) by (nonlinear_arith)
                requires
                    weight >= 1,
                    morton(a as nat, b as nat) >= 1,
            ;
            assert((weight * 4) * m >= 0) by (nonlinear_arith)
                requires
                    weight >= 1,
                    m >= 0,
            ;
            assert(weight * digits >= 0);
        }
        sum = sum + weight * digits;
        weight = weight * 4;
        a = a / 2;
        b = b / 2;
    }
    assert(weight * morton(0, 0) == 0) by (nonlinear_arith)
        requires
            morton(0, 0) == 0,
    ;
    sum as usize
}

/// The column and the row at place `k`.
pub fn decode(k: usize) -> (r: (usize, usize))
    requires
        k < 0x1000_0000,
    ensures
        r.0 == column(k as nat),
        r.1 == row(k as nat),
        morton(r.0 as nat, r.1 as nat) == k,
{
    let mut rest: u32 = k as u32;
    let mut weight: u32 = 1;
    let mut i: u32 = 0;
    let mut j: u32 = 0;
    while rest != 0
        invariant
            k < 0x1000_0000,
            i + weight * column(rest as nat) == column(k as nat),
            j + weight * row(rest as nat) == row(k as nat),
            weight * rest <= k,
            weight >= 1,
            i < weight,
            j < weight,
        decreases rest,
    {
        let ghost c = column((rest / 4) as nat);
        let ghost r = row((rest / 4) as nat);
        proof {
            assert(weight <= weight * rest) by (nonlinear_arith)
                requires
                    rest >= 1,
                    weight >= 1,
            ;
            assert(weight * (rest % 2 + 2 * c) == weight * (rest % 2) + (weight * 2) * c)
                by (nonlinear_arith);
            assert(weight * ((rest / 2) % 2 + 2 * r) == weight * ((rest / 2) % 2) + (weight * 2)
                * r) by (nonlinear_arith);
            assert(weight * (rest % 2) <= weight) by (nonlinear_arith)
                requires
                    rest % 2 <= 1,
                    weight >= 1,
            ;
            assert(weight * ((rest / 2) % 2) <= weight) by (nonlinear_arith)
                requires
                    (rest / 2) % 2 <= 1,
                    weight >= 1,
            ;
            assert((weight * 2) * (rest / 4) <= weight * rest) by (nonlinear_arith)
                requires
                    weight >= 1,
                    2 * (rest / 4) <= rest,
            ;
        }
        i = i + weight * (rest % 2);
        j = j + weight * ((rest / 2) % 2);
        weight = weight * 2;
        rest = rest / 4;
    }
    proof {
        assert(weight * column(0) == 0) by (nonlinear_arith)
            requires
                column(0) == 0,
        ;
        assert(weight * row(0) == 0) by (nonlinear_arith)
            requires
                row(0) == 0,
        ;
        lemma_encode_of_decode(k as nat);
    }
    (i as usize, j as usize)
}

proof fn lemma_span_16()
    ensures
        span(16) == 0x1_0000,
{
    reveal_with_fuel(span, 17);
}

/// One more binary digit of a column and of a row makes two more of the place.
pub proof fn lemma_next_digits(i: nat, j: nat, a: nat, b: nat)
    requires
        a < 2,
        b < 2,
    ensures
        morton(2 * i + a, 2 * j + b) == 4 * morton(i, j) + 2 * b + a,
        morton(0, 0) == 0,
{
    lemma_morton_step(a, b, i, j);
}

} // verus!
