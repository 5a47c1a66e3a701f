//! Drawing walls with the mouse.
use vstd::prelude::*;
use crate::conditions::{CELLS, N};
use crate::grid;
use crate::grid::Grid;
use crate::scalar::Scalar;
use crate::topology;

verus! {

/// `x` squared.
pub open spec fn square(x: int) -> int {
    x * x
}

/// The cells between the borders of the grid that a pen of the size `pen_size` covers when it
/// stands on column `cx` and row `cy`.
pub open spec fn pen_shape(cx: int, cy: int, pen_size: int) -> spec_fn(int, int) -> bool {
    |i: int, j: int|
        {
            let r = pen_size / 2;
            &&& 1 <= i <= N && 1 <= j <= N
            &&& -r <= i - cx <= r && -r <= j - cy <= r
            &&& square(i - cx) + square(j - cy) <= square(r) + 1
        }
}

/// The distances under a pen of the size `pen_size`, and the columns and rows that it reaches
/// from `cx` and `cy`, are no greater than an `isize` can be.
pub open spec fn pen_fits(cx: int, cy: int, pen_size: int) -> bool {
    let r = pen_size / 2;
    2 * square(r) <= isize::MAX && cx + r <= isize::MAX && cy + r <= isize::MAX
}

/// Whether the distances under a pen of the size `pen_size`, and the columns and rows that it
/// reaches from `cx` and `cy`, are no greater than an `isize` can be.
pub fn check_pen(cx: usize, cy: usize, pen_size: usize) -> (ok: bool)
    ensures
        ok == pen_fits(cx as int, cy as int, pen_size as int),
{
    let r: u128 = (pen_size / 2) as u128;
    let limit: u128 = isize::MAX as u128;
    assert(r * r <= 0x4000_0000_0000_0000_0000_0000_0000_0000) by (nonlinear_arith)
        requires
            r <= 0x8000_0000_0000_0000,
    ;
    2 * (r * r) <= limit && cx as u128 + r <= limit && cy as u128 + r <= limit
}

proof fn lemma_square_bound(x: int, r: int)
    requires
        -r <= x <= r,
    ensures
        0 <= square(x) <= square(r),
        r <= square(r),
{
    assert(0 <= x * x <= r * r && r <= r * r) by (nonlinear_arith)
        requires
            -r <= x <= r,
    ;
}

/// A pen of the size 1 covers one cell.
pub proof fn lemma_smallest_pen(cx: int, cy: int, i: int, j: int)
    ensures
        pen_shape(cx, cy, 1)(i, j) <==> topology::inside(i, j) && i == cx && j == cy,
{
}

/// A pen covers the cell that it stands on, if that lies between the borders.
pub proof fn lemma_pen_covers_its_cell(cx: int, cy: int, pen_size: int)
    requires
        topology::inside(cx, cy),
        0 <= pen_size,
    ensures
        pen_shape(cx, cy, pen_size)(cx, cy),
{
    let r = pen_size / 2;
    assert(square(r) >= 0) by (nonlinear_arith);
}

/// Makes walls of the cells under a pen of the size `pen_size` on column `cx` and row `cy`. A
/// pen of the size 1 covers one cell.
pub fn stamp_wall<S: Scalar>(grid: &mut Grid<S>, cx: usize, cy: usize, pen_size: usize)
    requires
        old(grid).wf(),
        pen_fits(cx as int, cy as int, pen_size as int),
    ensures
        final(grid).wf(),
        grid::stamped(*old(grid), *final(grid), pen_shape(cx as int, cy as int, pen_size as int)),
{
    let ghost shape = pen_shape(cx as int, cy as int, pen_size as int);
    let ghost r = pen_size as int / 2;
    proof {
        lemma_square_bound(r, r);
    }
    let reach: isize = (pen_size / 2) as isize;
    let cxi: isize = cx as isize;
    let cyi: isize = cy as isize;
    let mut dy: isize = -reach;
    proof {
        grid::lemma_stamped_nothing(*grid, |i: int, j: int| shape(i, j) && j - cy < dy);
    }
    while dy <= reach
        invariant
            old(grid).wf(),
            grid.wf(),
            pen_fits(cx as int, cy as int, pen_size as int),
            shape == pen_shape(cx as int, cy as int, pen_size as int),
            r == pen_size as int / 2,
            reach == r,
            r <= square(r),
            cxi == cx,
            cyi == cy,
            -reach <= dy <= reach + 1,
            grid::stamped(*old(grid), *grid, |i: int, j: int| shape(i, j) && j - cy < dy),
        decreases reach + 1 - dy,
    {
        let mut dx: isize = -reach;
        proof {
            grid::lemma_stamped_same_shape(
                *old(grid),
                *grid,
                |i: int, j: int| shape(i, j) && j - cy < dy,
                |i: int, j: int| shape(i, j) && (j - cy < dy || (j - cy == dy && i - cx < dx)),
            );
        }
        while dx <= reach
            invariant
                old(grid).wf(),
                grid.wf(),
                pen_fits(cx as int, cy as int, pen_size as int),
                shape == pen_shape(cx as int, cy as int, pen_size as int),
                r == pen_size as int / 2,
                reach == r,
                r <= square(r),
                cxi == cx,
                cyi == cy,
                -reach <= dy <= reach,
                -reach <= dx <= reach + 1,
                grid::stamped(
                    *old(grid),
                    *grid,
                    |i: int, j: int| shape(i, j) && (j - cy < dy || (j - cy == dy && i - cx < dx)),
                ),
            decreases reach + 1 - dx,
        {
            let ghost before = *grid;
            proof {
                lemma_square_bound(dx as int, r);
                lemma_square_bound(dy as int, r);
            }
            let x: isize = cxi + dx;
            let y: isize = cyi + dy;
            if dx * dx + dy * dy <= reach * reach + 1 && x >= 1 && x <= N as isize && y >= 1 && y
                <= N as isize {
                grid.wall_init(y as usize, x as usize, true);
                proof {
                    assert(shape(x as int, y as int));
                    grid::lemma_stamped_twice(
                        *old(grid),
                        before,
                        *grid,
                        |i: int, j: int|
                            shape(i, j) && (j - cy < dy || (j - cy == dy && i - cx < dx)),
                        |i: int, j: int| i == x as usize && j == y as usize,
                        |i: int, j: int|
                            shape(i, j) && (j - cy < dy || (j - cy == dy && i - cx < dx + 1)),
                    );
                }
            } else {
                proof {
                    assert(!shape(x as int, y as int));
                    grid::lemma_stamped_same_shape(
                        *old(grid),
                        *grid,
                        |i: int, j: int|
                            shape(i, j) && (j - cy < dy || (j - cy == dy && i - cx < dx)),
                        |i: int, j: int|
                            shape(i, j) && (j - cy < dy || (j - cy == dy && i - cx < dx + 1)),
                    );
                }
            }
            dx = dx + 1;
        }
        proof {
            grid::lemma_stamped_same_shape(
                *old(grid),
                *grid,
                |i: int, j: int| shape(i, j) && (j - cy < dy || (j - cy == dy && i - cx < dx)),
                |i: int, j: int| shape(i, j) && j - cy < dy + 1,
            );
        }
        dy = dy + 1;
    }
    proof {
        grid::lemma_stamped_same_shape(
            *old(grid),
            *grid,
            |i: int, j: int| shape(i, j) && j - cy < dy,
            shape,
        );
    }
}

/// `n / d` rounded to the nearest whole number, a half downwards.
pub open spec fn rounded_down(n: int, d: int) -> int {
    (2 * n + d - 1) / (2 * d)
}

/// The distance between `a` and `b`.
pub open spec fn distance(a: int, b: int) -> int {
    if a < b {
        b - a
    } else {
        a - b
    }
}

/// The step that leads from `a` towards `b`.
pub open spec fn toward(a: int, b: int) -> int {
    if a < b {
        1
    } else {
        -1
    }
}

/// The number of steps of a line that spans `dx` columns and `dy` rows.
pub open spec fn line_steps(dx: int, dy: int) -> int {
    if dx >= dy {
        dx
    } else {
        dy
    }
}

/// The point of the line from (`x0`, `y0`) to (`x1`, `y1`) after `k` steps: one step goes one
/// column on in a flat line and one row on in a steep one, and the other coordinate is the one
/// nearest to the straight line.
pub open spec fn line_point(x0: int, y0: int, x1: int, y1: int, k: int) -> (int, int) {
    let dx = distance(x0, x1);
    let dy = distance(y0, y1);
    if dx >= dy {
        (
            x0 + toward(x0, x1) * k,
            y0 + toward(y0, y1) * if dx == 0 {
                0
            } else {
                rounded_down(dy * k, dx)
            },
        )
    } else {
        (x0 + toward(x0, x1) * rounded_down(dx * k, dy), y0 + toward(y0, y1) * k)
    }
}

/// `points` are the points of the line from (`x0`, `y0`) to (`x1`, `y1`), in order.
pub open spec fn is_line(
    points: Seq<(usize, usize)>,
    x0: int,
    y0: int,
    x1: int,
    y1: int,
) -> bool {
    &&& points.len() == line_steps(distance(x0, x1), distance(y0, y1)) + 1
    &&& forall|k: int|
        0 <= k < points.len() ==> {
            &&& (#[trigger] points[k]).0 == line_point(x0, y0, x1, y1, k).0
            &&& points[k].1 == line_point(x0, y0, x1, y1, k).1
        }
}

/// After `a` steps over `m`, `b` is the number of steps over `n` that is nearest.
spec fn nearest(m: int, n: int, a: int, b: int) -> bool {
    m * (2 * b - 1) < 2 * n * a <= m * (2 * b + 1)
}

proof fn lemma_nearest_is_rounded(m: int, n: int, a: int, b: int)
    requires
        m > 0,
        nearest(m, n, a, b),
    ensures
        rounded_down(n * a, m) == b,
{
    let v = 2 * (n * a) + m - 1;
    let r = v - 2 * m * b;
    assert(2 * n * a == 2 * (n * a)) by (nonlinear_arith);
    assert(m * (2 * b - 1) == 2 * m * b - m) by (nonlinear_arith);
    assert(m * (2 * b + 1) == 2 * m * b + m) by (nonlinear_arith);
    assert(0 <= r < 2 * m);
    assert(v == b * (2 * m) + r) by (nonlinear_arith)
        requires
            r == v - 2 * m * b,
    ;
    vstd::arithmetic::div_mod::lemma_fundamental_div_mod_converse(v, 2 * m, b, r);
}

/// One step over `m` goes on by one, and one over `n` exactly if that is then nearer.
proof fn lemma_line_step(m: int, n: int, a: int, b: int)
    requires
        0 <= n <= m,
        0 < m,
        0 <= a < m,
        0 <= b,
        nearest(m, n, a, b),
    ensures
        2 * (m * (b + 1) - n * (a + 1)) > -n,
        2 * (m * (b + 1) - n * (a + 1)) < m ==> nearest(m, n, a + 1, b + 1) && b + 1 <= n,
        2 * (m * (b + 1) - n * (a + 1)) >= m ==> nearest(m, n, a + 1, b) && b <= n,
        -2 * m <= 2 * (m * (b + 1) - n * (a + 1)) <= 4 * m,
{
    let p = n * a;
    let q = m * b;
    assert(m * (2 * b - 1) == 2 * q - m) by (nonlinear_arith)
        requires
            q == m * b,
    ;
    assert(m * (2 * b + 1) == 2 * q + m) by (nonlinear_arith)
        requires
            q == m * b,
    ;
    assert(m * (2 * (b + 1) - 1) == 2 * q + m) by (nonlinear_arith)
        requires
            q == m * b,
    ;
    assert(m * (2 * (b + 1) + 1) == 2 * q + 3 * m) by (nonlinear_arith)
        requires
            q == m * b,
    ;
    assert(2 * n * a == 2 * p) by (nonlinear_arith)
        requires
            p == n * a,
    ;
    assert(2 * n * (a + 1) == 2 * p + 2 * n) by (nonlinear_arith)
        requires
            p == n * a,
    ;
    assert(m * (b + 1) == q + m) by (nonlinear_arith)
        requires
            q == m * b,
    ;
    assert(n * (a + 1) == p + n) by (nonlinear_arith)
        requires
            p == n * a,
    ;
    if n == m {
        assert(a == b) by (nonlinear_arith)
            requires
                m > 0,
                2 * (m * b) - m < 2 * (m * a) <= 2 * (m * b) + m,
        ;
        assert(p == q);
    }
    assert(n * (a + 1) <= n * m) by (nonlinear_arith)
        requires
            0 <= n,
            a + 1 <= m,
    ;
    if 2 * (m * (b + 1) - n * (a + 1)) < m {
        assert(b + 1 <= n) by (nonlinear_arith)
            requires
                m > 0,
                2 * (m * b) + m < 2 * (n * (a + 1)),
                n * (a + 1) <= n * m,
        ;
    } else {
        assert(b <= n) by (nonlinear_arith)
            requires
                m > 0,
                2 * (m * b) - m < 2 * (n * (a + 1)),
                n * (a + 1) <= n * m,
        ;
    }
}

proof fn lemma_line_end(m: int, n: int, b: int)
    requires
        m > 0,
        nearest(m, n, m, b),
    ensures
        b == n,
{
    assert(b == n) by (nonlinear_arith)
        requires
            m > 0,
            m * (2 * b - 1) < 2 * n * m <= m * (2 * b + 1),
    ;
}

/// The points of the line from (`x0`, `y0`) to (`x1`, `y1`), by Bresenham's method.
pub fn bresenham_line(x0: usize, y0: usize, x1: usize, y1: usize) -> (points: Vec<(usize, usize)>)
    requires
        x0 <= isize::MAX,
        y0 <= isize::MAX,
        x1 <= isize::MAX,
        y1 <= isize::MAX,
    ensures
        is_line(points@, x0 as int, y0 as int, x1 as int, y1 as int),
{
    let mut points: Vec<(usize, usize)> = Vec::new();
    let dx: i128 = if x0 < x1 {
        x1 as i128 - x0 as i128
    } else {
        x0 as i128 - x1 as i128
    };
    let dy: i128 = if y0 < y1 {
        y1 as i128 - y0 as i128
    } else {
        y0 as i128 - y1 as i128
    };
    let sx: i128 = if x0 < x1 {
        1
    } else {
        -1
    };
    let sy: i128 = if y0 < y1 {
        1
    } else {
        -1
    };
    let ghost fx0 = x0 as int;
    let ghost fy0 = y0 as int;
    let ghost fx1 = x1 as int;
    let ghost fy1 = y1 as int;
    let mut err: i128 = dx - dy;
    let mut x: i128 = x0 as i128;
    let mut y: i128 = y0 as i128;
    let ghost mut a: int = 0;
    let ghost mut b: int = 0;
    let ghost mut k: int = 0;
    proof {
        lemma_line_start(dx as int, dy as int);
    }
    while x != x1 as i128 || y != y1 as i128
        invariant
            fx0 == x0 as int,
            fy0 == y0 as int,
            fx1 == x1 as int,
            fy1 == y1 as int,
            dx == distance(fx0, fx1),
            dy == distance(fy0, fy1),
            sx == toward(fx0, fx1),
            sy == toward(fy0, fy1),
            0 <= dx <= isize::MAX,
            0 <= dy <= isize::MAX,
            0 <= a <= dx,
            0 <= b <= dy,
            x == fx0 + sx * a,
            y == fy0 + sy * b,
            err == dx * (b + 1) - dy * (a + 1),
            0 <= k <= line_steps(dx as int, dy as int),
            dx >= dy && dx > 0 ==> a == k && nearest(dx as int, dy as int, a, b),
            dx < dy ==> b == k && nearest(dy as int, dx as int, b, a),
            points@.len() == k,
            forall|n: int|
                0 <= n < k ==> {
                    &&& (#[trigger] points@[n]).0 == line_point(fx0, fy0, fx1, fy1, n).0
                    &&& points@[n].1 == line_point(fx0, fy0, fx1, fy1, n).1
                },
        decreases line_steps(dx as int, dy as int) - k,
    {
        proof {
            if dx >= dy && dx > 0 {
                if k == dx {
                    lemma_line_end(dx as int, dy as int, b);
                }
                lemma_nearest_is_rounded(dx as int, dy as int, a, b);
            } else if dx < dy {
                if k == dy {
                    lemma_line_end(dy as int, dx as int, a);
                }
                lemma_nearest_is_rounded(dy as int, dx as int, b, a);
            }
        }
        points.push((x as usize, y as usize));
        proof {
            if dx >= dy {
                lemma_line_step(dx as int, dy as int, a, b);
            } else {
                lemma_line_step(dy as int, dx as int, b, a);
            }
            lemma_error_step(dx as int, dy as int, a, b);
        }
        let e2: i128 = 2 * err;
        if e2 > -dy {
            err = err - dy;
            x = x + sx;
            proof {
                a = a + 1;
            }
        }
        if e2 < dx {
            err = err + dx;
            y = y + sy;
            proof {
                b = b + 1;
            }
        }
        proof {
            k = k + 1;
        }
    }
    proof {
        assert(a == dx && b == dy);
        if dx >= dy && dx > 0 {
            lemma_nearest_is_rounded(dx as int, dy as int, a, b);
        } else if dx < dy {
            lemma_nearest_is_rounded(dy as int, dx as int, b, a);
        }
    }
    points.push((x as usize, y as usize));
    points
}

proof fn lemma_line_start(dx: int, dy: int)
    requires
        dx >= 0,
        dy >= 0,
    ensures
        dx >= dy && dx > 0 ==> nearest(dx, dy, 0, 0),
        dx < dy ==> nearest(dy, dx, 0, 0),
        dx - dy == dx * (0 + 1) - dy * (0 + 1),
{
    assert(dx * (2 * 0 - 1) == -dx && dx * (2 * 0 + 1) == dx && 2 * dy * 0 == 0)
        by (nonlinear_arith);
    assert(dy * (2 * 0 - 1) == -dy && dy * (2 * 0 + 1) == dy && 2 * dx * 0 == 0)
        by (nonlinear_arith);
}

proof fn lemma_error_step(dx: int, dy: int, a: int, b: int)
    ensures
        dx * (b + 1) - dy * (a + 1 + 1) == dx * (b + 1) - dy * (a + 1) - dy,
        dx * (b + 1 + 1) - dy * (a + 1) == dx * (b + 1) - dy * (a + 1) + dx,
        dx * (b + 1 + 1) - dy * (a + 1 + 1) == dx * (b + 1) - dy * (a + 1) - dy + dx,
{
    assert(dy * (a + 1 + 1) == dy * (a + 1) + dy) by (nonlinear_arith);
    assert(dx * (b + 1 + 1) == dx * (b + 1) + dx) by (nonlinear_arith);
}

proof fn lemma_rounded_is_nearest(m: int, n: int, a: int)
    requires
        m > 0,
    ensures
        nearest(m, n, a, rounded_down(n * a, m)),
{
    let v = 2 * (n * a) + m - 1;
    let b = v / (2 * m);
    vstd::arithmetic::div_mod::lemma_fundamental_div_mod(v, 2 * m);
    vstd::arithmetic::div_mod::lemma_mod_bound(v, 2 * m);
    assert(2 * n * a == 2 * (n * a)) by (nonlinear_arith);
    assert(m * (2 * b - 1) == (2 * m) * b - m) by (nonlinear_arith);
    assert(m * (2 * b + 1) == (2 * m) * b + m) by (nonlinear_arith);
}

/// On a line the minor coordinate starts at 0, ends at `n`, and never jumps.
proof fn lemma_rounded_path(m: int, n: int, a: int)
    requires
        0 <= n <= m,
        0 < m,
        0 <= a <= m,
    ensures
        rounded_down(n * 0, m) == 0,
        rounded_down(n * m, m) == n,
        0 <= rounded_down(n * a, m) <= n,
        a < m ==> rounded_down(n * a, m) <= rounded_down(n * (a + 1), m) <= rounded_down(n * a, m)
            + 1,
{
    lemma_line_start(m, n);
    assert(nearest(m, n, 0, 0)) by {
        assert(m * (2 * 0 - 1) == -m && m * (2 * 0 + 1) == m && 2 * n * 0 == 0)
            by (nonlinear_arith);
    }
    lemma_nearest_is_rounded(m, n, 0, 0);
    lemma_rounded_is_nearest(m, n, m);
    lemma_line_end(m, n, rounded_down(n * m, m));
    let b = rounded_down(n * a, m);
    lemma_rounded_is_nearest(m, n, a);
    assert(0 <= n * a <= n * m) by (nonlinear_arith)
        requires
            0 <= n,
            0 <= a <= m,
    ;
    assert(0 <= b <= n) by (nonlinear_arith)
        requires
            m > 0,
            m * (2 * b - 1) < 2 * n * a <= m * (2 * b + 1),
            0 <= n * a <= n * m,
    ;
    if a < m {
        lemma_line_step(m, n, a, b);
        if 2 * (m * (b + 1) - n * (a + 1)) < m {
            lemma_nearest_is_rounded(m, n, a + 1, b + 1);
        } else {
            lemma_nearest_is_rounded(m, n, a + 1, b);
        }
    }
}

/// A line leads from its first point to its last, stays between them, and each of its points
/// lies beside the one before it or touches it at a corner.
pub proof fn lemma_line_unbroken(x0: int, y0: int, x1: int, y1: int, k: int)
    requires
        0 <= k <= line_steps(distance(x0, x1), distance(y0, y1)),
    ensures
        line_point(x0, y0, x1, y1, 0) == (x0, y0),
        line_point(x0, y0, x1, y1, line_steps(distance(x0, x1), distance(y0, y1))) == (x1, y1),
        x0 <= line_point(x0, y0, x1, y1, k).0 <= x1 || x1 <= line_point(x0, y0, x1, y1, k).0 <= x0,
        y0 <= line_point(x0, y0, x1, y1, k).1 <= y1 || y1 <= line_point(x0, y0, x1, y1, k).1 <= y0,
        k < line_steps(distance(x0, x1), distance(y0, y1)) ==> {
            let p = line_point(x0, y0, x1, y1, k);
            let q = line_point(x0, y0, x1, y1, k + 1);
            distance(p.0, q.0) <= 1 && distance(p.1, q.1) <= 1 && p != q
        },
{
    let dx = distance(x0, x1);
    let dy = distance(y0, y1);
    assert forall|v: int| #[trigger] (toward(x0, x1) * v) == if x0 < x1 {
        v
    } else {
        -v
    } by {}
    assert forall|v: int| #[trigger] (toward(y0, y1) * v) == if y0 < y1 {
        v
    } else {
        -v
    } by {}
    if dx >= dy && dx > 0 {
        lemma_rounded_path(dx, dy, k);
    } else if dx < dy {
        lemma_rounded_path(dy, dx, k);
    }
}

/// The points of the line from (`x0`, `y0`) to (`x1`, `y1`).
pub open spec fn line_points(x0: int, y0: int, x1: int, y1: int) -> Seq<(int, int)> {
    Seq::new(
        (line_steps(distance(x0, x1), distance(y0, y1)) + 1) as nat,
        |k: int| line_point(x0, y0, x1, y1, k),
    )
}

/// The cells that a pen of the size `pen_size` covers when it goes through `trace`.
pub open spec fn trace_shape(trace: Seq<(int, int)>, pen_size: int) -> spec_fn(int, int) -> bool {
    |i: int, j: int|
        exists|k: int|
            0 <= k < trace.len() && pen_shape((#[trigger] trace[k]).0, trace[k].1, pen_size)(i, j)
}

/// Makes walls of the cells under a pen of the size `pen_size` that goes along `points`.
fn stamp_line<S: Scalar>(grid: &mut Grid<S>, points: &Vec<(usize, usize)>, pen_size: usize)
    requires
        old(grid).wf(),
        forall|k: int|
            0 <= k < points@.len() ==> pen_fits(
                (#[trigger] points@[k]).0 as int,
                points@[k].1 as int,
                pen_size as int,
            ),
    ensures
        final(grid).wf(),
        grid::stamped(
            *old(grid),
            *final(grid),
            trace_shape(
                points@.map_values(|p: (usize, usize)| (p.0 as int, p.1 as int)),
                pen_size as int,
            ),
        ),
{
    let ghost trace = points@.map_values(|p: (usize, usize)| (p.0 as int, p.1 as int));
    let ghost size = pen_size as int;
    let mut n: usize = 0;
    proof {
        grid::lemma_stamped_nothing(*grid, trace_shape(trace.take(0), size));
    }
    while n < points.len()
        invariant
            n <= points@.len(),
            old(grid).wf(),
            grid.wf(),
            size == pen_size as int,
            trace == points@.map_values(|p: (usize, usize)| (p.0 as int, p.1 as int)),
            forall|k: int|
                0 <= k < points@.len() ==> pen_fits(
                    (#[trigger] points@[k]).0 as int,
                    points@[k].1 as int,
                    pen_size as int,
                ),
            grid::stamped(*old(grid), *grid, trace_shape(trace.take(n as int), size)),
        decreases points@.len() - n,
    {
        let ghost before = *grid;
        let (x, y) = points[n];
        assert(points@[n as int] == (x, y));
        stamp_wall(grid, x, y, pen_size);
        proof {
            let head = trace.take(n as int);
            let longer = trace.take(n + 1);
            assert(longer =~= head + seq![(x as int, y as int)]);
            lemma_trace_joined(head, seq![(x as int, y as int)], size);
            lemma_trace_of_one(x as int, y as int, size);
            grid::lemma_stamped_twice(
                *old(grid),
                before,
                *grid,
                trace_shape(head, size),
                pen_shape(x as int, y as int, size),
                trace_shape(longer, size),
            );
        }
        n = n + 1;
    }
    assert(trace.take(n as int) =~= trace);
}

/// A trace of two parts covers what the parts cover.
proof fn lemma_trace_joined(a: Seq<(int, int)>, b: Seq<(int, int)>, size: int)
    ensures
        forall|i: int, j: int| #[trigger]
            trace_shape(a + b, size)(i, j) == (trace_shape(a, size)(i, j) || trace_shape(b, size)(
                i,
                j,
            )),
{
    assert forall|i: int, j: int| #[trigger]
        trace_shape(a + b, size)(i, j) == (trace_shape(a, size)(i, j) || trace_shape(b, size)(
            i,
            j,
        )) by {
        let joined = a + b;
        if trace_shape(a, size)(i, j) {
            let k = choose|k: int|
                0 <= k < a.len() && pen_shape((#[trigger] a[k]).0, a[k].1, size)(i, j);
            assert(joined[k] == a[k]);
        }
        if trace_shape(b, size)(i, j) {
            let k = choose|k: int|
                0 <= k < b.len() && pen_shape((#[trigger] b[k]).0, b[k].1, size)(i, j);
            assert(joined[a.len() + k] == b[k]);
        }
        if trace_shape(joined, size)(i, j) {
            let k = choose|k: int|
                0 <= k < joined.len() && pen_shape((#[trigger] joined[k]).0, joined[k].1, size)(
                    i,
                    j,
                );
            if k < a.len() {
                assert(joined[k] == a[k]);
            } else {
                assert(joined[k] == b[k - a.len()]);
            }
        }
    }
}

proof fn lemma_trace_of_one(x: int, y: int, size: int)
    ensures
        forall|i: int, j: int| #[trigger]
            trace_shape(seq![(x, y)], size)(i, j) == pen_shape(x, y, size)(i, j),
{
    assert forall|i: int, j: int| #[trigger]
        trace_shape(seq![(x, y)], size)(i, j) == pen_shape(x, y, size)(i, j) by {
        let trace = seq![(x, y)];
        assert(trace[0] == (x, y));
    }
}

/// The pen that the mouse draws walls with.
#[derive(Clone, Copy, Debug)]
pub struct Pen {
    /// The button is held down.
    pub down: bool,
    /// The last point drawn by hand.
    pub last: Option<(usize, usize)>,
    /// Where a straight line begins.
    pub anchor: Option<(usize, usize)>,
    /// The last place of the cursor between the borders of the grid.
    pub cursor: Option<(usize, usize)>,
}

/// `point`, if there is one, lies between the borders of the grid.
pub open spec fn inside_if_any(point: Option<(usize, usize)>) -> bool {
    match point {
        Some(p) => topology::inside(p.0 as int, p.1 as int),
        None => true,
    }
}

/// What is drawn when a point is reached from the point `last`, if there is one: the point,
/// and the line that leads to it.
pub open spec fn reached(last: Option<(usize, usize)>, x: int, y: int) -> Seq<(int, int)> {
    match last {
        Some(p) => seq![(x, y)] + line_points(p.0 as int, p.1 as int, x, y),
        None => seq![(x, y)],
    }
}

impl Pen {
    /// The points that the pen remembers lie between the borders of the grid.
    pub open spec fn wf(self) -> bool {
        inside_if_any(self.last) && inside_if_any(self.anchor) && inside_if_any(self.cursor)
    }

    /// The pen when the button has been pressed: a straight line begins at the cursor, drawing
    /// by hand at the cursor too.
    pub open spec fn pressed(self, straight: bool) -> Pen {
        if straight {
            Pen { down: true, anchor: self.cursor, ..self }
        } else {
            Pen { down: true, last: self.cursor, ..self }
        }
    }

    /// The pen when the button has been released: nothing goes on from the last point, nor from
    /// where a straight line began.
    pub open spec fn released(self, straight: bool) -> Pen {
        if straight {
            Pen { down: false, last: None, anchor: None, ..self }
        } else {
            Pen { down: false, last: None, ..self }
        }
    }

    /// The pen when the cursor has been moved to column `x` and row `y`.
    pub open spec fn moved_to(self, x: usize, y: usize, straight: bool) -> Pen {
        if !topology::inside(x as int, y as int) {
            self
        } else if self.down && !straight {
            Pen { cursor: Some((x, y)), last: Some((x, y)), ..self }
        } else {
            Pen { cursor: Some((x, y)), ..self }
        }
    }

    /// What is drawn when the button is pressed: the point under the cursor, unless a straight
    /// line begins there.
    pub open spec fn pressed_trace(self, straight: bool) -> Seq<(int, int)> {
        match self.cursor {
            Some(p) if !straight => seq![(p.0 as int, p.1 as int)],
            _ => Seq::empty(),
        }
    }

    /// What is drawn when the button is released: the straight line from where it began to the
    /// cursor.
    pub open spec fn released_trace(self, straight: bool) -> Seq<(int, int)> {
        match (self.anchor, self.cursor) {
            (Some(a), Some(b)) if straight => line_points(
                a.0 as int,
                a.1 as int,
                b.0 as int,
                b.1 as int,
            ),
            _ => Seq::empty(),
        }
    }

    /// What is drawn when the cursor moves to column `x` and row `y`: when drawing by hand, the
    /// point and the line that leads to it from the last one.
    pub open spec fn moved_trace(self, x: int, y: int, straight: bool) -> Seq<(int, int)> {
        if topology::inside(x, y) && self.down && !straight {
            reached(self.last, x, y)
        } else {
            Seq::empty()
        }
    }

    /// A pen that has not been used.
    pub fn new() -> (r: Self)
        ensures
            r.wf(),
            r == (Pen { down: false, last: None, anchor: None, cursor: None }),
    {
        Pen { down: false, last: None, anchor: None, cursor: None }
    }

    /// Takes the button being pressed, in straight-line mode or by hand.
    pub fn press<S: Scalar>(&mut self, grid: &mut Grid<S>, straight: bool, pen_size: usize)
        requires
            old(self).wf(),
            old(grid).wf(),
            pen_fits(N as int, N as int, pen_size as int),
        ensures
            final(self).wf(),
            final(grid).wf(),
            *final(self) == old(self).pressed(straight),
            grid::stamped(
                *old(grid),
                *final(grid),
                trace_shape(old(self).pressed_trace(straight), pen_size as int),
            ),
    {
        self.down = true;
        if straight {
            self.anchor = self.cursor;
            proof {
                grid::lemma_stamped_nothing(*grid, trace_shape(Seq::empty(), pen_size as int));
            }
        } else {
            self.last = None;
            if let Some((gx, gy)) = self.cursor {
                stamp_wall(grid, gx, gy, pen_size);
                self.last = Some((gx, gy));
                proof {
                    lemma_trace_of_one(gx as int, gy as int, pen_size as int);
                    grid::lemma_stamped_same_shape(
                        *old(grid),
                        *grid,
                        pen_shape(gx as int, gy as int, pen_size as int),
                        trace_shape(old(self).pressed_trace(straight), pen_size as int),
                    );
                }
            } else {
                proof {
                    grid::lemma_stamped_nothing(*grid, trace_shape(Seq::empty(), pen_size as int));
                }
            }
        }
    }

    /// Takes the button being released, in straight-line mode or by hand.
    pub fn release<S: Scalar>(&mut self, grid: &mut Grid<S>, straight: bool, pen_size: usize)
        requires
            old(self).wf(),
            old(grid).wf(),
            pen_fits(N as int, N as int, pen_size as int),
        ensures
            final(self).wf(),
            final(grid).wf(),
            *final(self) == old(self).released(straight),
            grid::stamped(
                *old(grid),
                *final(grid),
                trace_shape(old(self).released_trace(straight), pen_size as int),
            ),
    {
        let ghost size = pen_size as int;
        proof {
            grid::lemma_stamped_nothing(*grid, trace_shape(Seq::empty(), size));
        }
        if straight {
            if let Some(a) = self.anchor {
                if let Some(b) = self.cursor {
                    draw_line(grid, a, b, pen_size);
                }
            }
            self.anchor = None;
        }
        self.down = false;
        self.last = None;
    }

    /// Takes the cursor being moved to column `x` and row `y`, in straight-line mode or by hand.
    /// Beyond the borders of the grid it is not followed.
    pub fn moved<S: Scalar>(
        &mut self,
        grid: &mut Grid<S>,
        x: usize,
        y: usize,
        straight: bool,
        pen_size: usize,
    )
        requires
            old(self).wf(),
            old(grid).wf(),
            pen_fits(N as int, N as int, pen_size as int),
        ensures
            final(self).wf(),
            final(grid).wf(),
            *final(self) == old(self).moved_to(x, y, straight),
            grid::stamped(
                *old(grid),
                *final(grid),
                trace_shape(
                    old(self).moved_trace(x as int, y as int, straight),
                    pen_size as int,
                ),
            ),
    {
        let ghost size = pen_size as int;
        proof {
            grid::lemma_stamped_nothing(*grid, trace_shape(Seq::empty(), size));
        }
        if x >= 1 && x <= N && y >= 1 && y <= N {
            self.cursor = Some((x, y));
            if self.down && !straight {
                stamp_wall(grid, x, y, pen_size);
                let ghost before = *grid;
                let ghost one = seq![(x as int, y as int)];
                proof {
                    lemma_trace_of_one(x as int, y as int, size);
                    grid::lemma_stamped_same_shape(
                        *old(grid),
                        *grid,
                        pen_shape(x as int, y as int, size),
                        trace_shape(one, size),
                    );
                }
                if let Some(p) = self.last {
                    draw_line(grid, p, (x, y), pen_size);
                    proof {
                        let line = line_points(p.0 as int, p.1 as int, x as int, y as int);
                        lemma_trace_joined(one, line, size);
                        grid::lemma_stamped_twice(
                            *old(grid),
                            before,
                            *grid,
                            trace_shape(one, size),
                            trace_shape(line, size),
                            trace_shape(one + line, size),
                        );
                    }
                }
                self.last = Some((x, y));
            }
        }
    }
}

/// Makes walls of the cells under a pen of the size `pen_size` that goes from `a` to `b`.
fn draw_line<S: Scalar>(
    grid: &mut Grid<S>,
    a: (usize, usize),
    b: (usize, usize),
    pen_size: usize,
)
    requires
        old(grid).wf(),
        topology::inside(a.0 as int, a.1 as int),
        topology::inside(b.0 as int, b.1 as int),
        pen_fits(N as int, N as int, pen_size as int),
    ensures
        final(grid).wf(),
        grid::stamped(
            *old(grid),
            *final(grid),
            trace_shape(
                line_points(a.0 as int, a.1 as int, b.0 as int, b.1 as int),
                pen_size as int,
            ),
        ),
{
    let points: Vec<(usize, usize)> = bresenham_line(a.0, a.1, b.0, b.1);
    proof {
        let line = line_points(a.0 as int, a.1 as int, b.0 as int, b.1 as int);
        let trace = points@.map_values(|p: (usize, usize)| (p.0 as int, p.1 as int));
        assert(trace =~= line);
        assert forall|k: int| 0 <= k < points@.len() implies pen_fits(
            (#[trigger] points@[k]).0 as int,
            points@[k].1 as int,
            pen_size as int,
        ) by {
            lemma_line_unbroken(a.0 as int, a.1 as int, b.0 as int, b.1 as int, k);
        }
    }
    stamp_line(grid, &points, pen_size);
}

/// A pen covers the cells between the borders whose distance from its own cell is at most half its
/// size, with one to spare in the square, and that lie no farther than half its size along the row
/// and along the column.
pub proof fn lemma_pen_round(cx: int, cy: int, pen_size: int, i: int, j: int)
    requires
        0 <= pen_size,
    ensures
        ({
            let r = pen_size / 2;
            let x = distance(i, cx);
            let y = distance(j, cy);
            pen_shape(cx, cy, pen_size)(i, j) <==> topology::inside(i, j) && x <= r && y <= r && x
                * x + y * y <= r * r + 1
        }),
{
    let x = distance(i, cx);
    let y = distance(j, cy);
    assert(square(i - cx) == x * x) by (nonlinear_arith)
        requires
            x == i - cx || x == cx - i,
            square(i - cx) == (i - cx) * (i - cx),
    ;
    assert(square(j - cy) == y * y) by (nonlinear_arith)
        requires
            y == j - cy || y == cy - j,
            square(j - cy) == (j - cy) * (j - cy),
    ;
}

/// A larger pen covers all that a smaller one does.
pub proof fn lemma_larger_pen(cx: int, cy: int, small: int, large: int, i: int, j: int)
    requires
        0 <= small <= large,
        pen_shape(cx, cy, small)(i, j),
    ensures
        pen_shape(cx, cy, large)(i, j),
{
    let r = small / 2;
    let s = large / 2;
    assert(square(r) <= square(s)) by (nonlinear_arith)
        requires
            0 <= r <= s,
            square(r) == r * r,
            square(s) == s * s,
    ;
}

/// A line goes one column on with each step if it is flat, and one row on if it is steep, toward its
/// end, and no point of it lies farther than half a cell from the straight line in the other
/// direction.
pub proof fn lemma_line_straight(x0: int, y0: int, x1: int, y1: int, k: int)
    requires
        0 <= k <= line_steps(distance(x0, x1), distance(y0, y1)),
    ensures
        ({
            let dx = distance(x0, x1);
            let dy = distance(y0, y1);
            let (x, y) = line_point(x0, y0, x1, y1, k);
            let gone_x = distance(x0, x);
            let gone_y = distance(y0, y);
            &&& dx >= dy ==> gone_x == k && -dx <= 2 * (dx * gone_y) - 2 * (dy * k) <= dx
            &&& dx < dy ==> gone_y == k && -dy <= 2 * (dy * gone_x) - 2 * (dx * k) <= dy
            &&& x0 <= x <= x1 || x1 <= x <= x0
            &&& y0 <= y <= y1 || y1 <= y <= y0
        }),
{
    lemma_line_unbroken(x0, y0, x1, y1, k);
    let dx = distance(x0, x1);
    let dy = distance(y0, y1);
    if dx >= dy {
        lemma_way(x0, x1, k);
        if dx > 0 {
            let b = rounded_down(dy * k, dx);
            lemma_rounded_path(dx, dy, k);
            lemma_rounded_near(dy * k, dx);
            lemma_way(y0, y1, b);
        } else {
            lemma_way(y0, y1, 0);
        }
    } else {
        let b = rounded_down(dx * k, dy);
        lemma_rounded_path(dy, dx, k);
        lemma_rounded_near(dx * k, dy);
        lemma_way(y0, y1, k);
        lemma_way(x0, x1, b);
    }
}

proof fn lemma_way(a: int, b: int, v: int)
    ensures
        toward(a, b) * v == if a < b {
            v
        } else {
            -v
        },
{
}

proof fn lemma_rounded_near(n: int, d: int)
    requires
        d > 0,
    ensures
        -d <= 2 * (d * rounded_down(n, d)) - 2 * n <= d,
{
    let v = 2 * n + d - 1;
    vstd::arithmetic::div_mod::lemma_fundamental_div_mod(v, 2 * d);
    vstd::arithmetic::div_mod::lemma_mod_bound(v, 2 * d);
    let q = rounded_down(n, d);
    assert((2 * d) * q == 2 * (d * q)) by (nonlinear_arith);
}

/// Drawing by hand: pressing the button draws the point under the cursor, and moving on draws a line
/// from there to where the cursor goes, and from there to the next place.
pub proof fn lemma_drawing_by_hand(pen: Pen, p: (usize, usize), q: (usize, usize), r: (usize, usize))
    requires
        pen.cursor == Some(p),
        topology::inside(q.0 as int, q.1 as int),
        topology::inside(r.0 as int, r.1 as int),
    ensures
        ({
            let down = pen.pressed(false);
            let there = down.moved_to(q.0, q.1, false);
            let line = |a: (usize, usize), b: (usize, usize)|
                line_points(a.0 as int, a.1 as int, b.0 as int, b.1 as int);
            &&& pen.pressed_trace(false) == seq![(p.0 as int, p.1 as int)]
            &&& down.moved_trace(q.0 as int, q.1 as int, false) == seq![
                (q.0 as int, q.1 as int),
            ] + line(p, q)
            &&& there.moved_trace(r.0 as int, r.1 as int, false) == seq![
                (r.0 as int, r.1 as int),
            ] + line(q, r)
            &&& there.released_trace(false) == Seq::<(int, int)>::empty()
        }),
{
}

/// Drawing a straight line: pressing the button and moving the cursor draw nothing, and releasing it
/// draws the line from where it was pressed to where the cursor is.
pub proof fn lemma_drawing_straight(pen: Pen, p: (usize, usize), q: (usize, usize))
    requires
        pen.cursor == Some(p),
        topology::inside(q.0 as int, q.1 as int),
    ensures
        ({
            let down = pen.pressed(true);
            let there = down.moved_to(q.0, q.1, true);
            &&& pen.pressed_trace(true) == Seq::<(int, int)>::empty()
            &&& down.moved_trace(q.0 as int, q.1 as int, true) == Seq::<(int, int)>::empty()
            &&& there.released_trace(true) == line_points(
                p.0 as int,
                p.1 as int,
                q.0 as int,
                q.1 as int,
            )
            &&& there.released(true).released_trace(true) == Seq::<(int, int)>::empty()
        }),
{
}

/// With the button up the cursor draws nothing, wherever it goes, and what is drawn next begins anew;
/// a cursor beyond the borders draws nothing and is forgotten.
pub proof fn lemma_pen_lifted(pen: Pen, straight: bool, x: usize, y: usize, again: bool)
    ensures
        !pen.released(straight).down,
        pen.released(straight).last is None,
        pen.released(straight).cursor == pen.cursor,
        pen.released(straight).moved_trace(x as int, y as int, again) == Seq::<
            (int, int),
        >::empty(),
        !topology::inside(x as int, y as int) ==> pen.moved_to(x, y, again) == pen
            && pen.moved_trace(x as int, y as int, again) == Seq::<(int, int)>::empty(),
        topology::inside(x as int, y as int) ==> pen.moved_to(x, y, again).cursor == Some((x, y)),
        pen.pressed(straight).down,
        pen.pressed(straight).cursor == pen.cursor,
{
}

/// A line that is drawn begins and ends at the two points that it is drawn between.
pub proof fn lemma_line_points_ends(x0: int, y0: int, x1: int, y1: int)
    ensures
        line_points(x0, y0, x1, y1).len() > 0,
        line_points(x0, y0, x1, y1)[0] == (x0, y0),
        line_points(x0, y0, x1, y1).last() == (x1, y1),
{
    lemma_line_unbroken(x0, y0, x1, y1, 0);
}

/// A pen that goes along a trace covers what it covers at each of its points, and nothing else.
pub proof fn lemma_trace_covers(trace: Seq<(int, int)>, pen_size: int, k: int, i: int, j: int)
    requires
        0 <= k < trace.len(),
    ensures
        pen_shape(trace[k].0, trace[k].1, pen_size)(i, j) ==> trace_shape(trace, pen_size)(i, j),
        trace_shape(trace, pen_size)(i, j) ==> exists|c: int|
            0 <= c < trace.len() && pen_shape((#[trigger] trace[c]).0, trace[c].1, pen_size)(i, j),
{
}

} // verus!
