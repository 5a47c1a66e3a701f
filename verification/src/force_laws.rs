//! What the forces and moments on walls, objects and ships amount to, in whole steps of the
//! fixed-point numbers.
use vstd::prelude::*;
use crate::conditions::{CELLS, SIDE};
use crate::fixed;
use crate::fixed::{Fixed, ONE};
use crate::grid;
use crate::grid::Cell;
use crate::pressure_computation;
use crate::scalar::Scalar;
use crate::topology;
use crate::vector::Vector2;

verus! {

/// The moment about `center` of `force` in column `i` and row `j`, in square steps: the cross
/// product of the way from the centre and the force.
pub open spec fn cross(center: Vector2<Fixed>, i: int, j: int, force: Vector2<Fixed>) -> int {
    (i * ONE - center.x.raw) * force.y.raw - (j * ONE - center.y.raw) * force.x.raw
}

/// `center` lies in the grid or not far from it, and `force` is of at most a million.
pub open spec fn moment_fits(center: Vector2<Fixed>, force: Vector2<Fixed>) -> bool {
    &&& -SIDE * ONE <= center.x.raw <= SIDE * ONE
    &&& -SIDE * ONE <= center.y.raw <= SIDE * ONE
    &&& -1_000_000 * ONE <= force.x.raw <= 1_000_000 * ONE
    &&& -1_000_000 * ONE <= force.y.raw <= 1_000_000 * ONE
}

proof fn lemma_lever(x: Fixed, f: Fixed)
    requires
        -1024 * ONE <= x.raw <= 1024 * ONE,
        -1_000_000 * ONE <= f.raw <= 1_000_000 * ONE,
    ensures
        fixed::differ_less(ONE * x.times_spec(f).raw, x.raw * f.raw, ONE as int),
        x.times_spec(f).raw == fixed::toward_zero(x.raw * f.raw, ONE as int),
        -1024 * 1_000_000 * ONE <= x.times_spec(f).raw <= 1024 * 1_000_000 * ONE,
{
    let n = x.raw * f.raw;
    assert(-1024 * 510_000_000 * (1_000_000 * 510_000_000) <= n <= 1024 * 510_000_000 * (1_000_000
        * 510_000_000)) by (nonlinear_arith)
        requires
            n == x.raw * f.raw,
            -1024 * 510_000_000 <= x.raw <= 1024 * 510_000_000,
            -1_000_000 * 510_000_000 <= f.raw <= 1_000_000 * 510_000_000,
    ;
    fixed::lemma_times_near(x, f);
}

/// A moment is the cross product of the way from the centre to the cell and the force, up to
/// rounding. A force along that way, toward the centre or away from it, has none; a force along the
/// row `d` rows below the centre has the moment `-d` times the force, and one along the column `d`
/// columns behind it `d` times the force.
pub proof fn lemma_moment_is_cross_product(
    center: Vector2<Fixed>,
    i: int,
    j: int,
    force: Vector2<Fixed>,
    d: int,
)
    requires
        topology::in_grid(i, j),
        moment_fits(center, force),
    ensures
        ({
            let m = pressure_computation::moment_spec(center, topology::place(i, j), force).raw;
            let rx = i * ONE - center.x.raw;
            let ry = j * ONE - center.y.raw;
            &&& fixed::differ_less(ONE * m, cross(center, i, j, force), 2 * ONE)
            &&& cross(center, i, j, force) == 0 ==> m == 0
            &&& force.y.raw == 0 && ry == d * ONE ==> m == -(d * force.x.raw)
            &&& force.x.raw == 0 && rx == d * ONE ==> m == d * force.y.raw
        }),
{
    topology::lemma_place(i, j);
    fixed::lemma_small_whole(i as nat);
    fixed::lemma_small_whole(j as nat);
    let rx = Fixed::whole_spec(i as nat).minus_spec(center.x);
    let ry = Fixed::whole_spec(j as nat).minus_spec(center.y);
    assert(rx.raw == i * ONE - center.x.raw);
    assert(ry.raw == j * ONE - center.y.raw);
    lemma_lever(rx, force.y);
    lemma_lever(ry, force.x);
    fixed::lemma_times_zero(rx);
    fixed::lemma_times_zero(ry);
    if force.y.raw == 0 && ry.raw == d * ONE {
        assert(force.y == Fixed::whole_spec(0));
        lemma_whole_lever(ry, d, force.x);
    }
    if force.x.raw == 0 && rx.raw == d * ONE {
        assert(force.x == Fixed::whole_spec(0));
        lemma_whole_lever(rx, d, force.y);
    }
}

proof fn lemma_whole_lever(x: Fixed, d: int, f: Fixed)
    requires
        x.raw == d * ONE,
        -1024 * ONE <= x.raw <= 1024 * ONE,
        -1_000_000 * ONE <= f.raw <= 1_000_000 * ONE,
    ensures
        x.times_spec(f).raw == d * f.raw,
{
    lemma_lever(x, f);
    let n = x.raw * f.raw;
    assert(n == (d * f.raw) * 510_000_000) by (nonlinear_arith)
        requires
            n == x.raw * f.raw,
            x.raw == d * 510_000_000,
    ;
}

/// What the fluid in column `i` and row `j` adds to the force on a wall that it lies off in the
/// direction (`nx`, `ny`), in steps: nothing where there is no fluid.
pub open spec fn side_push(
    cells: Seq<Cell<Fixed>>,
    i: int,
    j: int,
    nx: int,
    ny: int,
) -> (int, int) {
    let n = |t: int| Fixed { raw: (t * ONE) as i64 };
    let force = pressure_computation::contact_force_spec(cells[topology::place(i, j)], n(nx), n(ny));
    if 0 <= i < SIDE && 0 <= j < SIDE && !cells[topology::place(i, j)].wall {
        (force.x.raw as int, force.y.raw as int)
    } else {
        (0, 0)
    }
}

/// A pair of steps small enough that four of them add up to a number.
pub open spec fn quarter_fits(p: (int, int)) -> bool {
    &&& -0x1fff_ffff_ffff_ffff <= p.0 <= 0x1fff_ffff_ffff_ffff
    &&& -0x1fff_ffff_ffff_ffff <= p.1 <= 0x1fff_ffff_ffff_ffff
}

/// The force on a wall is what the fluid to its left, to its right, above it and below it add, each
/// from its own side, and a cell that is no wall bears none.
pub proof fn lemma_cell_force_adds(cells: Seq<Cell<Fixed>>, i: int, j: int)
    requires
        topology::in_grid(i, j),
        quarter_fits(side_push(cells, i - 1, j, -1, 0)),
        quarter_fits(side_push(cells, i + 1, j, 1, 0)),
        quarter_fits(side_push(cells, i, j - 1, 0, -1)),
        quarter_fits(side_push(cells, i, j + 1, 0, 1)),
    ensures
        ({
            let force = pressure_computation::cell_force(cells, topology::place(i, j));
            let left = side_push(cells, i - 1, j, -1, 0);
            let right = side_push(cells, i + 1, j, 1, 0);
            let above = side_push(cells, i, j - 1, 0, -1);
            let below = side_push(cells, i, j + 1, 0, 1);
            &&& cells[topology::place(i, j)].wall ==> force.x.raw == left.0 + right.0 + above.0
                + below.0 && force.y.raw == left.1 + right.1 + above.1 + below.1
            &&& !cells[topology::place(i, j)].wall ==> force.x.raw == 0 && force.y.raw == 0
        }),
{
    topology::lemma_place(i, j);
    assert(Fixed { raw: (-1 * ONE) as i64 } == Fixed::whole_spec(1).negated_spec());
    assert(Fixed { raw: (1 * ONE) as i64 } == Fixed::whole_spec(1));
    assert(Fixed { raw: (0 * ONE) as i64 } == Fixed::whole_spec(0));
}

/// The sum of `f` over the cells below `n`.
pub open spec fn added(f: spec_fn(int) -> int, n: nat) -> int
    decreases n,
{
    if n == 0 {
        0
    } else {
        added(f, (n - 1) as nat) + f(n - 1)
    }
}

proof fn lemma_gathered_prefix(
    list: Seq<usize>,
    k: usize,
    ids: Seq<usize>,
    forces: Seq<Vector2<Fixed>>,
    id: usize,
    center: Vector2<Fixed>,
    m: nat,
)
    requires
        m <= list.len(),
    ensures
        pressure_computation::gathered(list.push(k), ids, forces, id, m)
            == pressure_computation::gathered(list, ids, forces, id, m),
        pressure_computation::moments(list.push(k), ids, forces, id, center, m)
            == pressure_computation::moments(list, ids, forces, id, center, m),
    decreases m,
{
    if m > 0 {
        lemma_gathered_prefix(list, k, ids, forces, id, center, (m - 1) as nat);
        assert(list.push(k)[m - 1] == list[m - 1]);
    }
}

/// Every force of `forces` is of at most thirty.
pub open spec fn forces_small(forces: Seq<Vector2<Fixed>>) -> bool {
    forall|k: int|
        0 <= k < forces.len() ==> {
            &&& -30 * ONE <= (#[trigger] forces[k]).x.raw <= 30 * ONE
            &&& -30 * ONE <= forces[k].y.raw <= 30 * ONE
        }
}

/// `f` of the cells with the number `id`, and 0 of the others.
pub open spec fn of_object(
    walls: Seq<bool>,
    ids: Seq<usize>,
    id: usize,
    f: spec_fn(int) -> int,
) -> spec_fn(int) -> int {
    |k: int|
        if walls[k] && ids[k] == id {
            f(k)
        } else {
            0
        }
}

/// The columns of the cells, in steps.
pub open spec fn columns() -> spec_fn(int) -> int {
    |k: int| topology::col_of(k) * ONE
}

/// The rows of the cells, in steps.
pub open spec fn rows() -> spec_fn(int) -> int {
    |k: int| topology::row_of(k) * ONE
}

/// One of each cell.
pub open spec fn ones() -> spec_fn(int) -> int {
    |k: int| 1
}

/// The forces along the rows, in steps.
pub open spec fn along_rows(forces: Seq<Vector2<Fixed>>) -> spec_fn(int) -> int {
    |k: int| forces[k].x.raw as int
}

/// The forces along the columns, in steps.
pub open spec fn along_columns(forces: Seq<Vector2<Fixed>>) -> spec_fn(int) -> int {
    |k: int| forces[k].y.raw as int
}

/// The cross products of the ways from `center` to the cells and the forces on them.
pub open spec fn crosses(
    center: Vector2<Fixed>,
    forces: Seq<Vector2<Fixed>>,
) -> spec_fn(int) -> int {
    |k: int| cross(center, topology::col_of(k), topology::row_of(k), forces[k])
}

proof fn lemma_gathered_sums(
    walls: Seq<bool>,
    ids: Seq<usize>,
    forces: Seq<Vector2<Fixed>>,
    id: usize,
    n: nat,
)
    requires
        n <= CELLS,
        walls.len() == CELLS,
        forces.len() == CELLS,
        forces_small(forces),
    ensures
        ({
            let list = topology::wall_list(walls, n);
            let object = pressure_computation::gathered(list, ids, forces, id, list.len());
            let sum = |f: spec_fn(int) -> int| added(of_object(walls, ids, id, f), n);
            &&& list.len() <= n
            &&& object.cell_count == sum(ones())
            &&& object.cell_count <= n
            &&& object.total_force.x.raw == sum(along_rows(forces))
            &&& object.total_force.y.raw == sum(along_columns(forces))
            &&& object.center_of_mass.x.raw == sum(columns())
            &&& object.center_of_mass.y.raw == sum(rows())
            &&& -15_300_000_000 * n <= object.total_force.x.raw <= 15_300_000_000 * n
            &&& -15_300_000_000 * n <= object.total_force.y.raw <= 15_300_000_000 * n
            &&& 0 <= object.center_of_mass.x.raw <= 261_120_000_000 * object.cell_count
            &&& 0 <= object.center_of_mass.y.raw <= 261_120_000_000 * object.cell_count
        }),
    decreases n,
{
    if n > 0 {
        lemma_gathered_sums(walls, ids, forces, id, (n - 1) as nat);
        let before = topology::wall_list(walls, (n - 1) as nat);
        let k = n - 1;
        topology::lemma_cell(k);
        fixed::lemma_small_whole(topology::col_of(k) as nat);
        fixed::lemma_small_whole(topology::row_of(k) as nat);
        assert(-30 * ONE <= forces[k].x.raw <= 30 * ONE);
        if walls[k] {
            lemma_gathered_prefix(
                before,
                k as usize,
                ids,
                forces,
                id,
                Vector2::zero_spec(),
                before.len(),
            );
        }
    }
}

proof fn lemma_moments_sum(
    walls: Seq<bool>,
    ids: Seq<usize>,
    forces: Seq<Vector2<Fixed>>,
    id: usize,
    center: Vector2<Fixed>,
    n: nat,
)
    requires
        n <= CELLS,
        walls.len() == CELLS,
        forces.len() == CELLS,
        forces_small(forces),
        0 <= center.x.raw <= 512 * ONE,
        0 <= center.y.raw <= 512 * ONE,
    ensures
        ({
            let list = topology::wall_list(walls, n);
            let m = pressure_computation::moments(list, ids, forces, id, center, list.len()).raw;
            let sum = added(
                of_object(walls, ids, id, crosses(center, forces)),
                n,
            );
            let count = added(of_object(walls, ids, id, ones()), n);
            &&& 0 <= count <= n
            &&& -(2 * ONE * count) <= ONE * m - sum <= 2 * ONE * count
            &&& -(16_711_680_000_000 * n) <= m <= 16_711_680_000_000 * n
        }),
    decreases n,
{
    if n > 0 {
        lemma_moments_sum(walls, ids, forces, id, center, (n - 1) as nat);
        let before = topology::wall_list(walls, (n - 1) as nat);
        let k = n - 1;
        topology::lemma_cell(k);
        assert(-30 * ONE <= forces[k].x.raw <= 30 * ONE);
        if walls[k] {
            lemma_gathered_prefix(before, k as usize, ids, forces, id, center, before.len());
            let i = topology::col_of(k);
            let j = topology::row_of(k);
            lemma_moment_is_cross_product(center, i, j, forces[k], 0);
            let m = pressure_computation::moment_spec(center, k, forces[k]).raw;
            let e = cross(center, i, j, forces[k]);
            let a = i * ONE - center.x.raw;
            let b = j * ONE - center.y.raw;
            let fx = forces[k].x.raw as int;
            let fy = forces[k].y.raw as int;
            assert(-(32_000 * 510_000_000 * 510_000_000) <= e <= 32_000 * 510_000_000
                * 510_000_000) by (nonlinear_arith)
                requires
                    e == a * fy - b * fx,
                    -512 * 510_000_000 <= a <= 512 * 510_000_000,
                    -512 * 510_000_000 <= b <= 512 * 510_000_000,
                    -30 * 510_000_000 <= fx <= 30 * 510_000_000,
                    -30 * 510_000_000 <= fy <= 30 * 510_000_000,
            ;
            assert(-32_768 * ONE <= m <= 32_768 * ONE);
        }
    }
}

/// The forces on object `id` of a grid add up: its force is the sum of the forces on its cells, its
/// centre the mean of their columns and of their rows, and its moment the sum of the cross products
/// of the ways from that centre to its cells and the forces on them, the last two up to rounding.
pub proof fn lemma_object_adds_up(cells: Seq<Cell<Fixed>>, id: usize)
    requires
        cells.len() == CELLS,
        1 <= id <= pressure_computation::forces_on_objects(cells).len(),
        forces_small(pressure_computation::cell_forces(cells)),
    ensures
        ({
            let object = pressure_computation::forces_on_objects(cells)[id - 1];
            let walls = grid::walls_of(cells);
            let ids = topology::object_ids(walls);
            let sum = |f: spec_fn(int) -> int|
                added(of_object(walls, ids, id, f), CELLS as nat);
            let count = sum(ones());
            let center = object.center_of_mass;
            let forces = pressure_computation::cell_forces(cells);
            &&& object.id == id
            &&& object.cell_count == count
            &&& object.total_force.x.raw == sum(along_rows(forces))
            &&& object.total_force.y.raw == sum(along_columns(forces))
            &&& count > 0 ==> fixed::differ_less(
                count * center.x.raw,
                sum(columns()),
                count,
            )
            &&& count > 0 ==> fixed::differ_less(
                count * center.y.raw,
                sum(rows()),
                count,
            )
            &&& -(2 * ONE * count) <= ONE * object.torque.raw - sum(
                crosses(center, forces),
            ) <= 2 * ONE * count
        }),
{
    let walls = grid::walls_of(cells);
    let ids = topology::object_ids(walls);
    let forces = pressure_computation::cell_forces(cells);
    let list = topology::wall_list(walls, CELLS as nat);
    let n = CELLS as nat;
    lemma_gathered_sums(walls, ids, forces, id, n);
    let gathered = pressure_computation::gathered(list, ids, forces, id, list.len());
    let object = pressure_computation::forces_on_objects(cells)[id - 1];
    assert(object == pressure_computation::object_force(list, ids, forces, id));
    let count = gathered.cell_count as int;
    lemma_gathered_name(list, ids, forces, id, list.len());
    if count > 0 {
        lemma_mean_of_count(gathered.center_of_mass.x, count);
        lemma_mean_of_count(gathered.center_of_mass.y, count);
    }
    let center = object.center_of_mass;
    assert(center == pressure_computation::centred(gathered).center_of_mass);
    lemma_moments_sum(walls, ids, forces, id, center, n);
}

proof fn lemma_gathered_name(
    list: Seq<usize>,
    ids: Seq<usize>,
    forces: Seq<Vector2<Fixed>>,
    id: usize,
    n: nat,
)
    ensures
        pressure_computation::gathered(list, ids, forces, id, n).id == id,
    decreases n,
{
    if n > 0 {
        lemma_gathered_name(list, ids, forces, id, (n - 1) as nat);
    }
}

proof fn lemma_mean_of_count(sum: Fixed, count: int)
    requires
        0 < count <= CELLS,
        0 <= sum.raw <= 512 * ONE * count,
    ensures
        ({
            let mean = sum.over_spec(Fixed::whole_spec(count as nat));
            &&& fixed::differ_less(count * mean.raw, sum.raw as int, count)
            &&& 0 <= mean.raw <= 512 * ONE
        }),
{
    let d = Fixed::whole_spec(count as nat);
    assert(d.raw == count * ONE);
    let n = sum.raw * ONE;
    assert(n <= i64::MAX * d.raw) by (nonlinear_arith)
        requires
            n == sum.raw * 510_000_000,
            d.raw == count * 510_000_000,
            sum.raw <= 512 * 510_000_000 * count,
            0 < count,
    ;
    assert(-(i64::MAX * d.raw) <= n) by (nonlinear_arith)
        requires
            n >= 0,
            d.raw >= 0,
    ;
    fixed::lemma_over_near(sum, d);
    let mean = sum.over_spec(d).raw as int;
    let w = count * mean;
    assert(d.raw * mean == 510_000_000 * w) by (nonlinear_arith)
        requires
            d.raw == count * 510_000_000,
            w == count * mean,
    ;
    assert(w <= sum.raw && sum.raw - w < count);
    assert(0 <= mean <= 512 * 510_000_000) by (nonlinear_arith)
        requires
            w == count * mean,
            0 <= w <= 512 * 510_000_000 * count,
            0 < count,
    ;
}

} // verus!
