//! The objects of a grid: groups of wall cells that touch side by side.
use vstd::prelude::*;
use crate::conditions::{CELLS, N, SIDE};
use crate::morton;

verus! {

/// Column `i` and row `j` lie in the grid.
pub open spec fn in_grid(i: int, j: int) -> bool {
    0 <= i < SIDE && 0 <= j < SIDE
}

/// Column `i` and row `j` lie between the borders of the grid.
pub open spec fn inside(i: int, j: int) -> bool {
    1 <= i <= N && 1 <= j <= N
}

/// The index of the cell in column `i` and row `j`.
#[verifier::opaque]
pub open spec fn place(i: int, j: int) -> int {
    morton::morton(i as nat, j as nat) as int
}

/// The column of cell `k`.
#[verifier::opaque]
pub open spec fn col_of(k: int) -> int {
    morton::column(k as nat) as int
}

/// The row of cell `k`.
#[verifier::opaque]
pub open spec fn row_of(k: int) -> int {
    morton::row(k as nat) as int
}

/// The cell in a column and a row of the grid is one of its cells, and lies in that column
/// and row.
pub proof fn lemma_place(i: int, j: int)
    requires
        in_grid(i, j),
    ensures
        0 <= place(i, j) < CELLS,
        col_of(place(i, j)) == i,
        row_of(place(i, j)) == j,
{
    reveal(place);
    reveal(col_of);
    reveal(row_of);
    morton::lemma_decode_of_encode(i as nat, j as nat);
    morton::lemma_square_fills_places(i as nat, j as nat, 9);
    lemma_grid_side();
}

/// Every cell lies in a column and a row of the grid, and is the cell in them.
pub proof fn lemma_cell(k: int)
    requires
        0 <= k < CELLS,
    ensures
        in_grid(col_of(k), row_of(k)),
        place(col_of(k), row_of(k)) == k,
{
    reveal(place);
    reveal(col_of);
    reveal(row_of);
    morton::lemma_encode_of_decode(k as nat);
    morton::lemma_square_fills_places(morton::column(k as nat), morton::row(k as nat), 9);
    lemma_grid_side();
}

proof fn lemma_grid_side()
    ensures
        morton::span(9) == SIDE,
        morton::span(9) * morton::span(9) == CELLS,
{
    reveal_with_fuel(morton::span, 10);
    let side = morton::span(9);
    assert(side * side == CELLS) by (nonlinear_arith)
        requires
            side == 512,
    ;
}

/// Cell `k` is one of the cells of `walls`, and a wall.
pub open spec fn is_wall(walls: Seq<bool>, k: int) -> bool {
    0 <= k < walls.len() && walls[k]
}

/// Cells `a` and `b` lie side by side: in one row and neighbouring columns, or in one column
/// and neighbouring rows.
pub open spec fn adjacent(a: int, b: int) -> bool {
    ||| row_of(a) == row_of(b) && (col_of(a) == col_of(b) + 1 || col_of(b) == col_of(a) + 1)
    ||| col_of(a) == col_of(b) && (row_of(a) == row_of(b) + 1 || row_of(b) == row_of(a) + 1)
}

/// `path` goes over wall cells only, from each to one beside it.
pub open spec fn wall_path(walls: Seq<bool>, path: Seq<int>) -> bool {
    &&& path.len() > 0
    &&& forall|n: int| 0 <= n < path.len() ==> is_wall(walls, #[trigger] path[n])
    &&& forall|n: int| 0 < n < path.len() ==> adjacent(path[n - 1], #[trigger] path[n])
}

/// Some path over wall cells leads from `a` to `b`: they belong to one object.
#[verifier::opaque]
pub open spec fn connected(walls: Seq<bool>, a: int, b: int) -> bool {
    exists|path: Seq<int>| #[trigger]
        wall_path(walls, path) && path.first() == a && path.last() == b
}

/// `a` is the cell of its object with the least index.
pub open spec fn first_of_object(walls: Seq<bool>, a: int) -> bool {
    is_wall(walls, a) && forall|b: int| #[trigger] connected(walls, a, b) ==> a <= b
}

/// The number of objects whose least cell lies below `n`.
pub open spec fn objects_below(walls: Seq<bool>, n: nat) -> nat
    decreases n,
{
    if n == 0 {
        0
    } else {
        objects_below(walls, (n - 1) as nat) + if first_of_object(walls, n - 1) {
            1nat
        } else {
            0nat
        }
    }
}

/// `ids` numbers the objects of `walls`: a cell that is no wall has the number 0, the cells of
/// one object have one number, and the objects are numbered from 1 in the order of their least
/// cells.
pub open spec fn identified(walls: Seq<bool>, ids: Seq<usize>) -> bool {
    &&& ids.len() == walls.len()
    &&& forall|k: int| 0 <= k < ids.len() && !walls[k] ==> #[trigger] ids[k] == 0
    &&& forall|a: int, b: int| #[trigger] connected(walls, a, b) ==> ids[a] == ids[b]
    &&& forall|a: int| #[trigger]
        first_of_object(walls, a) ==> ids[a] == objects_below(walls, a as nat) + 1
}

/// The numbers of the objects of `walls`.
pub open spec fn object_ids(walls: Seq<bool>) -> Seq<usize> {
    choose|ids: Seq<usize>| identified(walls, ids)
}

/// Some wall has the number `id`.
pub open spec fn has_id(walls: Seq<bool>, ids: Seq<usize>, id: int) -> bool {
    exists|a: int| is_wall(walls, a) && #[trigger] ids[a] == id
}

/// The wall cells below `n`, in ascending order.
pub open spec fn wall_list(walls: Seq<bool>, n: nat) -> Seq<usize>
    decreases n,
{
    if n == 0 {
        Seq::empty()
    } else if walls[n - 1] {
        wall_list(walls, (n - 1) as nat).push((n - 1) as usize)
    } else {
        wall_list(walls, (n - 1) as nat)
    }
}

/// A wall is connected with itself.
pub proof fn lemma_connected_reflexive(walls: Seq<bool>, a: int)
    requires
        is_wall(walls, a),
    ensures
        connected(walls, a, a),
{
    reveal(connected);
    assert(wall_path(walls, seq![a]));
}

/// Connection goes both ways.
pub proof fn lemma_connected_symmetric(walls: Seq<bool>, a: int, b: int)
    requires
        connected(walls, a, b),
    ensures
        connected(walls, b, a),
{
    reveal(connected);
    let path = choose|path: Seq<int>| #[trigger]
        wall_path(walls, path) && path.first() == a && path.last() == b;
    let back = path.reverse();
    assert forall|n: int| 0 < n < back.len() implies adjacent(back[n - 1], #[trigger] back[n]) by {
        assert(adjacent(path[path.len() - 1 - n], path[path.len() - n]));
    }
    assert(wall_path(walls, back));
}

/// What is connected with a cell is connected with all that the cell is connected with.
pub proof fn lemma_connected_transitive(walls: Seq<bool>, a: int, b: int, c: int)
    requires
        connected(walls, a, b),
        connected(walls, b, c),
    ensures
        connected(walls, a, c),
{
    reveal(connected);
    let p = choose|path: Seq<int>| #[trigger]
        wall_path(walls, path) && path.first() == a && path.last() == b;
    let q = choose|path: Seq<int>| #[trigger]
        wall_path(walls, path) && path.first() == b && path.last() == c;
    let joined = p + q.subrange(1, q.len() as int);
    assert forall|n: int| 0 <= n < joined.len() implies is_wall(walls, #[trigger] joined[n]) by {
        if n >= p.len() {
            assert(joined[n] == q[n - p.len() + 1]);
        } else {
            assert(joined[n] == p[n]);
        }
    }
    assert forall|n: int| 0 < n < joined.len() implies adjacent(
        joined[n - 1],
        #[trigger] joined[n],
    ) by {
        if n > p.len() {
            assert(joined[n] == q[n - p.len() + 1]);
            assert(joined[n - 1] == q[n - p.len()]);
        } else if n == p.len() {
            assert(joined[n] == q[1]);
            assert(joined[n - 1] == p.last());
            assert(q[0] == b);
        } else {
            assert(joined[n] == p[n]);
            assert(joined[n - 1] == p[n - 1]);
        }
    }
    assert(wall_path(walls, joined));
    assert(joined.first() == a);
    if q.len() == 1 {
        assert(joined =~= p);
    } else {
        assert(joined.last() == q.last());
    }
}

/// Walls side by side are connected.
pub proof fn lemma_adjacent_connected(walls: Seq<bool>, a: int, b: int)
    requires
        is_wall(walls, a),
        is_wall(walls, b),
        adjacent(a, b),
    ensures
        connected(walls, a, b),
{
    reveal(connected);
    let path = seq![a, b];
    assert(wall_path(walls, path));
    assert(path.first() == a && path.last() == b);
}

/// Both ends of a connection are walls.
pub proof fn lemma_connected_walls(walls: Seq<bool>, a: int, b: int)
    requires
        connected(walls, a, b),
    ensures
        is_wall(walls, a),
        is_wall(walls, b),
{
    reveal(connected);
    let path = choose|path: Seq<int>| #[trigger]
        wall_path(walls, path) && path.first() == a && path.last() == b;
    assert(is_wall(walls, path[0]));
    assert(is_wall(walls, path[path.len() - 1]));
}

/// A set of walls that holds every wall beside one of its members holds all that is
/// connected with a member.
pub proof fn lemma_closed_set(walls: Seq<bool>, set: spec_fn(int) -> bool, a: int, b: int)
    requires
        connected(walls, a, b),
        set(a),
        forall|x: int, y: int|
            is_wall(walls, x) && is_wall(walls, y) && set(x) && #[trigger] adjacent(x, y) ==> set(
                y,
            ),
    ensures
        set(b),
{
    reveal(connected);
    let path = choose|path: Seq<int>| #[trigger]
        wall_path(walls, path) && path.first() == a && path.last() == b;
    lemma_closed_along(walls, set, path, path.len() - 1);
}

proof fn lemma_closed_along(
    walls: Seq<bool>,
    set: spec_fn(int) -> bool,
    path: Seq<int>,
    n: int,
)
    requires
        wall_path(walls, path),
        0 <= n < path.len(),
        set(path[0]),
        forall|x: int, y: int|
            is_wall(walls, x) && is_wall(walls, y) && set(x) && #[trigger] adjacent(x, y) ==> set(
                y,
            ),
    ensures
        set(path[n]),
    decreases n,
{
    if n > 0 {
        lemma_closed_along(walls, set, path, n - 1);
        assert(is_wall(walls, path[n - 1]) && is_wall(walls, path[n]));
        assert(adjacent(path[n - 1], path[n]));
    }
}

/// Every wall belongs to an object, which has a least cell.
pub proof fn lemma_object_has_first(walls: Seq<bool>, a: int) -> (f: int)
    requires
        is_wall(walls, a),
    ensures
        first_of_object(walls, f),
        connected(walls, f, a),
    decreases a,
{
    lemma_connected_reflexive(walls, a);
    if first_of_object(walls, a) {
        a
    } else {
        let b = choose|b: int| #[trigger] connected(walls, a, b) && b < a;
        lemma_connected_walls(walls, a, b);
        let f = lemma_object_has_first(walls, b);
        lemma_connected_symmetric(walls, a, b);
        lemma_connected_transitive(walls, f, b, a);
        f
    }
}

proof fn lemma_objects_below_monotonic(walls: Seq<bool>, m: nat, n: nat)
    requires
        m <= n,
    ensures
        objects_below(walls, m) <= objects_below(walls, n),
    decreases n,
{
    if m < n {
        lemma_objects_below_monotonic(walls, m, (n - 1) as nat);
    }
}

/// Two walls have one number exactly if they belong to one object.
pub proof fn lemma_same_id_iff_connected(walls: Seq<bool>, ids: Seq<usize>, a: int, b: int)
    requires
        identified(walls, ids),
        is_wall(walls, a),
        is_wall(walls, b),
    ensures
        ids[a] == ids[b] <==> connected(walls, a, b),
{
    let f = lemma_object_has_first(walls, a);
    let g = lemma_object_has_first(walls, b);
    if ids[a] == ids[b] {
        if f < g {
            assert(objects_below(walls, (f + 1) as nat) == objects_below(walls, f as nat) + 1);
            lemma_objects_below_monotonic(walls, (f + 1) as nat, g as nat);
        }
        if g < f {
            assert(objects_below(walls, (g + 1) as nat) == objects_below(walls, g as nat) + 1);
            lemma_objects_below_monotonic(walls, (g + 1) as nat, f as nat);
        }
        assert(f == g);
        lemma_connected_symmetric(walls, f, a);
        lemma_connected_transitive(walls, a, f, b);
    }
}

/// The numbers of the walls run from 1 to the number of objects, without a gap.
pub proof fn lemma_ids_cover_objects(walls: Seq<bool>, ids: Seq<usize>)
    requires
        identified(walls, ids),
    ensures
        forall|a: int| is_wall(walls, a) ==> 1 <= #[trigger] ids[a] <= objects_below(
            walls,
            walls.len(),
        ),
        forall|id: int|
            1 <= id <= objects_below(walls, walls.len()) ==> #[trigger] has_id(walls, ids, id),
{
    assert forall|a: int| is_wall(walls, a) implies 1 <= #[trigger] ids[a] <= objects_below(
        walls,
        walls.len(),
    ) by {
        let f = lemma_object_has_first(walls, a);
        assert(objects_below(walls, (f + 1) as nat) == objects_below(walls, f as nat) + 1);
        lemma_objects_below_monotonic(walls, (f + 1) as nat, walls.len());
    }
    assert forall|id: int| 1 <= id <= objects_below(walls, walls.len()) implies #[trigger] has_id(
        walls,
        ids,
        id,
    ) by {
        let f = lemma_object_numbered(walls, id, walls.len());
        assert(ids[f] == id);
    }
}

proof fn lemma_object_numbered(walls: Seq<bool>, id: int, n: nat) -> (f: int)
    requires
        1 <= id <= objects_below(walls, n),
    ensures
        first_of_object(walls, f),
        objects_below(walls, f as nat) + 1 == id,
    decreases n,
{
    if first_of_object(walls, n - 1) && objects_below(walls, (n - 1) as nat) + 1 == id {
        n - 1
    } else {
        lemma_object_numbered(walls, id, (n - 1) as nat)
    }
}

/// The numbering of the objects is unique.
pub proof fn lemma_identification_unique(walls: Seq<bool>, ids: Seq<usize>, other: Seq<usize>)
    requires
        identified(walls, ids),
        identified(walls, other),
    ensures
        ids == other,
{
    assert forall|k: int| 0 <= k < ids.len() implies ids[k] == other[k] by {
        if walls[k] {
            let f = lemma_object_has_first(walls, k);
            assert(ids[f] == ids[k]);
            assert(other[f] == other[k]);
        }
    }
    assert(ids =~= other);
}

/// The least cell of the object of cell `k`.
pub open spec fn least_cell(walls: Seq<bool>, k: int) -> int {
    choose|f: int| #[trigger] first_of_object(walls, f) && connected(walls, f, k)
}

/// Connected cells have one least cell.
pub proof fn lemma_least_cell(walls: Seq<bool>, a: int, b: int)
    requires
        connected(walls, a, b),
    ensures
        first_of_object(walls, least_cell(walls, a)),
        connected(walls, least_cell(walls, a), a),
        least_cell(walls, a) == least_cell(walls, b),
        first_of_object(walls, a) ==> least_cell(walls, a) == a,
{
    lemma_connected_walls(walls, a, b);
    let first_a = lemma_object_has_first(walls, a);
    let first_b = lemma_object_has_first(walls, b);
    let f = least_cell(walls, a);
    let g = least_cell(walls, b);
    lemma_connected_transitive(walls, f, a, b);
    lemma_connected_symmetric(walls, g, b);
    lemma_connected_transitive(walls, f, b, g);
    lemma_connected_symmetric(walls, f, g);
    lemma_connected_symmetric(walls, f, a);
}

/// There are no more objects than cells.
pub proof fn lemma_objects_at_most_cells(walls: Seq<bool>, n: nat)
    ensures
        objects_below(walls, n) <= n,
    decreases n,
{
    if n > 0 {
        lemma_objects_at_most_cells(walls, (n - 1) as nat);
    }
}

/// The objects can be numbered.
pub proof fn lemma_identification_exists(walls: Seq<bool>)
    requires
        walls.len() <= usize::MAX,
    ensures
        identified(walls, object_ids(walls)),
{
    let ids = Seq::new(
        walls.len(),
        |k: int|
            if walls[k] {
                (objects_below(walls, least_cell(walls, k) as nat) + 1) as usize
            } else {
                0usize
            },
    );
    assert forall|a: int, b: int| #[trigger] connected(walls, a, b) implies ids[a] == ids[b] by {
        lemma_connected_walls(walls, a, b);
        lemma_least_cell(walls, a, b);
    }
    assert forall|a: int| #[trigger] first_of_object(walls, a) implies ids[a] == objects_below(
        walls,
        a as nat,
    ) + 1 by {
        lemma_connected_reflexive(walls, a);
        lemma_least_cell(walls, a, a);
        lemma_objects_at_most_cells(walls, a as nat);
    }
    assert(identified(walls, ids));
}

/// What numbers the objects are their numbers.
pub proof fn lemma_object_ids(walls: Seq<bool>, ids: Seq<usize>)
    requires
        identified(walls, ids),
    ensures
        ids == object_ids(walls),
{
    lemma_identification_unique(walls, ids, object_ids(walls));
}

/// The list of walls holds each wall below `n` and nothing else, in ascending order.
pub proof fn lemma_wall_list(walls: Seq<bool>, n: nat)
    requires
        n <= walls.len(),
        walls.len() <= usize::MAX,
    ensures
        forall|p: int|
            0 <= p < wall_list(walls, n).len() ==> (#[trigger] wall_list(walls, n)[p]) < n
                && walls[wall_list(walls, n)[p] as int],
        forall|p: int, q: int|
            0 <= p < q < wall_list(walls, n).len() ==> wall_list(walls, n)[p] < wall_list(
                walls,
                n,
            )[q],
        forall|k: int|
            0 <= k < n && walls[k] ==> wall_list(walls, n).contains(#[trigger] (k as usize)),
        wall_list(walls, n).len() <= n,
    decreases n,
{
    if n > 0 {
        lemma_wall_list(walls, (n - 1) as nat);
        let shorter = wall_list(walls, (n - 1) as nat);
        let list = wall_list(walls, n);
        assert forall|k: int| 0 <= k < n && walls[k] implies list.contains(
            #[trigger] (k as usize),
        ) by {
            if k < n - 1 {
                let p = shorter.index_of(k as usize);
                assert(shorter.contains(k as usize));
                assert(list[p] == k as usize);
            } else {
                assert(list[list.len() - 1] == k as usize);
            }
        }
    }
}

/// Two cells lie side by side exactly if they are one step apart: in columns and rows together, so
/// that cells that touch at a corner only do not.
pub proof fn lemma_side_by_side(a: int, b: int)
    ensures
        ({
            let size = |x: int|
                if x < 0 {
                    -x
                } else {
                    x
                };
            adjacent(a, b) <==> size(col_of(a) - col_of(b)) + size(row_of(a) - row_of(b)) == 1
        }),
{
}

/// A wall without a wall beside it is an object of its own.
pub proof fn lemma_alone(walls: Seq<bool>, a: int, b: int)
    requires
        is_wall(walls, a),
        forall|c: int| is_wall(walls, c) ==> !#[trigger] adjacent(a, c),
        connected(walls, a, b),
    ensures
        b == a,
{
    reveal(connected);
    let path = choose|path: Seq<int>| #[trigger]
        wall_path(walls, path) && path.first() == a && path.last() == b;
    if path.len() > 1 {
        assert(is_wall(walls, path[1]));
        assert(adjacent(path[0], path[1]));
    }
}

/// The order of the cells: the columns count before the rows, digit by digit.
pub proof fn lemma_order_of_cells(i: int, j: int, a: int, b: int)
    requires
        0 <= i,
        0 <= j,
        0 <= a < 2,
        0 <= b < 2,
    ensures
        place(0, 0) == 0,
        place(2 * i + a, 2 * j + b) == 4 * place(i, j) + 2 * b + a,
{
    reveal(place);
    morton::lemma_next_digits(i as nat, j as nat, a as nat, b as nat);
}

} // verus!
