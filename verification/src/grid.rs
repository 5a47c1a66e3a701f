//! The grid of cells that the fluid moves in.
use vstd::prelude::*;
use crate::conditions::{CELLS, SIDE};
use crate::scalar::Scalar;
use crate::topology;

verus! {

/// One cell: the fluid in it, and whether it is a wall.
#[derive(Clone, Copy, Debug)]
pub struct Cell<S> {
    pub velocity_x: S,
    pub velocity_y: S,
    pub density: S,
    pub pressure: S,
    /// The share of water: 0 in air, 1 in water.
    pub phase: S,
    pub wall: bool,
}

/// `cell` with `wall` in place of its own mark.
pub open spec fn marked<S>(cell: Cell<S>, wall: bool) -> Cell<S> {
    Cell { wall, ..cell }
}

/// A grid of `SIDE` columns and `SIDE` rows, its cells in Morton order, with what was last
/// found out about its objects.
pub struct Grid<S> {
    pub cells: Vec<Cell<S>>,
    /// Walls have changed since the objects were last identified.
    pub wall_topology_dirty: bool,
    /// The number of each cell's object.
    pub object_ids_cache: Vec<usize>,
    /// The wall cells, in ascending order.
    pub wall_cells_cache: Vec<usize>,
    /// The number of objects.
    pub max_object_id_cache: usize,
}

/// Which of `cells` are walls.
pub open spec fn walls_of<S>(cells: Seq<Cell<S>>) -> Seq<bool> {
    Seq::new(cells.len(), |k: int| cells[k].wall)
}

/// `after` is `before` with a wall also in every cell whose column and row `shape` holds. The
/// objects are to be identified again exactly if that was so before, or the walls changed.
pub open spec fn stamped<S>(
    before: Grid<S>,
    after: Grid<S>,
    shape: spec_fn(int, int) -> bool,
) -> bool {
    &&& after.cells@.len() == before.cells@.len()
    &&& forall|k: int|
        0 <= k < before.cells@.len() ==> #[trigger] after.cells@[k] == marked(
            before.cells@[k],
            before.cells@[k].wall || shape(topology::col_of(k), topology::row_of(k)),
        )
    &&& after.same_caches(before)
    &&& after.wall_topology_dirty == (before.wall_topology_dirty || after.walls()
        != before.walls())
}

impl<S> Grid<S> {
    /// Which cells are walls.
    pub open spec fn walls(self) -> Seq<bool> {
        walls_of(self.cells@)
    }

    /// What is kept of the objects is the same as in `other`.
    pub open spec fn same_caches(self, other: Self) -> bool {
        &&& self.object_ids_cache == other.object_ids_cache
        &&& self.wall_cells_cache == other.wall_cells_cache
        &&& self.max_object_id_cache == other.max_object_id_cache
    }

    /// What is kept of the objects is right.
    pub open spec fn caches_hold(self) -> bool {
        &&& topology::identified(self.walls(), self.object_ids_cache@)
        &&& self.wall_cells_cache@ == topology::wall_list(self.walls(), CELLS as nat)
        &&& self.max_object_id_cache == topology::objects_below(self.walls(), CELLS as nat)
    }

    /// The grid has all its cells, and what is kept of its objects is right unless walls have
    /// changed since.
    pub open spec fn wf(self) -> bool {
        &&& self.cells@.len() == CELLS
        &&& !self.wall_topology_dirty ==> self.caches_hold()
    }
}

/// Two stampings, one after the other, are one stamping of both shapes.
pub proof fn lemma_stamped_twice<S>(
    a: Grid<S>,
    b: Grid<S>,
    c: Grid<S>,
    first: spec_fn(int, int) -> bool,
    second: spec_fn(int, int) -> bool,
    both: spec_fn(int, int) -> bool,
)
    requires
        stamped(a, b, first),
        stamped(b, c, second),
        forall|i: int, j: int| #[trigger] both(i, j) == (first(i, j) || second(i, j)),
    ensures
        stamped(a, c, both),
{
    assert forall|k: int| 0 <= k < a.cells@.len() implies #[trigger] c.cells@[k] == marked(
        a.cells@[k],
        a.cells@[k].wall || both(topology::col_of(k), topology::row_of(k)),
    ) by {
        assert(b.cells@[k] == marked(
            a.cells@[k],
            a.cells@[k].wall || first(topology::col_of(k), topology::row_of(k)),
        ));
    }
    if c.walls() == a.walls() {
        assert forall|k: int| 0 <= k < a.cells@.len() implies b.walls()[k] == a.walls()[k] by {
            assert(c.walls()[k] == a.walls()[k]);
            let i = topology::col_of(k);
            let j = topology::row_of(k);
            assert(c.cells@[k].wall == (b.cells@[k].wall || second(i, j)));
            assert(b.cells@[k].wall == (a.cells@[k].wall || first(i, j)));
        }
        assert(b.walls() =~= a.walls());
    } else if b.walls() == a.walls() {
        assert(c.walls() != b.walls());
    }
}

/// Stamping keeps a grid well-formed.
pub proof fn lemma_stamped_wf<S>(
    before: Grid<S>,
    after: Grid<S>,
    shape: spec_fn(int, int) -> bool,
)
    requires
        before.wf(),
        stamped(before, after, shape),
    ensures
        after.wf(),
{
}

/// Stamping a shape without cells changes nothing.
pub proof fn lemma_stamped_nothing<S>(grid: Grid<S>, shape: spec_fn(int, int) -> bool)
    requires
        forall|i: int, j: int| topology::in_grid(i, j) ==> !#[trigger] shape(i, j),
        grid.cells@.len() == CELLS,
    ensures
        stamped(grid, grid, shape),
{
    assert forall|k: int| 0 <= k < grid.cells@.len() implies #[trigger] grid.cells@[k] == marked(
        grid.cells@[k],
        grid.cells@[k].wall || shape(topology::col_of(k), topology::row_of(k)),
    ) by {
        topology::lemma_cell(k);
    }
}

/// Shapes that agree in the grid are stamped alike.
pub proof fn lemma_stamped_same_shape<S>(
    a: Grid<S>,
    b: Grid<S>,
    shape: spec_fn(int, int) -> bool,
    other: spec_fn(int, int) -> bool,
)
    requires
        a.cells@.len() == CELLS,
        stamped(a, b, shape),
        forall|i: int, j: int| topology::in_grid(i, j) ==> #[trigger] shape(i, j) == other(i, j),
    ensures
        stamped(a, b, other),
{
    assert forall|k: int| 0 <= k < a.cells@.len() implies #[trigger] b.cells@[k] == marked(
        a.cells@[k],
        a.cells@[k].wall || other(topology::col_of(k), topology::row_of(k)),
    ) by {
        topology::lemma_cell(k);
        let i = topology::col_of(k);
        let j = topology::row_of(k);
        assert(shape(i, j) == other(i, j));
    }
}

/// Stamping a shape again changes nothing.
pub proof fn lemma_stamped_again<S>(
    a: Grid<S>,
    b: Grid<S>,
    c: Grid<S>,
    shape: spec_fn(int, int) -> bool,
)
    requires
        stamped(a, b, shape),
        stamped(b, c, shape),
    ensures
        c.cells@ == b.cells@,
        c.wall_topology_dirty == b.wall_topology_dirty,
{
    assert forall|k: int| 0 <= k < a.cells@.len() implies c.cells@[k] == b.cells@[k] by {
        assert(b.cells@[k] == marked(
            a.cells@[k],
            a.cells@[k].wall || shape(topology::col_of(k), topology::row_of(k)),
        ));
    }
    assert(c.cells@ =~= b.cells@);
}

/// The order in which two shapes are stamped does not matter.
pub proof fn lemma_stamped_in_any_order<S>(
    a: Grid<S>,
    b: Grid<S>,
    c: Grid<S>,
    d: Grid<S>,
    e: Grid<S>,
    first: spec_fn(int, int) -> bool,
    second: spec_fn(int, int) -> bool,
)
    requires
        stamped(a, b, first),
        stamped(b, c, second),
        stamped(a, d, second),
        stamped(d, e, first),
    ensures
        c.cells@ == e.cells@,
        c.wall_topology_dirty == e.wall_topology_dirty,
{
    let both = |i: int, j: int| first(i, j) || second(i, j);
    lemma_stamped_twice(a, b, c, first, second, both);
    lemma_stamped_twice(a, d, e, second, first, both);
    assert forall|k: int| 0 <= k < a.cells@.len() implies c.cells@[k] == e.cells@[k] by {
        assert(c.cells@[k] == marked(
            a.cells@[k],
            a.cells@[k].wall || both(topology::col_of(k), topology::row_of(k)),
        ));
    }
    assert(c.cells@ =~= e.cells@);
}

/// Stamping takes no wall away.
pub proof fn lemma_stamped_keeps_walls<S>(
    before: Grid<S>,
    after: Grid<S>,
    shape: spec_fn(int, int) -> bool,
    k: int,
)
    requires
        stamped(before, after, shape),
        0 <= k < before.cells@.len(),
        before.walls()[k],
    ensures
        after.walls()[k],
{
    assert(after.cells@[k] == marked(
        before.cells@[k],
        before.cells@[k].wall || shape(topology::col_of(k), topology::row_of(k)),
    ));
}

/// `after` is `before` with other fluid in its cells: the walls and what is kept of the objects
/// are the same.
pub open spec fn same_walls<S>(before: Grid<S>, after: Grid<S>) -> bool {
    &&& after.cells@.len() == before.cells@.len()
    &&& forall|k: int|
        0 <= k < before.cells@.len() ==> (#[trigger] after.cells@[k]).wall
            == before.cells@[k].wall
    &&& after.same_caches(before)
    &&& after.wall_topology_dirty == before.wall_topology_dirty
}

/// A grid stays well-formed when only its fluid changes.
pub proof fn lemma_same_walls<S>(before: Grid<S>, after: Grid<S>)
    requires
        before.wf(),
        same_walls(before, after),
    ensures
        after.wf(),
        after.walls() == before.walls(),
{
    assert(after.walls() =~= before.walls());
}

impl<S: Scalar> Grid<S> {
    /// A cell of still air.
    pub open spec fn still_air() -> Cell<S> {
        Cell {
            velocity_x: S::whole_spec(0),
            velocity_y: S::whole_spec(0),
            density: S::whole_spec(0),
            pressure: S::whole_spec(0),
            phase: S::whole_spec(0),
            wall: false,
        }
    }

    /// A grid of still air without walls.
    pub fn new() -> (r: Self)
        ensures
            r.wf(),
            r.wall_topology_dirty,
            r.cells@ == Seq::new(CELLS as nat, |k: int| Self::still_air()),
    {
        let zero: S = S::whole(0);
        let cell: Cell<S> = Cell {
            velocity_x: zero,
            velocity_y: zero,
            density: zero,
            pressure: zero,
            phase: zero,
            wall: false,
        };
        let mut cells: Vec<Cell<S>> = Vec::new();
        let mut k: usize = 0;
        while k < CELLS
            invariant
                k <= CELLS,
                cell == Self::still_air(),
                cells@ == Seq::new(k as nat, |k: int| Self::still_air()),
            decreases CELLS - k,
        {
            cells.push(cell);
            k = k + 1;
            assert(cells@ =~= Seq::new(k as nat, |k: int| Self::still_air()));
        }
        Grid {
            cells,
            wall_topology_dirty: true,
            object_ids_cache: Vec::new(),
            wall_cells_cache: Vec::new(),
            max_object_id_cache: 0,
        }
    }

    /// Whether column `i` and row `j` lie in the grid.
    pub fn in_bounds(&self, i: usize, j: usize) -> (r: bool)
        ensures
            r == topology::in_grid(i as int, j as int),
    {
        i < SIDE && j < SIDE
    }

    /// The index of the cell in column `i` and row `j`.
    pub fn to_index(&self, i: usize, j: usize) -> (k: usize)
        requires
            topology::in_grid(i as int, j as int),
        ensures
            k == topology::place(i as int, j as int),
            k < CELLS,
    {
        proof {
            reveal(topology::place);
            topology::lemma_place(i as int, j as int);
        }
        crate::morton::encode(i, j)
    }

    /// The index of the cell in column `i` and row `j`, if they lie in the grid.
    pub fn try_index(&self, i: usize, j: usize) -> (r: Option<usize>)
        ensures
            r is Some <==> topology::in_grid(i as int, j as int),
            r is Some ==> r->0 == topology::place(i as int, j as int) && r->0 < CELLS,
    {
        if self.in_bounds(i, j) {
            Some(self.to_index(i, j))
        } else {
            None
        }
    }

    /// The column and the row of cell `k`.
    pub fn decode_index(&self, k: usize) -> (r: (usize, usize))
        requires
            k < CELLS,
        ensures
            r.0 == topology::col_of(k as int),
            r.1 == topology::row_of(k as int),
            topology::in_grid(r.0 as int, r.1 as int),
    {
        proof {
            reveal(topology::col_of);
            reveal(topology::row_of);
            topology::lemma_cell(k as int);
        }
        crate::morton::decode(k)
    }

    /// Makes the cell in row `y` and column `x` a wall, or clears it. Outside the grid there is
    /// nothing to mark.
    pub fn wall_init(&mut self, y: usize, x: usize, wall: bool)
        requires
            old(self).wf(),
        ensures
            final(self).wf(),
            final(self).same_caches(*old(self)),
            final(self).wall_topology_dirty == (old(self).wall_topology_dirty
                || final(self).walls() != old(self).walls()),
            final(self).cells@ == if topology::in_grid(x as int, y as int) {
                old(self).cells@.update(
                    topology::place(x as int, y as int),
                    marked(old(self).cells@[topology::place(x as int, y as int)], wall),
                )
            } else {
                old(self).cells@
            },
            wall ==> stamped(*old(self), *final(self), |i: int, j: int| i == x && j == y),
    {
        let ghost shape = |i: int, j: int| i == x && j == y;
        if let Some(k) = self.try_index(x, y) {
            let cell: Cell<S> = self.cells[k];
            if cell.wall != wall {
                self.cells.set(k, Cell { wall, ..cell });
                self.wall_topology_dirty = true;
                assert(self.walls()[k as int] != old(self).walls()[k as int]);
            } else {
                assert(self.cells@ =~= old(self).cells@.update(
                    k as int,
                    marked(old(self).cells@[k as int], wall),
                ));
            }
            proof {
                topology::lemma_place(x as int, y as int);
                assert forall|n: int| 0 <= n < CELLS implies shape(
                    topology::col_of(n),
                    topology::row_of(n),
                ) == (n == k) by {
                    topology::lemma_cell(n);
                }
            }
        } else {
            assert forall|n: int| 0 <= n < CELLS implies !shape(
                topology::col_of(n),
                topology::row_of(n),
            ) by {
                topology::lemma_cell(n);
            }
        }
    }

    /// Fills the cell in column `i` and row `j` with fluid of the given velocity and density.
    pub fn cell_init(&mut self, i: usize, j: usize, velocity_x: S, velocity_y: S, density: S)
        requires
            old(self).wf(),
            topology::in_grid(i as int, j as int),
        ensures
            final(self).wf(),
            same_walls(*old(self), *final(self)),
            final(self).cells@ == old(self).cells@.update(
                topology::place(i as int, j as int),
                Cell {
                    velocity_x,
                    velocity_y,
                    density,
                    ..old(self).cells@[topology::place(i as int, j as int)]
                },
            ),
    {
        let k: usize = self.to_index(i, j);
        let cell: Cell<S> = self.cells[k];
        self.cells.set(k, Cell { velocity_x, velocity_y, density, ..cell });
        proof {
            lemma_same_walls(*old(self), *self);
        }
    }

    /// The velocity along the row through the left side of the cell in column `i` and row `j`.
    pub fn get_u(&self, i: usize, j: usize) -> (r: S)
        requires
            self.wf(),
            topology::in_grid(i as int, j as int),
        ensures
            r == self.cells@[topology::place(i as int, j as int)].velocity_x,
    {
        self.cells[self.to_index(i, j)].velocity_x
    }

    /// The velocity along the column through the upper side of the cell in column `i` and row
    /// `j`.
    pub fn get_v(&self, i: usize, j: usize) -> (r: S)
        requires
            self.wf(),
            topology::in_grid(i as int, j as int),
        ensures
            r == self.cells@[topology::place(i as int, j as int)].velocity_y,
    {
        self.cells[self.to_index(i, j)].velocity_y
    }
}

} // verus!
