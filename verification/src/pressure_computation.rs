//! The objects in the flow, and the forces of the fluid on them.
use vstd::prelude::*;
use crate::conditions;
use crate::conditions::{CELLS, N, SIDE};
use crate::fixed;
use crate::fixed::Fixed;
use crate::grid;
use crate::grid::{Cell, Grid};
use crate::scalar::Scalar;
use crate::topology;
use crate::vector::Vector2;

verus! {

/// The number of cells that have no number yet.
pub open spec fn unnumbered(ids: Seq<usize>) -> nat
    decreases ids.len(),
{
    if ids.len() == 0 {
        0
    } else {
        unnumbered(ids.drop_last()) + if ids.last() == 0 {
            1nat
        } else {
            0nat
        }
    }
}

proof fn lemma_numbering_one(ids: Seq<usize>, k: int, id: usize)
    requires
        0 <= k < ids.len(),
        ids[k] == 0,
        id != 0,
    ensures
        unnumbered(ids.update(k, id)) + 1 == unnumbered(ids),
    decreases ids.len(),
{
    let after = ids.update(k, id);
    if k == ids.len() - 1 {
        assert(after.drop_last() =~= ids.drop_last());
    } else {
        assert(after.drop_last() =~= ids.drop_last().update(k, id));
        lemma_numbering_one(ids.drop_last(), k, id);
    }
}

/// The cell at column `i` and row `j` is a wall without a number.
pub open spec fn to_visit(walls: Seq<bool>, ids: Seq<usize>, i: int, j: int) -> bool {
    topology::in_grid(i, j) && walls[topology::place(i, j)] && ids[topology::place(i, j)] == 0
}

/// Some entry of `stack` is the column and the row of cell `k`.
pub open spec fn on_stack(stack: Seq<(usize, usize)>, k: int) -> bool {
    exists|n: int|
        0 <= n < stack.len() && topology::place(
            (#[trigger] stack[n]).0 as int,
            stack[n].1 as int,
        ) == k
}

/// The state of a flood that gives the number `id` to the object of `seed`, when `cur` is
/// being looked around: what it has numbered belongs to the object, and what it has not yet
/// looked around is on the stack.
spec fn flooding(
    walls: Seq<bool>,
    before: Seq<usize>,
    ids: Seq<usize>,
    stack: Seq<(usize, usize)>,
    seed: int,
    id: usize,
    cur: int,
) -> bool {
    &&& ids.len() == CELLS
    &&& ids[seed] == id
    &&& forall|k: int|
        0 <= k < CELLS ==> #[trigger] ids[k] == before[k] || (before[k] == 0 && ids[k] == id
            && topology::connected(walls, seed, k))
    &&& forall|n: int|
        0 <= n < stack.len() ==> topology::in_grid(
            (#[trigger] stack[n]).0 as int,
            stack[n].1 as int,
        ) && ids[topology::place(stack[n].0 as int, stack[n].1 as int)] == id
    &&& forall|a: int, b: int|
        topology::is_wall(walls, a) && topology::is_wall(walls, b) && #[trigger] topology::adjacent(
            a,
            b,
        ) && ids[a] == id && a != cur && !on_stack(stack, a) ==> ids[b] == id
}

/// `before` numbers whole objects, none of them `id`.
spec fn numbers_objects(walls: Seq<bool>, before: Seq<usize>, id: usize) -> bool {
    &&& before.len() == CELLS
    &&& forall|k: int| 0 <= k < CELLS ==> #[trigger] before[k] != id
    &&& forall|a: int, b: int|
        topology::is_wall(walls, a) && topology::is_wall(walls, b) && #[trigger] topology::adjacent(
            a,
            b,
        ) ==> before[a] == before[b]
}

/// A cell beside cell `a` is the one to its left, to its right, above it or below it.
proof fn lemma_beside(a: int, b: int)
    requires
        0 <= a < CELLS,
        0 <= b < CELLS,
        topology::adjacent(a, b),
    ensures
        ({
            let i = topology::col_of(a);
            let j = topology::row_of(a);
            ||| (i >= 1 && b == topology::place(i - 1, j))
            ||| (i + 1 < SIDE && b == topology::place(i + 1, j))
            ||| (j >= 1 && b == topology::place(i, j - 1))
            ||| (j + 1 < SIDE && b == topology::place(i, j + 1))
        }),
{
    topology::lemma_cell(a);
    topology::lemma_cell(b);
}

/// The cells to the left and to the right of a cell, above it and below it, are beside it.
proof fn lemma_neighbours(i: int, j: int)
    requires
        topology::in_grid(i, j),
    ensures
        i >= 1 ==> topology::adjacent(topology::place(i, j), topology::place(i - 1, j)),
        i + 1 < SIDE ==> topology::adjacent(topology::place(i, j), topology::place(i + 1, j)),
        j >= 1 ==> topology::adjacent(topology::place(i, j), topology::place(i, j - 1)),
        j + 1 < SIDE ==> topology::adjacent(topology::place(i, j), topology::place(i, j + 1)),
{
    topology::lemma_place(i, j);
    if i >= 1 {
        topology::lemma_place(i - 1, j);
    }
    if i + 1 < SIDE {
        topology::lemma_place(i + 1, j);
    }
    if j >= 1 {
        topology::lemma_place(i, j - 1);
    }
    if j + 1 < SIDE {
        topology::lemma_place(i, j + 1);
    }
}

/// One visit keeps the state of a flood.
proof fn lemma_visit(
    walls: Seq<bool>,
    before: Seq<usize>,
    ids: Seq<usize>,
    stack: Seq<(usize, usize)>,
    seed: int,
    id: usize,
    cur: int,
    i: usize,
    j: usize,
)
    requires
        walls.len() == CELLS,
        before.len() == CELLS,
        id != 0,
        0 <= cur < CELLS,
        topology::is_wall(walls, cur),
        0 <= seed < CELLS,
        topology::connected(walls, seed, cur),
        flooding(walls, before, ids, stack, seed, id, cur),
        to_visit(walls, ids, i as int, j as int),
        topology::adjacent(cur, topology::place(i as int, j as int)),
    ensures
        flooding(
            walls,
            before,
            ids.update(topology::place(i as int, j as int), id),
            stack.push((i, j)),
            seed,
            id,
            cur,
        ),
        unnumbered(ids.update(topology::place(i as int, j as int), id)) + 1 == unnumbered(ids),
{
    let p = topology::place(i as int, j as int);
    topology::lemma_place(i as int, j as int);
    lemma_numbering_one(ids, p, id);
    topology::lemma_adjacent_connected(walls, cur, p);
    topology::lemma_connected_transitive(walls, seed, cur, p);
    let ids2 = ids.update(p, id);
    let stack2 = stack.push((i, j));
    assert forall|a: int, b: int|
        topology::is_wall(walls, a) && topology::is_wall(walls, b) && #[trigger] topology::adjacent(
            a,
            b,
        ) && ids2[a] == id && a != cur && !on_stack(stack2, a) implies ids2[b] == id by {
        if a == p {
            assert(stack2[stack.len() as int] == (i, j));
            assert(on_stack(stack2, a));
        } else {
            if on_stack(stack, a) {
                let n = choose|n: int|
                    0 <= n < stack.len() && topology::place(
                        (#[trigger] stack[n]).0 as int,
                        stack[n].1 as int,
                    ) == a;
                assert(stack2[n] == stack[n]);
                assert(on_stack(stack2, a));
            }
            assert(ids[b] == id);
        }
    }
    assert forall|n: int| 0 <= n < stack2.len() implies topology::in_grid(
        (#[trigger] stack2[n]).0 as int,
        stack2[n].1 as int,
    ) && ids2[topology::place(stack2[n].0 as int, stack2[n].1 as int)] == id by {
        if n < stack.len() {
            assert(stack2[n] == stack[n]);
            topology::lemma_place(stack[n].0 as int, stack[n].1 as int);
        }
    }
}

/// When nothing is left to look around, the flood has numbered the whole object.
proof fn lemma_flooded(
    walls: Seq<bool>,
    before: Seq<usize>,
    ids: Seq<usize>,
    seed: int,
    id: usize,
)
    requires
        walls.len() == CELLS,
        topology::is_wall(walls, seed),
        numbers_objects(walls, before, id),
        flooding(walls, before, ids, Seq::empty(), seed, id, -1),
    ensures
        forall|k: int|
            0 <= k < CELLS ==> #[trigger] ids[k] == if topology::connected(walls, seed, k) {
                id
            } else {
                before[k]
            },
{
    let set = |k: int| ids[k] == id;
    assert forall|k: int| 0 <= k < CELLS implies #[trigger] ids[k] == if topology::connected(
        walls,
        seed,
        k,
    ) {
        id
    } else {
        before[k]
    } by {
        if topology::connected(walls, seed, k) {
            assert forall|x: int, y: int|
                topology::is_wall(walls, x) && topology::is_wall(walls, y) && set(x)
                    && #[trigger] topology::adjacent(x, y) implies set(y) by {
                assert(!on_stack(Seq::empty(), x));
            }
            topology::lemma_closed_set(walls, set, seed, k);
        }
    }
}

impl<S: Scalar> Grid<S> {
    /// Gives the cell in column `i` and row `j`, which lies beside the cell `cur`, the number
    /// `id` and puts it on the stack, if it is a wall without a number.
    fn visit(
        &self,
        ids: &mut Vec<usize>,
        stack: &mut Vec<(usize, usize)>,
        i: usize,
        j: usize,
        id: usize,
        Ghost(before): Ghost<Seq<usize>>,
        Ghost(seed): Ghost<int>,
        Ghost(cur): Ghost<int>,
    )
        requires
            self.cells@.len() == CELLS,
            before.len() == CELLS,
            id != 0,
            topology::is_wall(self.walls(), cur),
            0 <= seed < CELLS,
            topology::connected(self.walls(), seed, cur),
            topology::in_grid(i as int, j as int) ==> topology::adjacent(
                cur,
                topology::place(i as int, j as int),
            ),
            flooding(self.walls(), before, old(ids)@, old(stack)@, seed, id, cur),
        ensures
            flooding(self.walls(), before, final(ids)@, final(stack)@, seed, id, cur),
            topology::in_grid(i as int, j as int) && self.walls()[topology::place(
                i as int,
                j as int,
            )] ==> final(ids)@[topology::place(i as int, j as int)] != 0,
            forall|k: int| 0 <= k < CELLS && old(ids)@[k] != 0 ==> #[trigger] final(ids)@[k] != 0,
            unnumbered(final(ids)@) < unnumbered(old(ids)@) || (unnumbered(final(ids)@)
                == unnumbered(old(ids)@) && final(stack)@ == old(stack)@),
    {
        if let Some(k) = self.try_index(i, j) {
            assert(self.walls()[k as int] == self.cells@[k as int].wall);
            if self.cells[k].wall && ids[k] == 0 {
                proof {
                    lemma_visit(self.walls(), before, ids@, stack@, seed, id, cur, i, j);
                }
                ids.set(k, id);
                stack.push((i, j));
            }
        }
    }

    /// Gives the number `id` to every cell of the object that cell `seed` belongs to.
    fn flood(&self, ids: &mut Vec<usize>, seed: usize, id: usize)
        requires
            self.cells@.len() == CELLS,
            topology::is_wall(self.walls(), seed as int),
            old(ids)@[seed as int] == 0,
            id != 0,
            numbers_objects(self.walls(), old(ids)@, id),
        ensures
            final(ids)@.len() == CELLS,
            forall|k: int|
                0 <= k < CELLS ==> #[trigger] final(ids)@[k] == if topology::connected(
                    self.walls(),
                    seed as int,
                    k,
                ) {
                    id
                } else {
                    old(ids)@[k]
                },
    {
        let ghost walls = self.walls();
        let ghost before = ids@;
        let (i, j) = self.decode_index(seed);
        let mut stack: Vec<(usize, usize)> = Vec::new();
        ids.set(seed, id);
        stack.push((i, j));
        proof {
            topology::lemma_cell(seed as int);
            topology::lemma_connected_reflexive(walls, seed as int);
            assert(stack@[0] == (i, j));
            assert(on_stack(stack@, seed as int));
            assert forall|a: int, b: int|
                topology::is_wall(walls, a) && topology::is_wall(walls, b)
                    && #[trigger] topology::adjacent(a, b) && ids@[a] == id && a != -1 && !on_stack(
                    stack@,
                    a,
                ) implies ids@[b] == id by {
                assert(before[a] != id);
            }
            assert(flooding(walls, before, ids@, stack@, seed as int, id, -1));
        }
        while stack.len() > 0
            invariant
                self.cells@.len() == CELLS,
                walls == self.walls(),
                topology::is_wall(walls, seed as int),
                before[seed as int] == 0,
                id != 0,
                numbers_objects(walls, before, id),
                flooding(walls, before, ids@, stack@, seed as int, id, -1),
            decreases unnumbered(ids@), stack@.len(),
        {
            let ghost full = stack@;
            let ghost start = unnumbered(ids@);
            let (ci, cj) = stack.pop().unwrap();
            let ghost cur = topology::place(ci as int, cj as int);
            proof {
                assert(full[full.len() - 1] == (ci, cj));
                topology::lemma_place(ci as int, cj as int);
                assert(ids@[cur] == id);
                assert(before[cur] != id);
                assert(topology::connected(walls, seed as int, cur));
                topology::lemma_connected_walls(walls, seed as int, cur);
                assert forall|a: int, b: int|
                    topology::is_wall(walls, a) && topology::is_wall(walls, b)
                        && #[trigger] topology::adjacent(a, b) && ids@[a] == id && a != cur
                        && !on_stack(stack@, a) implies ids@[b] == id by {
                    if on_stack(full, a) {
                        let n = choose|n: int|
                            0 <= n < full.len() && topology::place(
                                (#[trigger] full[n]).0 as int,
                                full[n].1 as int,
                            ) == a;
                        assert(stack@[n] == full[n]);
                        assert(on_stack(stack@, a));
                    }
                }
                assert forall|n: int| 0 <= n < stack@.len() implies topology::in_grid(
                    (#[trigger] stack@[n]).0 as int,
                    stack@[n].1 as int,
                ) && ids@[topology::place(stack@[n].0 as int, stack@[n].1 as int)] == id by {
                    assert(stack@[n] == full[n]);
                }
                assert(flooding(walls, before, ids@, stack@, seed as int, id, cur));
            }
            proof {
                lemma_neighbours(ci as int, cj as int);
            }
            let ghost g = (before, seed as int, cur);
            self.visit(
                ids,
                &mut stack,
                ci.wrapping_sub(1),
                cj,
                id,
                Ghost(g.0),
                Ghost(g.1),
                Ghost(g.2),
            );
            self.visit(ids, &mut stack, ci + 1, cj, id, Ghost(g.0), Ghost(g.1), Ghost(g.2));
            self.visit(
                ids,
                &mut stack,
                ci,
                cj.wrapping_sub(1),
                id,
                Ghost(g.0),
                Ghost(g.1),
                Ghost(g.2),
            );
            self.visit(ids, &mut stack, ci, cj + 1, id, Ghost(g.0), Ghost(g.1), Ghost(g.2));
            proof {
                assert forall|a: int, b: int|
                    topology::is_wall(walls, a) && topology::is_wall(walls, b)
                        && #[trigger] topology::adjacent(a, b) && ids@[a] == id && a != -1
                        && !on_stack(stack@, a) implies ids@[b] == id by {
                    if a == cur {
                        lemma_beside(a, b);
                        assert(ids@[b] != 0);
                        assert(before[a] == before[b]);
                        assert(before[a] == 0);
                    }
                }
                assert(flooding(walls, before, ids@, stack@, seed as int, id, -1));
            }
        }
        proof {
            assert(stack@ =~= Seq::empty());
            lemma_flooded(walls, before, ids@, seed as int, id);
        }
    }
}

/// The object of cell `c` has a cell below `k`.
#[verifier::opaque]
spec fn reached_below(walls: Seq<bool>, k: int, c: int) -> bool {
    exists|d: int| 0 <= d < k && #[trigger] topology::connected(walls, d, c)
}

/// The objects whose least cells lie below `k` are numbered.
spec fn numbered_below(walls: Seq<bool>, ids: Seq<usize>, k: int) -> bool {
    &&& ids.len() == CELLS
    &&& forall|c: int| 0 <= c < k && walls[c] ==> #[trigger] ids[c] != 0
    &&& forall|c: int|
        0 <= c < CELLS && #[trigger] ids[c] != 0 ==> ids[c] <= topology::objects_below(
            walls,
            k as nat,
        ) && reached_below(walls, k, c)
    &&& forall|a: int, b: int| #[trigger] topology::connected(walls, a, b) ==> ids[a] == ids[b]
    &&& forall|f: int| #[trigger]
        topology::first_of_object(walls, f) && ids[f] != 0 ==> ids[f] == topology::objects_below(
            walls,
            f as nat,
        ) + 1
}

/// A cell that has its number already is not the least of its object.
proof fn lemma_numbered_is_not_first(walls: Seq<bool>, ids: Seq<usize>, k: int)
    requires
        walls.len() == CELLS,
        0 <= k < CELLS,
        numbered_below(walls, ids, k),
        !walls[k] || ids[k] != 0,
    ensures
        numbered_below(walls, ids, k + 1),
        topology::objects_below(walls, (k + 1) as nat) == topology::objects_below(walls, k as nat),
{
    assert(!topology::first_of_object(walls, k)) by {
        if walls[k] {
            assert(reached_below(walls, k, k));
            reveal(reached_below);
            let d = choose|d: int| 0 <= d < k && #[trigger] topology::connected(walls, d, k);
            topology::lemma_connected_symmetric(walls, d, k);
        }
    }
    assert forall|c: int| 0 <= c < CELLS && #[trigger] ids[c] != 0 implies ids[c]
        <= topology::objects_below(walls, (k + 1) as nat) && reached_below(walls, k + 1, c) by {
        assert(reached_below(walls, k, c));
        reveal(reached_below);
        let d = choose|d: int| 0 <= d < k && #[trigger] topology::connected(walls, d, c);
        assert(0 <= d < k + 1 && topology::connected(walls, d, c));
    }
}

/// A wall that has no number yet is the least of its object; numbering the object goes on.
proof fn lemma_unnumbered_is_first(walls: Seq<bool>, ids: Seq<usize>, after: Seq<usize>, k: int)
    requires
        walls.len() == CELLS,
        0 <= k < CELLS,
        numbered_below(walls, ids, k),
        walls[k],
        ids[k] == 0,
        after.len() == CELLS,
        topology::objects_below(walls, k as nat) < usize::MAX,
        forall|c: int|
            0 <= c < CELLS ==> #[trigger] after[c] == if topology::connected(walls, k, c) {
                (topology::objects_below(walls, k as nat) + 1) as usize
            } else {
                ids[c]
            },
    ensures
        numbered_below(walls, after, k + 1),
        topology::objects_below(walls, (k + 1) as nat) == topology::objects_below(walls, k as nat)
            + 1,
{
    let id = topology::objects_below(walls, k as nat) + 1;
    assert forall|b: int| #[trigger] topology::connected(walls, k, b) implies k <= b by {
        topology::lemma_connected_walls(walls, k, b);
        if b < k {
            assert(ids[b] != 0);
            assert(ids[k] == ids[b]);
        }
    }
    assert(topology::first_of_object(walls, k));
    topology::lemma_connected_reflexive(walls, k);
    assert forall|c: int| 0 <= c < k + 1 && walls[c] implies #[trigger] after[c] != 0 by {
        if c < k {
            assert(ids[c] != 0);
        }
    }
    assert forall|c: int| 0 <= c < CELLS && #[trigger] after[c] != 0 implies after[c]
        <= topology::objects_below(walls, (k + 1) as nat) && reached_below(walls, k + 1, c) by {
        if topology::connected(walls, k, c) {
            reveal(reached_below);
        } else {
            assert(ids[c] != 0);
            assert(reached_below(walls, k, c));
            reveal(reached_below);
            let d = choose|d: int| 0 <= d < k && #[trigger] topology::connected(walls, d, c);
            assert(0 <= d < k + 1 && topology::connected(walls, d, c));
        }
    }
    assert forall|a: int, b: int| #[trigger] topology::connected(walls, a, b) implies after[a]
        == after[b] by {
        topology::lemma_connected_walls(walls, a, b);
        if topology::connected(walls, k, a) {
            topology::lemma_connected_transitive(walls, k, a, b);
        }
        if topology::connected(walls, k, b) {
            topology::lemma_connected_symmetric(walls, a, b);
            topology::lemma_connected_transitive(walls, k, b, a);
        }
    }
    assert forall|f: int| #[trigger]
        topology::first_of_object(walls, f) && after[f] != 0 implies after[f]
        == topology::objects_below(walls, f as nat) + 1 by {
        if topology::connected(walls, k, f) {
            topology::lemma_connected_symmetric(walls, k, f);
            assert(f <= k);
            assert(k <= f);
        }
    }
}

/// When every cell has been looked at, the objects are identified.
proof fn lemma_all_numbered(walls: Seq<bool>, ids: Seq<usize>)
    requires
        walls.len() == CELLS,
        numbered_below(walls, ids, CELLS as int),
    ensures
        topology::identified(walls, ids),
{
    assert forall|k: int| 0 <= k < ids.len() && !walls[k] implies #[trigger] ids[k] == 0 by {
        if ids[k] != 0 {
            assert(reached_below(walls, CELLS as int, k));
            reveal(reached_below);
            let d = choose|d: int| 0 <= d < CELLS && #[trigger] topology::connected(walls, d, k);
            topology::lemma_connected_walls(walls, d, k);
        }
    }
}

impl<S: Scalar> Grid<S> {
    /// Identifies the objects again, if walls have changed since that was last done. Where they
    /// have not, nothing changes.
    pub fn refresh_wall_topology_cache(&mut self)
        requires
            old(self).wf(),
        ensures
            final(self).wf(),
            final(self).cells == old(self).cells,
            !final(self).wall_topology_dirty,
            !old(self).wall_topology_dirty ==> *final(self) == *old(self),
    {
        if !self.wall_topology_dirty {
            return;
        }
        let ghost walls = self.walls();
        let mut object_ids: Vec<usize> = Vec::new();
        object_ids.resize(CELLS, 0);
        let mut wall_cells: Vec<usize> = Vec::new();
        let mut current_id: usize = 1;
        let mut k: usize = 0;
        proof {
            assert forall|a: int, b: int| #[trigger]
                topology::connected(walls, a, b) implies object_ids@[a] == object_ids@[b] by {
                topology::lemma_connected_walls(walls, a, b);
            }
        }
        while k < CELLS
            invariant
                k <= CELLS,
                self.cells == old(self).cells,
                self.cells@.len() == CELLS,
                walls == self.walls(),
                numbered_below(walls, object_ids@, k as int),
                current_id == topology::objects_below(walls, k as nat) + 1,
                wall_cells@ == topology::wall_list(walls, k as nat),
            decreases CELLS - k,
        {
            proof {
                topology::lemma_objects_at_most_cells(walls, k as nat);
            }
            let ghost ids = object_ids@;
            assert(walls[k as int] == self.cells@[k as int].wall);
            if self.cells[k].wall {
                wall_cells.push(k);
                if object_ids[k] == 0 {
                    proof {
                        assert forall|a: int, b: int|
                            topology::is_wall(walls, a) && topology::is_wall(walls, b)
                                && #[trigger] topology::adjacent(a, b) implies ids[a] == ids[b] by {
                            topology::lemma_adjacent_connected(walls, a, b);
                        }
                    }
                    self.flood(&mut object_ids, k, current_id);
                    proof {
                        lemma_unnumbered_is_first(walls, ids, object_ids@, k as int);
                    }
                    current_id = current_id + 1;
                } else {
                    proof {
                        lemma_numbered_is_not_first(walls, ids, k as int);
                    }
                }
            } else {
                proof {
                    lemma_numbered_is_not_first(walls, ids, k as int);
                }
            }
            k = k + 1;
        }
        proof {
            lemma_all_numbered(walls, object_ids@);
        }
        self.max_object_id_cache = current_id - 1;
        self.object_ids_cache = object_ids;
        self.wall_cells_cache = wall_cells;
        self.wall_topology_dirty = false;
    }

    /// The number of the object that each cell belongs to, 0 for a cell that is no wall.
    pub fn identify_objects(&mut self) -> (ids: Vec<usize>)
        requires
            old(self).wf(),
        ensures
            final(self).wf(),
            final(self).cells == old(self).cells,
            !final(self).wall_topology_dirty,
            !old(self).wall_topology_dirty ==> *final(self) == *old(self),
            topology::identified(old(self).walls(), ids@),
            ids@ == final(self).object_ids_cache@,
    {
        self.refresh_wall_topology_cache();
        let ids: Vec<usize> = self.object_ids_cache.clone();
        assert(ids@ =~= self.object_ids_cache@);
        ids
    }
}

/// The force of the fluid in `cell` on a wall beside it, which the fluid lies off in the
/// direction (`nx`, `ny`): pressure, drag and shear over the side of one cell.
pub open spec fn contact_force_spec<S: Scalar>(cell: Cell<S>, nx: S, ny: S) -> Vector2<S> {
    let h = S::whole_spec(1).over_spec(S::whole_spec(N as nat));
    let drag = S::whole_spec(1).over_spec(S::whole_spec(2));
    let viscosity = conditions::viscosity_spec::<S>();
    let vx = cell.velocity_x;
    let vy = cell.velocity_y;
    let normal_speed = vx.times_spec(nx).plus_spec(vy.times_spec(ny));
    let slip_x = vx.minus_spec(normal_speed.times_spec(nx));
    let slip_y = vy.minus_spec(normal_speed.times_spec(ny));
    let push = cell.pressure.negated_spec();
    let pull = drag.times_spec(normal_speed.size_spec()).times_spec(normal_speed);
    Vector2 {
        x: push.times_spec(nx).plus_spec(pull.times_spec(nx)).plus_spec(
            viscosity.times_spec(slip_x),
        ).times_spec(h),
        y: push.times_spec(ny).plus_spec(pull.times_spec(ny)).plus_spec(
            viscosity.times_spec(slip_y),
        ).times_spec(h),
    }
}

/// `force` with what the fluid in column `i` and row `j` adds to it, if there is any.
pub open spec fn with_contact_spec<S: Scalar>(
    force: Vector2<S>,
    cells: Seq<Cell<S>>,
    i: int,
    j: int,
    nx: S,
    ny: S,
) -> Vector2<S> {
    if topology::in_grid(i, j) && !cells[topology::place(i, j)].wall {
        force.plus_spec(contact_force_spec(cells[topology::place(i, j)], nx, ny))
    } else {
        force
    }
}

/// The force of the fluid on cell `k`: what the cells to its left and right, above it and below
/// it add, in this order. A cell that is no wall bears none.
pub open spec fn cell_force<S: Scalar>(cells: Seq<Cell<S>>, k: int) -> Vector2<S> {
    let i = topology::col_of(k);
    let j = topology::row_of(k);
    let zero = S::whole_spec(0);
    let one = S::whole_spec(1);
    let none = Vector2::zero_spec();
    if cells[k].wall {
        let left = with_contact_spec(none, cells, i - 1, j, one.negated_spec(), zero);
        let right = with_contact_spec(left, cells, i + 1, j, one, zero);
        let above = with_contact_spec(right, cells, i, j - 1, zero, one.negated_spec());
        with_contact_spec(above, cells, i, j + 1, zero, one)
    } else {
        none
    }
}

fn contact_force<S: Scalar>(cell: Cell<S>, nx: S, ny: S) -> (r: Vector2<S>)
    ensures
        r == contact_force_spec(cell, nx, ny),
{
    let h: S = S::whole(1).over(S::whole(N));
    let drag: S = S::whole(1).over(S::whole(2));
    let viscosity: S = conditions::viscosity();
    let vx: S = cell.velocity_x;
    let vy: S = cell.velocity_y;
    let normal_speed: S = vx.times(nx).plus(vy.times(ny));
    let slip_x: S = vx.minus(normal_speed.times(nx));
    let slip_y: S = vy.minus(normal_speed.times(ny));
    let push: S = cell.pressure.negated();
    let pull: S = drag.times(normal_speed.size()).times(normal_speed);
    Vector2 {
        x: push.times(nx).plus(pull.times(nx)).plus(viscosity.times(slip_x)).times(h),
        y: push.times(ny).plus(pull.times(ny)).plus(viscosity.times(slip_y)).times(h),
    }
}

impl<S: Scalar> Grid<S> {
    fn with_contact(&self, force: Vector2<S>, i: usize, j: usize, nx: S, ny: S) -> (r: Vector2<S>)
        requires
            self.cells@.len() == CELLS,
        ensures
            r == with_contact_spec(force, self.cells@, i as int, j as int, nx, ny),
    {
        if let Some(k) = self.try_index(i, j) {
            if !self.cells[k].wall {
                return force.plus(contact_force(self.cells[k], nx, ny));
            }
        }
        force
    }

    /// The force of the fluid on each cell.
    pub fn compute_wall_forces(&mut self) -> (forces: Vec<Vector2<S>>)
        requires
            old(self).wf(),
        ensures
            final(self).wf(),
            final(self).cells == old(self).cells,
            !final(self).wall_topology_dirty,
            !old(self).wall_topology_dirty ==> *final(self) == *old(self),
            forces@ == cell_forces(old(self).cells@),
    {
        self.refresh_wall_topology_cache();
        let ghost walls = self.walls();
        let zero: S = S::whole(0);
        let one: S = S::whole(1);
        let none: Vector2<S> = Vector2::zero();
        let mut forces: Vec<Vector2<S>> = Vec::new();
        let mut k: usize = 0;
        while k < CELLS
            invariant
                k <= CELLS,
                none == Vector2::<S>::zero_spec(),
                forces@ == Seq::new(k as nat, |k: int| Vector2::<S>::zero_spec()),
            decreases CELLS - k,
        {
            forces.push(none);
            k = k + 1;
            assert(forces@ =~= Seq::new(k as nat, |k: int| Vector2::<S>::zero_spec()));
        }
        let mut n: usize = 0;
        proof {
            topology::lemma_wall_list(walls, CELLS as nat);
        }
        while n < self.wall_cells_cache.len()
            invariant
                n <= self.wall_cells_cache@.len(),
                self.cells == old(self).cells,
                self.cells@.len() == CELLS,
                walls == self.walls(),
                self.wall_cells_cache@ == topology::wall_list(walls, CELLS as nat),
                zero == S::whole_spec(0),
                one == S::whole_spec(1),
                none == Vector2::<S>::zero_spec(),
                forces@.len() == CELLS,
                forall|p: int|
                    0 <= p < self.wall_cells_cache@.len() ==> (#[trigger] self.wall_cells_cache@[p])
                        < CELLS && walls[self.wall_cells_cache@[p] as int],
                forall|p: int, q: int|
                    0 <= p < q < self.wall_cells_cache@.len() ==> self.wall_cells_cache@[p]
                        < self.wall_cells_cache@[q],
                forall|p: int|
                    0 <= p < n ==> forces@[(#[trigger] self.wall_cells_cache@[p]) as int]
                        == cell_force(self.cells@, self.wall_cells_cache@[p] as int),
                forall|k: int|
                    0 <= k < CELLS && !walls[k] ==> #[trigger] forces@[k]
                        == Vector2::<S>::zero_spec(),
            decreases self.wall_cells_cache@.len() - n,
        {
            let idx: usize = self.wall_cells_cache[n];
            let (i, j) = self.decode_index(idx);
            let left: Vector2<S> = self.with_contact(
                none,
                i.wrapping_sub(1),
                j,
                one.negated(),
                zero,
            );
            let right: Vector2<S> = self.with_contact(left, i + 1, j, one, zero);
            let above: Vector2<S> = self.with_contact(
                right,
                i,
                j.wrapping_sub(1),
                zero,
                one.negated(),
            );
            let below: Vector2<S> = self.with_contact(above, i, j + 1, zero, one);
            assert(walls[idx as int] == self.cells@[idx as int].wall);
            assert(below == cell_force(self.cells@, idx as int));
            forces.set(idx, below);
            n = n + 1;
        }
        proof {
            assert forall|k: int| 0 <= k < CELLS implies forces@[k] == cell_force(
                self.cells@,
                k,
            ) by {
                assert(walls[k] == self.cells@[k].wall);
                if walls[k] {
                    assert(self.wall_cells_cache@.contains(k as usize));
                    let p = self.wall_cells_cache@.index_of(k as usize);
                    assert(self.wall_cells_cache@[p] == k as usize);
                }
            }
            assert(forces@ =~= cell_forces(self.cells@));
        }
        forces
    }
}

/// The forces of the fluid on one object.
#[derive(Clone, Copy, Debug)]
pub struct ObjectForce<S> {
    /// The number of the object.
    pub id: usize,
    /// The mean column and row of its cells.
    pub center_of_mass: Vector2<S>,
    pub total_force: Vector2<S>,
    /// The moment of the forces about the centre of mass.
    pub torque: S,
    pub cell_count: usize,
}

/// Object `id` before any of its cells has been added.
pub open spec fn bare_object<S: Scalar>(id: usize) -> ObjectForce<S> {
    ObjectForce {
        id,
        center_of_mass: Vector2::zero_spec(),
        total_force: Vector2::zero_spec(),
        torque: S::whole_spec(0),
        cell_count: 0,
    }
}

/// `object` with cell `k` and the force `force` on it: the column and the row of the cell are
/// added to its centre, and the force to its total force.
pub open spec fn with_cell<S: Scalar>(
    object: ObjectForce<S>,
    k: int,
    force: Vector2<S>,
) -> ObjectForce<S> {
    ObjectForce {
        center_of_mass: object.center_of_mass.plus_spec(
            Vector2 {
                x: S::whole_spec(topology::col_of(k) as nat),
                y: S::whole_spec(topology::row_of(k) as nat),
            },
        ),
        total_force: object.total_force.plus_spec(force),
        cell_count: (object.cell_count + 1) as usize,
        ..object
    }
}

/// Object `id` with those of the first `n` cells of `list` that have its number.
pub open spec fn gathered<S: Scalar>(
    list: Seq<usize>,
    ids: Seq<usize>,
    forces: Seq<Vector2<S>>,
    id: usize,
    n: nat,
) -> ObjectForce<S>
    decreases n,
{
    if n == 0 {
        bare_object(id)
    } else {
        let object = gathered(list, ids, forces, id, (n - 1) as nat);
        let k = list[n - 1] as int;
        if ids[k] == id {
            with_cell(object, k, forces[k])
        } else {
            object
        }
    }
}

/// `object` with its centre divided by the number of its cells.
pub open spec fn centred<S: Scalar>(object: ObjectForce<S>) -> ObjectForce<S> {
    if object.cell_count > 0 {
        let count = S::whole_spec(object.cell_count as nat);
        ObjectForce {
            center_of_mass: Vector2 {
                x: object.center_of_mass.x.over_spec(count),
                y: object.center_of_mass.y.over_spec(count),
            },
            ..object
        }
    } else {
        object
    }
}

/// The moment about `center` of `force` at cell `k`.
pub open spec fn moment_spec<S: Scalar>(center: Vector2<S>, k: int, force: Vector2<S>) -> S {
    let rx = S::whole_spec(topology::col_of(k) as nat).minus_spec(center.x);
    let ry = S::whole_spec(topology::row_of(k) as nat).minus_spec(center.y);
    rx.times_spec(force.y).minus_spec(ry.times_spec(force.x))
}

/// The moments about `center` at those of the first `n` cells of `list` that have the number
/// `id`, added up.
pub open spec fn moments<S: Scalar>(
    list: Seq<usize>,
    ids: Seq<usize>,
    forces: Seq<Vector2<S>>,
    id: usize,
    center: Vector2<S>,
    n: nat,
) -> S
    decreases n,
{
    if n == 0 {
        S::whole_spec(0)
    } else {
        let sum = moments(list, ids, forces, id, center, (n - 1) as nat);
        let k = list[n - 1] as int;
        if ids[k] == id {
            sum.plus_spec(moment_spec(center, k, forces[k]))
        } else {
            sum
        }
    }
}

/// The forces on object `id`, for the walls `list` with the numbers `ids` and the forces
/// `forces` on the cells.
pub open spec fn object_force<S: Scalar>(
    list: Seq<usize>,
    ids: Seq<usize>,
    forces: Seq<Vector2<S>>,
    id: usize,
) -> ObjectForce<S> {
    let object = centred(gathered(list, ids, forces, id, list.len()));
    ObjectForce {
        torque: moments(list, ids, forces, id, object.center_of_mass, list.len()),
        ..object
    }
}

/// The objects 1 to `max`, in order, with the forces on them.
pub open spec fn object_forces<S: Scalar>(
    list: Seq<usize>,
    ids: Seq<usize>,
    forces: Seq<Vector2<S>>,
    max: nat,
) -> Seq<ObjectForce<S>> {
    Seq::new(max, |c: int| object_force(list, ids, forces, (c + 1) as usize))
}

/// The forces on the cells of a grid.
pub open spec fn cell_forces<S: Scalar>(cells: Seq<Cell<S>>) -> Seq<Vector2<S>> {
    Seq::new(CELLS as nat, |k: int| cell_force(cells, k))
}

/// The forces on the objects of a grid, in the order of their numbers.
pub open spec fn forces_on_objects<S: Scalar>(cells: Seq<Cell<S>>) -> Seq<ObjectForce<S>> {
    let walls = grid::walls_of(cells);
    object_forces(
        topology::wall_list(walls, CELLS as nat),
        topology::object_ids(walls),
        cell_forces(cells),
        topology::objects_below(walls, CELLS as nat),
    )
}

proof fn lemma_gathered_count<S: Scalar>(
    list: Seq<usize>,
    ids: Seq<usize>,
    forces: Seq<Vector2<S>>,
    id: usize,
    n: nat,
)
    requires
        n <= usize::MAX,
    ensures
        gathered(list, ids, forces, id, n).cell_count <= n,
        gathered(list, ids, forces, id, n).id == id,
        gathered(list, ids, forces, id, n).torque == S::whole_spec(0),
    decreases n,
{
    if n > 0 {
        lemma_gathered_count(list, ids, forces, id, (n - 1) as nat);
    }
}

impl<S: Scalar> Grid<S> {
    /// Adds the cells of the objects to them, and returns the cells as column, row, index and
    /// the place of their object.
    fn gather(
        &self,
        cell_forces: &Vec<Vector2<S>>,
        objects: &mut Vec<ObjectForce<S>>,
    ) -> (labeled: Vec<(usize, usize, usize, usize)>)
        requires
            self.wf(),
            !self.wall_topology_dirty,
            cell_forces@.len() == CELLS,
            old(objects)@ == Seq::new(
                self.max_object_id_cache as nat,
                |c: int| bare_object::<S>((c + 1) as usize),
            ),
        ensures
            final(objects)@ == Seq::new(
                self.max_object_id_cache as nat,
                |c: int|
                    gathered(
                        self.wall_cells_cache@,
                        self.object_ids_cache@,
                        cell_forces@,
                        (c + 1) as usize,
                        self.wall_cells_cache@.len(),
                    ),
            ),
            labeled@.len() == self.wall_cells_cache@.len(),
            forall|n: int|
                0 <= n < labeled@.len() ==> {
                    let k = self.wall_cells_cache@[n] as int;
                    &&& (#[trigger] labeled@[n]).0 == topology::col_of(k)
                    &&& labeled@[n].1 == topology::row_of(k)
                    &&& labeled@[n].2 == k
                    &&& labeled@[n].3 + 1 == self.object_ids_cache@[k]
                },
    {
        let ghost list = self.wall_cells_cache@;
        let ghost ids = self.object_ids_cache@;
        let ghost forces = cell_forces@;
        let mut labeled: Vec<(usize, usize, usize, usize)> = Vec::new();
        let mut n: usize = 0;
        proof {
            topology::lemma_wall_list(self.walls(), CELLS as nat);
            topology::lemma_ids_cover_objects(self.walls(), ids);
        }
        while n < self.wall_cells_cache.len()
            invariant
                n <= list.len(),
                list == self.wall_cells_cache@,
                ids == self.object_ids_cache@,
                forces == cell_forces@,
                self.wf(),
                !self.wall_topology_dirty,
                forces.len() == CELLS,
                list.len() <= CELLS,
                forall|p: int|
                    0 <= p < list.len() ==> (#[trigger] list[p]) < CELLS && topology::is_wall(
                        self.walls(),
                        list[p] as int,
                    ),
                forall|a: int|
                    topology::is_wall(self.walls(), a) ==> 1 <= #[trigger] ids[a]
                        <= self.max_object_id_cache,
                objects@.len() == self.max_object_id_cache,
                forall|c: int|
                    0 <= c < objects@.len() ==> #[trigger] objects@[c] == gathered(
                        list,
                        ids,
                        forces,
                        (c + 1) as usize,
                        n as nat,
                    ),
                labeled@.len() == n,
                forall|m: int|
                    0 <= m < n ==> {
                        let k = list[m] as int;
                        &&& (#[trigger] labeled@[m]).0 == topology::col_of(k)
                        &&& labeled@[m].1 == topology::row_of(k)
                        &&& labeled@[m].2 == k
                        &&& labeled@[m].3 + 1 == ids[k]
                    },
            decreases list.len() - n,
        {
            let idx: usize = self.wall_cells_cache[n];
            assert(list[n as int] == idx);
            let obj_id: usize = self.object_ids_cache[idx];
            let obj_idx: usize = obj_id - 1;
            let (i, j) = self.decode_index(idx);
            let object: ObjectForce<S> = objects[obj_idx];
            proof {
                lemma_gathered_count(list, ids, forces, obj_id, n as nat);
            }
            let place: Vector2<S> = Vector2 { x: S::whole(i), y: S::whole(j) };
            objects.set(
                obj_idx,
                ObjectForce {
                    id: object.id,
                    center_of_mass: object.center_of_mass.plus(place),
                    total_force: object.total_force.plus(cell_forces[idx]),
                    torque: object.torque,
                    cell_count: object.cell_count + 1,
                },
            );
            labeled.push((i, j, idx, obj_idx));
            n = n + 1;
        }
        assert(objects@ =~= Seq::new(
            self.max_object_id_cache as nat,
            |c: int| gathered(list, ids, forces, (c + 1) as usize, list.len()),
        ));
        labeled
    }

    /// The forces on each object, in the order of their numbers.
    pub fn compute_object_forces(&mut self) -> (objects: Vec<ObjectForce<S>>)
        requires
            old(self).wf(),
        ensures
            final(self).wf(),
            final(self).cells == old(self).cells,
            !final(self).wall_topology_dirty,
            !old(self).wall_topology_dirty ==> *final(self) == *old(self),
            objects@ == forces_on_objects(old(self).cells@),
    {
        let cell_forces: Vec<Vector2<S>> = self.compute_wall_forces();
        let ghost list = self.wall_cells_cache@;
        let ghost ids = self.object_ids_cache@;
        let ghost forces = cell_forces@;
        let max_id: usize = self.max_object_id_cache;
        let zero: S = S::whole(0);
        let mut objects: Vec<ObjectForce<S>> = Vec::new();
        let mut c: usize = 0;
        while c < max_id
            invariant
                c <= max_id,
                zero == S::whole_spec(0),
                objects@ == Seq::new(c as nat, |c: int| bare_object::<S>((c + 1) as usize)),
            decreases max_id - c,
        {
            objects.push(
                ObjectForce {
                    id: c + 1,
                    center_of_mass: Vector2 { x: zero, y: zero },
                    total_force: Vector2 { x: zero, y: zero },
                    torque: zero,
                    cell_count: 0,
                },
            );
            c = c + 1;
            assert(objects@ =~= Seq::new(c as nat, |c: int| bare_object::<S>((c + 1) as usize)));
        }
        let labeled: Vec<(usize, usize, usize, usize)> = self.gather(&cell_forces, &mut objects);
        let ghost sums = objects@;
        let mut c: usize = 0;
        while c < max_id
            invariant
                c <= max_id,
                sums.len() == max_id,
                objects@.len() == max_id,
                forall|d: int| 0 <= d < c ==> #[trigger] objects@[d] == centred(sums[d]),
                forall|d: int| c <= d < max_id ==> #[trigger] objects@[d] == sums[d],
            decreases max_id - c,
        {
            let object: ObjectForce<S> = objects[c];
            if object.cell_count > 0 {
                let count: S = S::whole(object.cell_count);
                objects.set(
                    c,
                    ObjectForce {
                        center_of_mass: Vector2 {
                            x: object.center_of_mass.x.over(count),
                            y: object.center_of_mass.y.over(count),
                        },
                        ..object
                    },
                );
            }
            c = c + 1;
        }
        let ghost centres = objects@;
        proof {
            topology::lemma_wall_list(self.walls(), CELLS as nat);
            topology::lemma_ids_cover_objects(self.walls(), ids);
            assert forall|d: int| 0 <= d < max_id implies centres[d].torque == S::whole_spec(0) by {
                lemma_gathered_count(list, ids, forces, (d + 1) as usize, list.len());
            }
        }
        let mut n: usize = 0;
        while n < labeled.len()
            invariant
                n <= labeled@.len(),
                labeled@.len() == list.len(),
                forces == cell_forces@,
                forces.len() == CELLS,
                ids.len() == CELLS,
                objects@.len() == max_id,
                centres.len() == max_id,
                forall|m: int|
                    0 <= m < labeled@.len() ==> {
                        let k = list[m] as int;
                        &&& (#[trigger] labeled@[m]).0 == topology::col_of(k)
                        &&& labeled@[m].1 == topology::row_of(k)
                        &&& labeled@[m].2 == k
                        &&& labeled@[m].3 + 1 == ids[k]
                        &&& k < CELLS
                        &&& ids[k] <= max_id
                    },
                forall|d: int|
                    0 <= d < max_id ==> #[trigger] objects@[d] == (ObjectForce {
                        torque: moments(
                            list,
                            ids,
                            forces,
                            (d + 1) as usize,
                            centres[d].center_of_mass,
                            n as nat,
                        ),
                        ..centres[d]
                    }),
            decreases labeled@.len() - n,
        {
            let (i, j, idx, obj_idx) = labeled[n];
            assert(labeled@[n as int] == (i, j, idx, obj_idx));
            assert(list[n as int] == idx);
            let object: ObjectForce<S> = objects[obj_idx];
            let center: Vector2<S> = object.center_of_mass;
            let rx: S = S::whole(i).minus(center.x);
            let ry: S = S::whole(j).minus(center.y);
            let force: Vector2<S> = cell_forces[idx];
            let moment: S = rx.times(force.y).minus(ry.times(force.x));
            objects.set(obj_idx, ObjectForce { torque: object.torque.plus(moment), ..object });
            n = n + 1;
        }
        proof {
            topology::lemma_object_ids(self.walls(), ids);
            assert(objects@ =~= object_forces(list, ids, forces, max_id as nat));
        }
        objects
    }
}

/// The objects are numbered from 1 in their order.
pub proof fn lemma_objects_numbered<S: Scalar>(cells: Seq<Cell<S>>, c: int)
    requires
        0 <= c < forces_on_objects(cells).len(),
        cells.len() == CELLS,
    ensures
        forces_on_objects(cells)[c].id == c + 1,
{
    let walls = grid::walls_of(cells);
    let list = topology::wall_list(walls, CELLS as nat);
    topology::lemma_objects_at_most_cells(walls, CELLS as nat);
    topology::lemma_wall_list(walls, CELLS as nat);
    lemma_gathered_count(
        list,
        topology::object_ids(walls),
        cell_forces(cells),
        (c + 1) as usize,
        list.len(),
    );
}

proof fn lemma_gathered_has_cell<S: Scalar>(
    list: Seq<usize>,
    ids: Seq<usize>,
    forces: Seq<Vector2<S>>,
    id: usize,
    n: nat,
    p: int,
)
    requires
        0 <= p < n <= list.len(),
        n <= CELLS,
        ids[list[p] as int] == id,
    ensures
        gathered(list, ids, forces, id, n).cell_count >= 1,
    decreases n,
{
    lemma_gathered_count(list, ids, forces, id, (n - 1) as nat);
    if p < n - 1 {
        lemma_gathered_has_cell(list, ids, forces, id, (n - 1) as nat, p);
    }
}

/// Every object has a cell.
pub proof fn lemma_objects_have_cells<S: Scalar>(cells: Seq<Cell<S>>, c: int)
    requires
        0 <= c < forces_on_objects(cells).len(),
        cells.len() == CELLS,
    ensures
        forces_on_objects(cells)[c].cell_count >= 1,
{
    let walls = grid::walls_of(cells);
    topology::lemma_identification_exists(walls);
    let ids = topology::object_ids(walls);
    let list = topology::wall_list(walls, CELLS as nat);
    topology::lemma_ids_cover_objects(walls, ids);
    topology::lemma_wall_list(walls, CELLS as nat);
    topology::lemma_objects_at_most_cells(walls, CELLS as nat);
    assert(topology::has_id(walls, ids, c + 1));
    let a = choose|a: int| topology::is_wall(walls, a) && #[trigger] ids[a] == c + 1;
    assert(list.contains(a as usize));
    let p = list.index_of(a as usize);
    lemma_gathered_has_cell(list, ids, cell_forces(cells), (c + 1) as usize, list.len(), p);
}

/// A wall among walls bears no force, nor does a cell that is no wall.
pub proof fn lemma_no_contact_no_force<S: Scalar>(cells: Seq<Cell<S>>, k: int)
    requires
        cells.len() == CELLS,
        0 <= k < CELLS,
        !cells[k].wall || forall|b: int|
            0 <= b < CELLS && #[trigger] topology::adjacent(k, b) ==> cells[b].wall,
    ensures
        cell_force(cells, k) == Vector2::<S>::zero_spec(),
{
    if cells[k].wall {
        let i = topology::col_of(k);
        let j = topology::row_of(k);
        topology::lemma_cell(k);
        lemma_neighbours(i, j);
        if i >= 1 {
            topology::lemma_place(i - 1, j);
        }
        if i + 1 < SIDE {
            topology::lemma_place(i + 1, j);
        }
        if j >= 1 {
            topology::lemma_place(i, j - 1);
        }
        if j + 1 < SIDE {
            topology::lemma_place(i, j + 1);
        }
    }
}

/// Still fluid pushes a wall beside it away with one `N`-th of its pressure, the width of a cell
/// being one `N`-th of that of the grid, and not at all to the side.
pub proof fn lemma_pressure_pushes(cell: Cell<Fixed>)
    requires
        cell.velocity_x.raw == 0,
        cell.velocity_y.raw == 0,
        cell.pressure.raw > i64::MIN,
    ensures
        contact_force_spec(cell, Fixed::whole_spec(1), Fixed::whole_spec(0)).x.raw
            == fixed::toward_zero(-cell.pressure.raw, N as int),
        contact_force_spec(cell, Fixed::whole_spec(1), Fixed::whole_spec(0)).y.raw == 0,
        contact_force_spec(cell, Fixed::whole_spec(0), Fixed::whole_spec(1)).x.raw == 0,
        contact_force_spec(cell, Fixed::whole_spec(0), Fixed::whole_spec(1)).y.raw
            == fixed::toward_zero(-cell.pressure.raw, N as int),
{
    let zero = Fixed::whole_spec(0);
    let one = Fixed::whole_spec(1);
    let h = one.over_spec(Fixed::whole_spec(N as nat));
    let push = cell.pressure.negated_spec();
    fixed::lemma_times_zero(one);
    fixed::lemma_times_zero(zero);
    fixed::lemma_times_zero(one.over_spec(Fixed::whole_spec(2)));
    fixed::lemma_times_zero(conditions::viscosity_spec::<Fixed>());
    fixed::lemma_times_one(push);
    fixed::lemma_times_zero(push);
    fixed::lemma_times_zero(h);
    assert(h.raw == 1_000_000);
    let n = push.raw * h.raw;
    assert(n == push.raw * 1_000_000) by (nonlinear_arith)
        requires
            n == push.raw * h.raw,
            h.raw == 1_000_000,
    ;
    assert(push.times_spec(h).raw == fixed::toward_zero(push.raw as int, 510));
}

/// Still fluid without pressure bears on nothing.
pub proof fn lemma_still_fluid_no_force(cells: Seq<Cell<Fixed>>, k: int)
    requires
        cells.len() == CELLS,
        0 <= k < CELLS,
        forall|b: int|
            0 <= b < CELLS ==> (#[trigger] cells[b]).velocity_x.raw == 0
                && cells[b].velocity_y.raw == 0 && cells[b].pressure.raw == 0,
    ensures
        cell_force(cells, k) == Vector2::<Fixed>::zero_spec(),
{
    let zero = Fixed::whole_spec(0);
    let one = Fixed::whole_spec(1);
    topology::lemma_cell(k);
    fixed::lemma_times_zero(zero);
    fixed::lemma_times_zero(one);
    fixed::lemma_times_zero(one.negated_spec());
    fixed::lemma_times_zero(one.over_spec(Fixed::whole_spec(2)));
    fixed::lemma_times_zero(one.over_spec(Fixed::whole_spec(N as nat)));
    assert forall|b: int, nx: Fixed, ny: Fixed|
        0 <= b < CELLS && (nx == zero || nx == one || nx == one.negated_spec()) && (ny == zero
            || ny == one || ny == one.negated_spec()) implies #[trigger] contact_force_spec(
        cells[b],
        nx,
        ny,
    ) == Vector2::<Fixed>::zero_spec() by {
        assert(cells[b].velocity_x == zero);
    }
    let i = topology::col_of(k);
    let j = topology::row_of(k);
    if i >= 1 {
        topology::lemma_place(i - 1, j);
    }
    if i + 1 < SIDE {
        topology::lemma_place(i + 1, j);
    }
    if j >= 1 {
        topology::lemma_place(i, j - 1);
    }
    if j + 1 < SIDE {
        topology::lemma_place(i, j + 1);
    }
}

/// The number of cells of the first `m` of `objects`.
pub open spec fn cells_of<S>(objects: Seq<ObjectForce<S>>, m: nat) -> nat
    decreases m,
{
    if m == 0 {
        0
    } else {
        cells_of(objects, (m - 1) as nat) + objects[m - 1].cell_count as nat
    }
}

spec fn gathered_cells<S: Scalar>(
    list: Seq<usize>,
    ids: Seq<usize>,
    forces: Seq<Vector2<S>>,
    m: nat,
    n: nat,
) -> nat
    decreases m,
{
    if m == 0 {
        0
    } else {
        gathered_cells(list, ids, forces, (m - 1) as nat, n) + gathered(
            list,
            ids,
            forces,
            m as usize,
            n,
        ).cell_count as nat
    }
}

proof fn lemma_gathering_one<S: Scalar>(
    list: Seq<usize>,
    ids: Seq<usize>,
    forces: Seq<Vector2<S>>,
    m: nat,
    n: nat,
)
    requires
        0 < n <= CELLS,
        m <= CELLS,
    ensures
        gathered_cells(list, ids, forces, m, n) == gathered_cells(
            list,
            ids,
            forces,
            m,
            (n - 1) as nat,
        ) + if 1 <= ids[list[n - 1] as int] <= m {
            1nat
        } else {
            0nat
        },
    decreases m,
{
    if m > 0 {
        lemma_gathering_one(list, ids, forces, (m - 1) as nat, n);
        lemma_gathered_count(list, ids, forces, m as usize, (n - 1) as nat);
    }
}

proof fn lemma_gathering_all<S: Scalar>(
    list: Seq<usize>,
    ids: Seq<usize>,
    forces: Seq<Vector2<S>>,
    m: nat,
    n: nat,
)
    requires
        n <= list.len() <= CELLS,
        m <= CELLS,
        forall|p: int| 0 <= p < list.len() ==> 1 <= ids[(#[trigger] list[p]) as int] <= m,
    ensures
        gathered_cells(list, ids, forces, m, n) == n,
    decreases n,
{
    if n > 0 {
        lemma_gathering_all(list, ids, forces, m, (n - 1) as nat);
        lemma_gathering_one(list, ids, forces, m, n);
    } else {
        lemma_nothing_gathered(list, ids, forces, m);
    }
}

proof fn lemma_nothing_gathered<S: Scalar>(
    list: Seq<usize>,
    ids: Seq<usize>,
    forces: Seq<Vector2<S>>,
    m: nat,
)
    ensures
        gathered_cells(list, ids, forces, m, 0) == 0,
    decreases m,
{
    if m > 0 {
        lemma_nothing_gathered(list, ids, forces, (m - 1) as nat);
    }
}

proof fn lemma_cells_of_gathered<S: Scalar>(cells: Seq<Cell<S>>, m: nat)
    requires
        cells.len() == CELLS,
        m <= forces_on_objects(cells).len(),
    ensures
        cells_of(forces_on_objects(cells), m) == gathered_cells(
            topology::wall_list(grid::walls_of(cells), CELLS as nat),
            topology::object_ids(grid::walls_of(cells)),
            cell_forces(cells),
            m,
            topology::wall_list(grid::walls_of(cells), CELLS as nat).len(),
        ),
    decreases m,
{
    if m > 0 {
        lemma_cells_of_gathered(cells, (m - 1) as nat);
    }
}

/// Every wall counts for one object: the objects have as many cells as there are walls.
pub proof fn lemma_objects_share_out_walls<S: Scalar>(cells: Seq<Cell<S>>)
    requires
        cells.len() == CELLS,
    ensures
        cells_of(forces_on_objects(cells), forces_on_objects(cells).len()) == topology::wall_list(
            grid::walls_of(cells),
            CELLS as nat,
        ).len(),
{
    let walls = grid::walls_of(cells);
    let ids = topology::object_ids(walls);
    let list = topology::wall_list(walls, CELLS as nat);
    let max = topology::objects_below(walls, CELLS as nat);
    topology::lemma_identification_exists(walls);
    topology::lemma_ids_cover_objects(walls, ids);
    topology::lemma_wall_list(walls, CELLS as nat);
    topology::lemma_objects_at_most_cells(walls, CELLS as nat);
    lemma_cells_of_gathered(cells, max);
    lemma_gathering_all(list, ids, cell_forces(cells), max, list.len());
}

} // verus!
