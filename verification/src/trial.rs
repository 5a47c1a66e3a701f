//! Trials of ships in the flow, and their ranking.
use std::collections::HashMap;
use vstd::prelude::*;
use crate::conditions;
use crate::conditions::CELLS;
use crate::fixed;
use crate::fixed::Fixed;
use crate::force_laws;
use crate::grid::Grid;
use crate::pressure_computation;
use crate::pressure_computation::ObjectForce;
use crate::scalar::Scalar;
use crate::ship::{ShipLayout, WallKind};
use crate::vector::Vector2;

verus! {

broadcast use vstd::std_specs::hash::group_hash_axioms;

/// What a trial of a ship shows.
#[derive(Clone, Debug)]
pub struct LayoutResult<S> {
    pub layout_name: String,
    /// The force on the hull and the fairings.
    pub hull_force: Vector2<S>,
    /// The force on each container that has a cell.
    pub container_forces: HashMap<usize, Vector2<S>>,
    /// The share of the total force in the direction of the flow.
    pub total_drag: S,
    /// The moments on the objects in the grid, added up by size.
    pub total_torque: S,
    /// The smaller, the better the ship.
    pub score: S,
}

/// Cell `k` belongs to the hull or a fairing.
pub open spec fn of_hull(labels: Map<usize, WallKind>, k: usize) -> bool {
    labels.contains_key(k) && (labels[k] is Hull || labels[k] is Fairing)
}

/// Cell `k` belongs to container `id`.
pub open spec fn of_container(labels: Map<usize, WallKind>, k: usize, id: usize) -> bool {
    labels.contains_key(k) && labels[k] == WallKind::Container(id)
}

/// The forces on those of the first `n` cells that belong to the hull or a fairing, added up.
pub open spec fn hull_sum<S: Scalar>(
    labels: Map<usize, WallKind>,
    forces: Seq<Vector2<S>>,
    n: nat,
) -> Vector2<S>
    decreases n,
{
    if n == 0 {
        Vector2::zero_spec()
    } else {
        let sum = hull_sum(labels, forces, (n - 1) as nat);
        if of_hull(labels, (n - 1) as usize) {
            sum.plus_spec(forces[n - 1])
        } else {
            sum
        }
    }
}

/// The forces on those of the first `n` cells that belong to container `id`, added up.
pub open spec fn container_sum<S: Scalar>(
    labels: Map<usize, WallKind>,
    forces: Seq<Vector2<S>>,
    id: usize,
    n: nat,
) -> Vector2<S>
    decreases n,
{
    if n == 0 {
        Vector2::zero_spec()
    } else {
        let sum = container_sum(labels, forces, id, (n - 1) as nat);
        if of_container(labels, (n - 1) as usize, id) {
            sum.plus_spec(forces[n - 1])
        } else {
            sum
        }
    }
}

/// The containers that some of the first `n` cells belong to, in the order of their first cells.
pub open spec fn seen_containers(labels: Map<usize, WallKind>, n: nat) -> Seq<usize>
    decreases n,
{
    if n == 0 {
        Seq::empty()
    } else {
        let seen = seen_containers(labels, (n - 1) as nat);
        let k = (n - 1) as usize;
        if labels.contains_key(k) && labels[k] is Container && !seen.contains(labels[k]->0) {
            seen.push(labels[k]->0)
        } else {
            seen
        }
    }
}

/// `first` with the forces on the first `n` of the containers `ids` added in order.
pub open spec fn with_containers<S: Scalar>(
    first: Vector2<S>,
    labels: Map<usize, WallKind>,
    forces: Seq<Vector2<S>>,
    ids: Seq<usize>,
    n: nat,
) -> Vector2<S>
    decreases n,
{
    if n == 0 {
        first
    } else {
        with_containers(first, labels, forces, ids, (n - 1) as nat).plus_spec(
            container_sum(labels, forces, ids[n - 1], CELLS as nat),
        )
    }
}

/// The force on the whole ship.
pub open spec fn total_force<S: Scalar>(
    labels: Map<usize, WallKind>,
    forces: Seq<Vector2<S>>,
) -> Vector2<S> {
    let ids = seen_containers(labels, CELLS as nat);
    with_containers(
        hull_sum(labels, forces, CELLS as nat),
        labels,
        forces,
        ids,
        ids.len(),
    )
}

/// The moments on the first `n` of `objects`, added up by size.
pub open spec fn torque_sum<S: Scalar>(objects: Seq<ObjectForce<S>>, n: nat) -> S
    decreases n,
{
    if n == 0 {
        S::whole_spec(0)
    } else {
        torque_sum(objects, (n - 1) as nat).plus_spec(objects[n - 1].torque.size_spec())
    }
}

/// `total` in the direction whose cosine and sine are `cos_a` and `sin_a`.
pub open spec fn drag_spec<S: Scalar>(total: Vector2<S>, cos_a: S, sin_a: S) -> S {
    total.x.times_spec(cos_a).plus_spec(total.y.times_spec(sin_a))
}

/// The score of a ship: the sizes of its drag and of its moments, each with its weight.
pub open spec fn score_spec<S: Scalar>(drag: S, torque: S) -> S {
    conditions::drag_weight_spec::<S>().times_spec(drag.size_spec()).plus_spec(
        conditions::torque_weight_spec::<S>().times_spec(torque),
    )
}

/// `labels` names cells of the grid only.
pub open spec fn names_cells(labels: Map<usize, WallKind>) -> bool {
    forall|k: usize| #[trigger] labels.contains_key(k) ==> k < CELLS
}

proof fn lemma_seen_containers(labels: Map<usize, WallKind>, n: nat)
    requires
        n <= CELLS,
    ensures
        seen_containers(labels, n).len() <= n,
        seen_containers(labels, n).no_duplicates(),
        forall|id: usize| #[trigger]
            seen_containers(labels, n).contains(id) <==> (exists|k: usize|
                k < n && #[trigger] of_container(labels, k, id)),
    decreases n,
{
    if n > 0 {
        lemma_seen_containers(labels, (n - 1) as nat);
        let seen = seen_containers(labels, (n - 1) as nat);
        let all = seen_containers(labels, n);
        let last = (n - 1) as usize;
        assert forall|id: usize| #[trigger] all.contains(id) <==> (exists|k: usize|
            k < n && #[trigger] of_container(labels, k, id)) by {
            if all.contains(id) {
                if seen.contains(id) {
                    let k = choose|k: usize| k < n - 1 && #[trigger] of_container(labels, k, id);
                    assert(k < n && of_container(labels, k, id));
                } else {
                    assert(of_container(labels, last, id));
                }
            }
            if exists|k: usize| k < n && #[trigger] of_container(labels, k, id) {
                let k = choose|k: usize| k < n && #[trigger] of_container(labels, k, id);
                if k < n - 1 {
                    assert(seen.contains(id));
                }
                if seen.contains(id) {
                    let p = seen.index_of(id);
                    assert(all[p] == id);
                } else {
                    assert(all[all.len() - 1] == id);
                }
            }
        }
    }
}

proof fn lemma_unseen_container<S: Scalar>(
    labels: Map<usize, WallKind>,
    forces: Seq<Vector2<S>>,
    id: usize,
    n: nat,
)
    requires
        n <= CELLS,
        forall|k: usize| k < n ==> !#[trigger] of_container(labels, k, id),
    ensures
        container_sum(labels, forces, id, n) == Vector2::<S>::zero_spec(),
    decreases n,
{
    if n > 0 {
        lemma_unseen_container(labels, forces, id, (n - 1) as nat);
    }
}

/// `sums` holds the force on each container that one of the first `n` cells belongs to.
pub open spec fn container_forces_hold<S: Scalar>(
    labels: Map<usize, WallKind>,
    forces: Seq<Vector2<S>>,
    sums: Map<usize, Vector2<S>>,
    n: nat,
) -> bool {
    &&& forall|id: usize| #[trigger]
        sums.contains_key(id) <==> seen_containers(labels, n).contains(id)
    &&& forall|id: usize| #[trigger]
        sums.contains_key(id) ==> sums[id] == container_sum(labels, forces, id, n)
}

/// Adds `force` to the force on container `id`, which one more cell belongs to.
fn add_to_container<S: Scalar>(
    sums: &mut HashMap<usize, Vector2<S>>,
    order: &mut Vec<usize>,
    id: usize,
    force: Vector2<S>,
)
    ensures
        final(sums)@ == old(sums)@.insert(
            id,
            if old(sums)@.contains_key(id) {
                old(sums)@[id]
            } else {
                Vector2::zero_spec()
            }.plus_spec(force),
        ),
        final(order)@ == if old(sums)@.contains_key(id) {
            old(order)@
        } else {
            old(order)@.push(id)
        },
{
    let known: Option<Vector2<S>> = match sums.get(&id) {
        Some(sum) => Some(*sum),
        None => None,
    };
    match known {
        Some(sum) => {
            sums.insert(id, sum.plus(force));
        },
        None => {
            order.push(id);
            sums.insert(id, Vector2::zero().plus(force));
        },
    }
}

/// The force on the hull and the fairings, the force on each container, and the containers in
/// the order of their first cells.
fn part_forces<S: Scalar>(labels: &HashMap<usize, WallKind>, forces: &Vec<Vector2<S>>) -> (r: (
    Vector2<S>,
    HashMap<usize, Vector2<S>>,
    Vec<usize>,
))
    requires
        forces@.len() == CELLS,
    ensures
        r.0 == hull_sum(labels@, forces@, CELLS as nat),
        container_forces_hold(labels@, forces@, r.1@, CELLS as nat),
        r.2@ == seen_containers(labels@, CELLS as nat),
{
    let mut hull: Vector2<S> = Vector2::zero();
    let mut sums: HashMap<usize, Vector2<S>> = HashMap::new();
    let mut order: Vec<usize> = Vec::new();
    let mut k: usize = 0;
    while k < CELLS
        invariant
            k <= CELLS,
            forces@.len() == CELLS,
            hull == hull_sum(labels@, forces@, k as nat),
            container_forces_hold(labels@, forces@, sums@, k as nat),
            order@ == seen_containers(labels@, k as nat),
        decreases CELLS - k,
    {
        let ghost sums_before = sums@;
        let ghost seen = seen_containers(labels@, k as nat);
        let force: Vector2<S> = forces[k];
        let kind: Option<WallKind> = match labels.get(&k) {
            Some(kind) => Some(*kind),
            None => None,
        };
        match kind {
            Some(WallKind::Container(id)) => {
                add_to_container(&mut sums, &mut order, id, force);
                proof {
                    lemma_seen_containers(labels@, k as nat);
                    if !seen.contains(id) {
                        assert forall|c: usize| c < k implies !#[trigger] of_container(
                            labels@,
                            c,
                            id,
                        ) by {}
                        lemma_unseen_container(labels@, forces@, id, k as nat);
                    }
                    let after = seen_containers(labels@, (k + 1) as nat);
                    assert(of_container(labels@, k, id));
                    assert forall|d: usize| #[trigger] sums@.contains_key(d) <==> after.contains(
                        d,
                    ) by {
                        if after.contains(d) && !seen.contains(d) {
                            assert(after == seen.push(id));
                        }
                        if seen.contains(d) {
                            let p = seen.index_of(d);
                            assert(after[p] == d);
                        }
                        if d == id && !seen.contains(id) {
                            assert(after[after.len() - 1] == id);
                        }
                    }
                }
            },
            Some(WallKind::Hull) => {
                hull = hull.plus(force);
            },
            Some(WallKind::Fairing) => {
                hull = hull.plus(force);
            },
            None => {},
        }
        k = k + 1;
    }
    (hull, sums, order)
}

/// What the trial of the ship `layout` shows once the fluid in `grid` has flowed round its
/// walls, which `labels` names. The cosine and the sine of the direction of the flow are
/// `cos_a` and `sin_a`.
pub fn test_layout<S: Scalar>(
    layout: &ShipLayout<S>,
    grid: &mut Grid<S>,
    labels: &HashMap<usize, WallKind>,
    cos_a: S,
    sin_a: S,
) -> (r: LayoutResult<S>)
    requires
        old(grid).wf(),
        names_cells(labels@),
    ensures
        final(grid).wf(),
        final(grid).cells == old(grid).cells,
        !final(grid).wall_topology_dirty,
        !old(grid).wall_topology_dirty ==> *final(grid) == *old(grid),
        r.layout_name@ == layout.name@,
        r.hull_force == hull_sum(
            labels@,
            pressure_computation::cell_forces(old(grid).cells@),
            CELLS as nat,
        ),
        container_forces_hold(
            labels@,
            pressure_computation::cell_forces(old(grid).cells@),
            r.container_forces@,
            CELLS as nat,
        ),
        r.total_drag == drag_spec(
            total_force(labels@, pressure_computation::cell_forces(old(grid).cells@)),
            cos_a,
            sin_a,
        ),
        r.total_torque == torque_sum(
            pressure_computation::forces_on_objects(old(grid).cells@),
            pressure_computation::forces_on_objects(old(grid).cells@).len(),
        ),
        r.score == score_spec(r.total_drag, r.total_torque),
{
    let forces: Vec<Vector2<S>> = grid.compute_wall_forces();
    let (hull_force, container_forces, order) = part_forces(labels, &forces);
    let mut total: Vector2<S> = hull_force;
    let mut n: usize = 0;
    while n < order.len()
        invariant
            n <= order@.len(),
            order@ == seen_containers(labels@, CELLS as nat),
            container_forces_hold(labels@, forces@, container_forces@, CELLS as nat),
            total == with_containers(hull_force, labels@, forces@, order@, n as nat),
        decreases order@.len() - n,
    {
        let id: usize = order[n];
        assert(order@.contains(id));
        if let Some(force) = container_forces.get(&id) {
            total = total.plus(*force);
        }
        n = n + 1;
    }
    let total_drag: S = total.x.times(cos_a).plus(total.y.times(sin_a));
    let objects: Vec<ObjectForce<S>> = grid.compute_object_forces();
    let mut total_torque: S = S::whole(0);
    let mut m: usize = 0;
    while m < objects.len()
        invariant
            m <= objects@.len(),
            total_torque == torque_sum(objects@, m as nat),
        decreases objects@.len() - m,
    {
        total_torque = total_torque.plus(objects[m].torque.size());
        m = m + 1;
    }
    let score: S = conditions::drag_weight::<S>().times(total_drag.size()).plus(
        conditions::torque_weight::<S>().times(total_torque),
    );
    LayoutResult {
        layout_name: layout.name.clone(),
        hull_force,
        container_forces,
        total_drag,
        total_torque,
        score,
    }
}

/// `a` and `b` can be put in order: `a` is at most `b` unless `b` is below `a`, and what is
/// below is at most.
pub open spec fn comparable<S: Scalar>(a: S, b: S) -> bool {
    &&& a.at_most_spec(b) <==> !b.below_spec(a)
    &&& a.below_spec(b) ==> a.at_most_spec(b)
}

/// Any two of `results` have scores that can be put in order.
pub open spec fn all_comparable<S: Scalar>(results: Seq<LayoutResult<S>>) -> bool {
    forall|m: int, n: int|
        0 <= m < results.len() && 0 <= n < results.len() && m != n ==> comparable(
            (#[trigger] results[m]).score,
            (#[trigger] results[n]).score,
        )
}

/// `ranking` holds the results `results`, place `k` the one that was at place `order[k]`, such
/// that no score is above the next, and one that stood before another stands behind it only if
/// its score is above the other's.
pub open spec fn ranked<S: Scalar>(
    results: Seq<LayoutResult<S>>,
    ranking: Seq<LayoutResult<S>>,
    order: Seq<int>,
) -> bool {
    &&& ranking.len() == results.len()
    &&& order.len() == results.len()
    &&& forall|k: int|
        0 <= k < order.len() ==> 0 <= #[trigger] order[k] < results.len() && ranking[k]
            == results[order[k]]
    &&& forall|j: int, k: int| 0 <= j < k < order.len() ==> order[j] != order[k]
    &&& forall|k: int|
        0 < k < ranking.len() ==> ranking[k - 1].score.at_most_spec((#[trigger] ranking[k]).score)
    &&& forall|j: int, k: int|
        0 <= j < k < order.len() && (#[trigger] order[k]) < #[trigger] order[j]
            ==> ranking[j].score.below_spec(ranking[k].score)
}

proof fn lemma_ranking_grows<S: Scalar>(
    results: Seq<LayoutResult<S>>,
    ranking: Seq<LayoutResult<S>>,
    order: Seq<int>,
    n: int,
    p: int,
)
    requires
        all_comparable(results),
        0 <= n < results.len(),
        ranked(results.take(n), ranking, order),
        0 <= p <= n,
        forall|q: int|
            p <= q < n ==> results[n].score.below_spec((#[trigger] ranking[q]).score),
        p > 0 ==> !results[n].score.below_spec(ranking[p - 1].score),
    ensures
        ranked(results.take(n + 1), ranking.insert(p, results[n]), order.insert(p, n)),
{
    let x = results[n];
    let old_results = results.take(n);
    let new_results = results.take(n + 1);
    let new_ranking = ranking.insert(p, x);
    let new_order = order.insert(p, n);
    assert forall|k: int| 0 <= k < new_order.len() implies 0 <= #[trigger] new_order[k]
        < new_results.len() && new_ranking[k] == new_results[new_order[k]] by {
        if k < p {
            assert(new_order[k] == order[k] && new_ranking[k] == ranking[k]);
            assert(ranking[k] == old_results[order[k]]);
        } else if k > p {
            assert(new_order[k] == order[k - 1] && new_ranking[k] == ranking[k - 1]);
            assert(ranking[k - 1] == old_results[order[k - 1]]);
        }
    }
    assert forall|j: int, k: int| 0 <= j < k < new_order.len() implies new_order[j]
        != new_order[k] by {
        let a = if j < p {
            j
        } else {
            j - 1
        };
        let b = if k < p {
            k
        } else {
            k - 1
        };
        if j != p {
            assert(new_order[j] == order[a] && 0 <= order[a] < n);
        }
        if k != p {
            assert(new_order[k] == order[b] && 0 <= order[b] < n);
        }
    }
    assert forall|k: int| 0 < k < new_ranking.len() implies new_ranking[k
        - 1].score.at_most_spec((#[trigger] new_ranking[k]).score) by {
        if k < p {
            assert(new_ranking[k] == ranking[k] && new_ranking[k - 1] == ranking[k - 1]);
        } else if k == p {
            assert(ranking[p - 1] == old_results[order[p - 1]]);
            assert(results[order[p - 1]] == ranking[p - 1]);
            assert(comparable(results[order[p - 1]].score, results[n].score));
        } else if k == p + 1 {
            assert(new_ranking[k] == ranking[p]);
            assert(ranking[p] == old_results[order[p]]);
            assert(results[order[p]] == ranking[p]);
            assert(comparable(results[n].score, results[order[p]].score));
        } else {
            assert(new_ranking[k] == ranking[k - 1] && new_ranking[k - 1] == ranking[k - 2]);
        }
    }
    assert forall|j: int, k: int|
        0 <= j < k < new_order.len() && (#[trigger] new_order[k])
            < #[trigger] new_order[j] implies new_ranking[j].score.below_spec(
        new_ranking[k].score,
    ) by {
        if j == p {
            assert(new_ranking[k] == ranking[k - 1]);
        } else {
            let a = if j < p {
                j
            } else {
                j - 1
            };
            assert(new_order[j] == order[a] && 0 <= order[a] < n);
            let b = if k < p {
                k
            } else {
                k - 1
            };
            if k != p {
                assert(new_order[k] == order[b]);
            }
        }
    }
}

/// The ranking of `results` by their scores, the smallest first. Equal scores keep their order.
pub fn compare_layouts<S: Scalar>(results: Vec<LayoutResult<S>>) -> (ranking: Vec<
    LayoutResult<S>,
>)
    requires
        all_comparable(results@),
    ensures
        exists|order: Seq<int>| #[trigger] ranked(results@, ranking@, order),
{
    let ghost all = results@;
    let mut rest: Vec<LayoutResult<S>> = results;
    let mut ranking: Vec<LayoutResult<S>> = Vec::new();
    let ghost mut order: Seq<int> = Seq::empty();
    let ghost mut n: int = 0;
    while rest.len() > 0
        invariant
            0 <= n <= all.len(),
            all_comparable(all),
            rest@ == all.skip(n),
            ranked(all.take(n), ranking@, order),
        decreases rest@.len(),
    {
        let result: LayoutResult<S> = rest.remove(0);
        let mut p: usize = ranking.len();
        while p > 0 && result.score.below(ranking[p - 1].score)
            invariant
                p <= ranking@.len(),
                forall|q: int|
                    p <= q < ranking@.len() ==> result.score.below_spec(
                        (#[trigger] ranking@[q]).score,
                    ),
            decreases p,
        {
            p = p - 1;
        }
        proof {
            assert(result == all[n]);
            lemma_ranking_grows(all, ranking@, order, n, p as int);
            order = order.insert(p as int, n);
            n = n + 1;
            assert(rest@ =~= all.skip(n));
        }
        ranking.insert(p, result);
    }
    proof {
        assert(all.take(n) =~= all);
    }
    ranking
}

/// Whether any two of `results` have scores that can be put in order.
pub fn check_scores<S: Scalar>(results: &Vec<LayoutResult<S>>) -> (ok: bool)
    ensures
        ok == all_comparable(results@),
{
    let mut m: usize = 0;
    while m < results.len()
        invariant
            m <= results@.len(),
            forall|p: int, n: int|
                0 <= p < m && 0 <= n < results@.len() && p != n ==> comparable(
                    (#[trigger] results@[p]).score,
                    (#[trigger] results@[n]).score,
                ),
        decreases results@.len() - m,
    {
        let a: S = results[m].score;
        let mut n: usize = 0;
        while n < results.len()
            invariant
                m < results@.len(),
                n <= results@.len(),
                a == results@[m as int].score,
                forall|q: int|
                    0 <= q < n && q != m ==> comparable(a, (#[trigger] results@[q]).score),
            decreases results@.len() - n,
        {
            let b: S = results[n].score;
            let at_most: bool = a.at_most(b);
            if m != n && (at_most == b.below(a) || (a.below(b) && !at_most)) {
                assert(!comparable(results@[m as int].score, results@[n as int].score));
                return false;
            }
            n = n + 1;
        }
        m = m + 1;
    }
    true
}

/// In a ranking each score is at most every later one, where what is at most goes on from one
/// to the next.
pub proof fn lemma_ranking_sorted<S: Scalar>(
    results: Seq<LayoutResult<S>>,
    ranking: Seq<LayoutResult<S>>,
    order: Seq<int>,
    j: int,
    k: int,
)
    requires
        ranked(results, ranking, order),
        forall|a: S, b: S, c: S| #[trigger]
            a.at_most_spec(b) && #[trigger] b.at_most_spec(c) ==> a.at_most_spec(c),
        0 <= j < k < ranking.len(),
    ensures
        ranking[j].score.at_most_spec(ranking[k].score),
    decreases k - j,
{
    assert(ranking[k - 1].score.at_most_spec(ranking[k].score));
    if j < k - 1 {
        lemma_ranking_sorted(results, ranking, order, j, k - 1);
    }
}

/// Nothing is lost in a ranking: every result has its place in it.
pub proof fn lemma_ranking_complete<S: Scalar>(
    results: Seq<LayoutResult<S>>,
    ranking: Seq<LayoutResult<S>>,
    order: Seq<int>,
    n: int,
)
    requires
        ranked(results, ranking, order),
        0 <= n < results.len(),
    ensures
        exists|k: int| 0 <= k < ranking.len() && #[trigger] order[k] == n,
        ranking.contains(results[n]),
{
    let places = Set::new(|i: int| 0 <= i < results.len());
    vstd::set_lib::lemma_int_range(0, results.len() as int);
    order.unique_seq_to_set();
    assert(places =~= vstd::set_lib::set_int_range(0, results.len() as int));
    assert(order.to_set().subset_of(places)) by {
        assert forall|i: int| order.to_set().contains(i) implies places.contains(i) by {
            let k = order.index_of(i);
            assert(order[k] == i);
        }
    }
    vstd::set_lib::lemma_subset_equality(order.to_set(), places);
    assert(order.to_set().contains(n));
    let k = order.index_of(n);
    assert(order[k] == n);
    assert(ranking[k] == results[n]);
}

/// The forces along the rows, or along the columns, on those cells of the ship that belong to the
/// hull, to a fairing, or to one of the containers `ids`, in steps.
pub open spec fn force_on_parts(
    labels: Map<usize, WallKind>,
    forces: Seq<Vector2<Fixed>>,
    hull: bool,
    ids: Seq<usize>,
    rows: bool,
) -> spec_fn(int) -> int {
    |k: int|
        if labels.contains_key(k as usize) && match labels[k as usize] {
            WallKind::Container(id) => ids.contains(id),
            _ => hull,
        } {
            if rows {
                forces[k].x.raw as int
            } else {
                forces[k].y.raw as int
            }
        } else {
            0
        }
}

/// The forces along the rows, or along the columns, on all cells of the ship, in steps.
pub open spec fn force_on_ship(
    labels: Map<usize, WallKind>,
    forces: Seq<Vector2<Fixed>>,
    rows: bool,
) -> spec_fn(int) -> int {
    |k: int|
        if labels.contains_key(k as usize) {
            if rows {
                forces[k].x.raw as int
            } else {
                forces[k].y.raw as int
            }
        } else {
            0
        }
}

proof fn lemma_parts_bounded(
    labels: Map<usize, WallKind>,
    forces: Seq<Vector2<Fixed>>,
    hull: bool,
    ids: Seq<usize>,
    rows: bool,
    n: nat,
)
    requires
        n <= CELLS,
        forces.len() == CELLS,
        force_laws::forces_small(forces),
    ensures
        -15_300_000_000 * n <= force_laws::added(
            force_on_parts(labels, forces, hull, ids, rows),
            n,
        ) <= 15_300_000_000 * n,
    decreases n,
{
    if n > 0 {
        lemma_parts_bounded(labels, forces, hull, ids, rows, (n - 1) as nat);
        assert(-30 * fixed::ONE <= forces[n - 1].x.raw <= 30 * fixed::ONE);
    }
}

proof fn lemma_hull_adds(labels: Map<usize, WallKind>, forces: Seq<Vector2<Fixed>>, n: nat)
    requires
        n <= CELLS,
        forces.len() == CELLS,
        force_laws::forces_small(forces),
    ensures
        hull_sum(labels, forces, n).x.raw == force_laws::added(
            force_on_parts(labels, forces, true, Seq::empty(), true),
            n,
        ),
        hull_sum(labels, forces, n).y.raw == force_laws::added(
            force_on_parts(labels, forces, true, Seq::empty(), false),
            n,
        ),
    decreases n,
{
    if n > 0 {
        lemma_hull_adds(labels, forces, (n - 1) as nat);
        lemma_parts_bounded(labels, forces, true, Seq::empty(), true, (n - 1) as nat);
        lemma_parts_bounded(labels, forces, true, Seq::empty(), false, (n - 1) as nat);
        assert(-30 * fixed::ONE <= forces[n - 1].x.raw <= 30 * fixed::ONE);
    }
}

/// The force on a container is the sum of the forces on its cells.
pub proof fn lemma_container_adds(
    labels: Map<usize, WallKind>,
    forces: Seq<Vector2<Fixed>>,
    id: usize,
    n: nat,
)
    requires
        n <= CELLS,
        forces.len() == CELLS,
        force_laws::forces_small(forces),
    ensures
        container_sum(labels, forces, id, n).x.raw == force_laws::added(
            force_on_parts(labels, forces, false, seq![id], true),
            n,
        ),
        container_sum(labels, forces, id, n).y.raw == force_laws::added(
            force_on_parts(labels, forces, false, seq![id], false),
            n,
        ),
    decreases n,
{
    if n > 0 {
        lemma_container_adds(labels, forces, id, (n - 1) as nat);
        lemma_parts_bounded(labels, forces, false, seq![id], true, (n - 1) as nat);
        lemma_parts_bounded(labels, forces, false, seq![id], false, (n - 1) as nat);
        assert(-30 * fixed::ONE <= forces[n - 1].x.raw <= 30 * fixed::ONE);
        assert(seq![id][0] == id);
        assert(forall|d: usize| #[trigger] seq![id].contains(d) ==> d == id);
    }
}

proof fn lemma_parts_join(
    labels: Map<usize, WallKind>,
    forces: Seq<Vector2<Fixed>>,
    ids: Seq<usize>,
    id: usize,
    rows: bool,
    n: nat,
)
    requires
        !ids.contains(id),
    ensures
        force_laws::added(force_on_parts(labels, forces, true, ids.push(id), rows), n)
            == force_laws::added(force_on_parts(labels, forces, true, ids, rows), n)
            + force_laws::added(force_on_parts(labels, forces, false, seq![id], rows), n),
    decreases n,
{
    if n > 0 {
        lemma_parts_join(labels, forces, ids, id, rows, (n - 1) as nat);
        let k = (n - 1) as usize;
        assert(seq![id][0] == id);
        assert(forall|d: usize| #[trigger] seq![id].contains(d) ==> d == id);
        assert(ids.push(id)[ids.len() as int] == id);
        assert forall|d: usize| #[trigger] ids.push(id).contains(d) <==> ids.contains(d) || d
            == id by {
            if ids.contains(d) {
                assert(ids.push(id)[ids.index_of(d)] == d);
            }
        }
    }
}

proof fn lemma_with_containers_adds(
    labels: Map<usize, WallKind>,
    forces: Seq<Vector2<Fixed>>,
    ids: Seq<usize>,
    m: nat,
)
    requires
        m <= ids.len(),
        ids.no_duplicates(),
        forces.len() == CELLS,
        force_laws::forces_small(forces),
    ensures
        ({
            let sum = with_containers(
                hull_sum(labels, forces, CELLS as nat),
                labels,
                forces,
                ids,
                m,
            );
            let some = ids.take(m as int);
            &&& sum.x.raw == force_laws::added(
                force_on_parts(labels, forces, true, some, true),
                CELLS as nat,
            )
            &&& sum.y.raw == force_laws::added(
                force_on_parts(labels, forces, true, some, false),
                CELLS as nat,
            )
        }),
    decreases m,
{
    let n = CELLS as nat;
    if m == 0 {
        lemma_hull_adds(labels, forces, n);
        assert(ids.take(0) =~= Seq::empty());
    } else {
        lemma_with_containers_adds(labels, forces, ids, (m - 1) as nat);
        let some = ids.take(m - 1);
        let id = ids[m - 1];
        assert(ids.take(m as int) =~= some.push(id));
        assert(!some.contains(id)) by {
            if some.contains(id) {
                assert(ids[some.index_of(id)] == id);
            }
        }
        lemma_parts_join(labels, forces, some, id, true, n);
        lemma_parts_join(labels, forces, some, id, false, n);
        lemma_container_adds(labels, forces, id, n);
        lemma_parts_bounded(labels, forces, true, some, true, n);
        lemma_parts_bounded(labels, forces, true, some, false, n);
        lemma_parts_bounded(labels, forces, false, seq![id], true, n);
        lemma_parts_bounded(labels, forces, false, seq![id], false, n);
    }
}

proof fn lemma_all_parts(
    labels: Map<usize, WallKind>,
    forces: Seq<Vector2<Fixed>>,
    ids: Seq<usize>,
    rows: bool,
    n: nat,
)
    requires
        n <= CELLS,
        forall|k: usize, id: usize|
            k < CELLS && #[trigger] of_container(labels, k, id) ==> ids.contains(id),
    ensures
        force_laws::added(force_on_parts(labels, forces, true, ids, rows), n)
            == force_laws::added(force_on_ship(labels, forces, rows), n),
    decreases n,
{
    if n > 0 {
        lemma_all_parts(labels, forces, ids, rows, (n - 1) as nat);
        let k = (n - 1) as usize;
        if labels.contains_key(k) && labels[k] is Container {
            assert(of_container(labels, k, labels[k]->0));
        }
    }
}

/// The force on a ship is the sum of the forces on all its cells: those of the hull, of the fairings
/// and of every container, each counted once.
pub proof fn lemma_ship_force_adds(labels: Map<usize, WallKind>, forces: Seq<Vector2<Fixed>>)
    requires
        forces.len() == CELLS,
        force_laws::forces_small(forces),
    ensures
        total_force(labels, forces).x.raw == force_laws::added(
            force_on_ship(labels, forces, true),
            CELLS as nat,
        ),
        total_force(labels, forces).y.raw == force_laws::added(
            force_on_ship(labels, forces, false),
            CELLS as nat,
        ),
{
    let ids = seen_containers(labels, CELLS as nat);
    lemma_seen_containers(labels, CELLS as nat);
    lemma_with_containers_adds(labels, forces, ids, ids.len());
    assert(ids.take(ids.len() as int) =~= ids);
    lemma_all_parts(labels, forces, ids, true, CELLS as nat);
    lemma_all_parts(labels, forces, ids, false, CELLS as nat);
}

/// The force on the hull is the sum of the forces on the cells of the hull and the fairings.
pub proof fn lemma_hull_force_adds(labels: Map<usize, WallKind>, forces: Seq<Vector2<Fixed>>)
    requires
        forces.len() == CELLS,
        force_laws::forces_small(forces),
    ensures
        hull_sum(labels, forces, CELLS as nat).x.raw == force_laws::added(
            force_on_parts(labels, forces, true, Seq::empty(), true),
            CELLS as nat,
        ),
        hull_sum(labels, forces, CELLS as nat).y.raw == force_laws::added(
            force_on_parts(labels, forces, true, Seq::empty(), false),
            CELLS as nat,
        ),
{
    lemma_hull_adds(labels, forces, CELLS as nat);
}

/// The drag is the part of the force in the direction of the flow, up to rounding: the scalar product
/// of the two. A flow along the rows, or along the columns, leaves the force along them.
pub proof fn lemma_drag_is_scalar_product(total: Vector2<Fixed>, cos_a: Fixed, sin_a: Fixed)
    requires
        -1_000_000_000 * fixed::ONE <= total.x.raw <= 1_000_000_000 * fixed::ONE,
        -1_000_000_000 * fixed::ONE <= total.y.raw <= 1_000_000_000 * fixed::ONE,
        -fixed::ONE <= cos_a.raw <= fixed::ONE,
        -fixed::ONE <= sin_a.raw <= fixed::ONE,
    ensures
        fixed::differ_less(
            fixed::ONE * drag_spec(total, cos_a, sin_a).raw,
            total.x.raw * cos_a.raw + total.y.raw * sin_a.raw,
            2 * fixed::ONE,
        ),
        cos_a.raw == fixed::ONE && sin_a.raw == 0 ==> drag_spec(total, cos_a, sin_a) == total.x,
        cos_a.raw == 0 && sin_a.raw == fixed::ONE ==> drag_spec(total, cos_a, sin_a) == total.y,
{
    lemma_part_of_force(total.x, cos_a);
    lemma_part_of_force(total.y, sin_a);
    fixed::lemma_times_one(total.x);
    fixed::lemma_times_one(total.y);
    fixed::lemma_times_zero(total.x);
    fixed::lemma_times_zero(total.y);
    if cos_a.raw == fixed::ONE && sin_a.raw == 0 {
        assert(cos_a == Fixed::whole_spec(1) && sin_a == Fixed::whole_spec(0));
    }
    if cos_a.raw == 0 && sin_a.raw == fixed::ONE {
        assert(cos_a == Fixed::whole_spec(0) && sin_a == Fixed::whole_spec(1));
    }
}

proof fn lemma_part_of_force(f: Fixed, c: Fixed)
    requires
        -1_000_000_000 * fixed::ONE <= f.raw <= 1_000_000_000 * fixed::ONE,
        -fixed::ONE <= c.raw <= fixed::ONE,
    ensures
        fixed::differ_less(
            fixed::ONE * f.times_spec(c).raw,
            f.raw * c.raw,
            fixed::ONE as int,
        ),
        -1_000_000_001 * fixed::ONE <= f.times_spec(c).raw <= 1_000_000_001 * fixed::ONE,
{
    let n = f.raw * c.raw;
    assert(-1_000_000_000 * 510_000_000 * 510_000_000 <= n <= 1_000_000_000 * 510_000_000
        * 510_000_000) by (nonlinear_arith)
        requires
            n == f.raw * c.raw,
            -1_000_000_000 * 510_000_000 <= f.raw <= 1_000_000_000 * 510_000_000,
            -510_000_000 <= c.raw <= 510_000_000,
    ;
    fixed::lemma_times_near(f, c);
}

/// The score is the size of the drag and the moments together, and does not tell a drag from one in
/// the other direction.
pub proof fn lemma_score_adds(drag: Fixed, torque: Fixed)
    requires
        fixed::in_bounds(drag.raw as int),
        fixed::in_bounds(drag.raw + torque.raw),
        fixed::in_bounds(torque.raw - drag.raw),
    ensures
        drag.raw >= 0 ==> score_spec(drag, torque).raw == drag.raw + torque.raw,
        drag.raw <= 0 ==> score_spec(drag, torque).raw == torque.raw - drag.raw,
        score_spec(drag.negated_spec(), torque) == score_spec(drag, torque),
{
    fixed::lemma_times_one(drag.size_spec());
    fixed::lemma_times_one(torque);
    fixed::lemma_times_one(drag.negated_spec().size_spec());
}

/// The sizes of the moments on the objects, in steps.
pub open spec fn torque_sizes(objects: Seq<ObjectForce<Fixed>>) -> spec_fn(int) -> int {
    |k: int|
        if objects[k].torque.raw < 0 {
            -objects[k].torque.raw
        } else {
            objects[k].torque.raw as int
        }
}

/// The moments on the objects add up by size, whichever way each of them turns.
pub proof fn lemma_torques_add(objects: Seq<ObjectForce<Fixed>>, n: nat)
    requires
        n <= objects.len(),
        n <= CELLS,
        forall|k: int|
            0 <= k < objects.len() ==> -0x1000_0000_0000 <= (#[trigger] objects[k]).torque.raw
                <= 0x1000_0000_0000,
    ensures
        torque_sum(objects, n).raw == force_laws::added(torque_sizes(objects), n),
        0 <= torque_sum(objects, n).raw <= 0x1000_0000_0000 * n,
    decreases n,
{
    if n > 0 {
        lemma_torques_add(objects, (n - 1) as nat);
        assert(-0x1000_0000_0000 <= objects[n - 1].torque.raw <= 0x1000_0000_0000);
    }
}

} // verus!
