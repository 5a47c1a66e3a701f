//! The forces on the objects over time, and the time that a step takes.
use std::collections::HashMap;
use vstd::prelude::*;
use crate::fixed::Fixed;
use crate::pressure_computation::ObjectForce;
use crate::scalar::Scalar;

verus! {

broadcast use vstd::std_specs::hash::group_hash_axioms;

/// The last forces on one object: for each step its number and the value.
#[derive(Debug)]
pub struct ObjectHistory<S> {
    pub drag: Vec<(usize, S)>,
    pub torque: Vec<(usize, S)>,
    /// The number of its cells, when last seen.
    pub last_cell_count: usize,
    /// The column of its centre of mass, when last seen.
    pub last_center_x: S,
}

/// The last forces on one object.
#[verifier::ext_equal]
pub struct ObjectTrace<S> {
    pub drag: Seq<(usize, S)>,
    pub torque: Seq<(usize, S)>,
    pub last_cell_count: usize,
    pub last_center_x: S,
}

impl<S> View for ObjectHistory<S> {
    type V = ObjectTrace<S>;

    open spec fn view(&self) -> ObjectTrace<S> {
        ObjectTrace {
            drag: self.drag@,
            torque: self.torque@,
            last_cell_count: self.last_cell_count,
            last_center_x: self.last_center_x,
        }
    }
}

/// The last forces on each object, by its number.
#[derive(Debug)]
pub struct ForceHistories<S> {
    pub per_object: HashMap<usize, ObjectHistory<S>>,
    /// The number of the next step.
    pub step: usize,
    /// The most steps that are kept.
    pub max_points: usize,
}

/// `points` with `point` behind them, but without the first of them if `full`.
pub open spec fn slid<T>(points: Seq<T>, point: T, full: bool) -> Seq<T> {
    if full {
        points.push(point).skip(1)
    } else {
        points.push(point)
    }
}

/// An object of which nothing is known.
pub open spec fn blank<S: Scalar>() -> ObjectTrace<S> {
    ObjectTrace {
        drag: Seq::empty(),
        torque: Seq::empty(),
        last_cell_count: 0,
        last_center_x: S::whole_spec(0),
    }
}

/// `trace` with the forces of the step `step` on its object, with at most `max` steps kept.
pub open spec fn with_forces<S: Scalar>(
    trace: ObjectTrace<S>,
    step: usize,
    max: usize,
    object: ObjectForce<S>,
) -> ObjectTrace<S> {
    let full = trace.drag.len() + 1 > max;
    ObjectTrace {
        drag: slid(trace.drag, (step, object.total_force.x), full),
        torque: slid(trace.torque, (step, object.torque), full),
        last_cell_count: object.cell_count,
        last_center_x: object.center_of_mass.x,
    }
}

/// `traces` with the forces of the step `step` on the first `n` of `objects`.
pub open spec fn with_objects<S: Scalar>(
    traces: Map<usize, ObjectTrace<S>>,
    step: usize,
    max: usize,
    objects: Seq<ObjectForce<S>>,
    n: nat,
) -> Map<usize, ObjectTrace<S>>
    decreases n,
{
    if n == 0 {
        traces
    } else {
        let rest = with_objects(traces, step, max, objects, (n - 1) as nat);
        let object = objects[n - 1];
        let trace = if rest.contains_key(object.id) {
            rest[object.id]
        } else {
            blank()
        };
        rest.insert(object.id, with_forces(trace, step, max, object))
    }
}

/// The histories, as mathematical sequences.
pub open spec fn traces_of<S>(histories: Map<usize, ObjectHistory<S>>) -> Map<
    usize,
    ObjectTrace<S>,
> {
    histories.map_values(|h: ObjectHistory<S>| h@)
}

/// `drag` and `torque` hold points of the same steps.
pub open spec fn same_steps<S>(drag: Seq<(usize, S)>, torque: Seq<(usize, S)>) -> bool {
    &&& drag.len() == torque.len()
    &&& forall|k: int| 0 <= k < drag.len() ==> (#[trigger] drag[k]).0 == torque[k].0
}

/// `traces` keep at most `max` steps, and of the moments the same steps as of the drags.
pub open spec fn windowed<S>(traces: Map<usize, ObjectTrace<S>>, max: usize) -> bool {
    forall|id: usize| #[trigger]
        traces.contains_key(id) ==> same_steps(traces[id].drag, traces[id].torque)
            && traces[id].drag.len() <= max
}

fn slide<T: Copy>(points: &mut Vec<T>, point: T, full: bool)
    ensures
        final(points)@ == slid(old(points)@, point, full),
{
    points.push(point);
    if full {
        let _first: T = points.remove(0);
        assert(points@ =~= old(points)@.push(point).skip(1));
    }
}

impl<S: Scalar> ForceHistories<S> {
    /// The last forces on each object.
    pub open spec fn traces(self) -> Map<usize, ObjectTrace<S>> {
        traces_of(self.per_object@)
    }

    /// No more steps are kept than there may be, and the same of the moments as of the drags.
    pub open spec fn wf(self) -> bool {
        windowed(self.traces(), self.max_points)
    }

    /// Histories without objects, that will keep at most `max_points` steps.
    pub fn new(max_points: usize) -> (r: Self)
        ensures
            r.wf(),
            r.traces() == Map::<usize, ObjectTrace<S>>::empty(),
            r.step == 0,
            r.max_points == max_points,
    {
        let r: Self = ForceHistories { per_object: HashMap::new(), step: 0, max_points };
        assert(r.traces() =~= Map::<usize, ObjectTrace<S>>::empty());
        r
    }

    /// Adds the forces of one step on `objects`.
    pub fn push(&mut self, objects: &Vec<ObjectForce<S>>)
        requires
            old(self).step < usize::MAX,
        ensures
            final(self).step == old(self).step + 1,
            final(self).max_points == old(self).max_points,
            final(self).traces() == with_objects(
                old(self).traces(),
                old(self).step,
                old(self).max_points,
                objects@,
                objects@.len(),
            ),
            old(self).wf() ==> final(self).wf(),
    {
        let ghost first = self.traces();
        let mut n: usize = 0;
        while n < objects.len()
            invariant
                n <= objects@.len(),
                self.step == old(self).step,
                self.max_points == old(self).max_points,
                self.traces() == with_objects(
                    first,
                    self.step,
                    self.max_points,
                    objects@,
                    n as nat,
                ),
            decreases objects@.len() - n,
        {
            let object: ObjectForce<S> = objects[n];
            let ghost before = self.per_object@;
            let mut entry: ObjectHistory<S> = match self.per_object.remove(&object.id) {
                Some(history) => history,
                None => ObjectHistory {
                    drag: Vec::new(),
                    torque: Vec::new(),
                    last_cell_count: 0,
                    last_center_x: S::whole(0),
                },
            };
            let ghost trace = entry@;
            assert(trace == if before.contains_key(object.id) {
                traces_of(before)[object.id]
            } else {
                blank()
            });
            let full: bool = entry.drag.len() >= self.max_points;
            slide(&mut entry.drag, (self.step, object.total_force.x), full);
            slide(&mut entry.torque, (self.step, object.torque), full);
            entry.last_cell_count = object.cell_count;
            entry.last_center_x = object.center_of_mass.x;
            assert(entry@ =~= with_forces(trace, self.step, self.max_points, object));
            self.per_object.insert(object.id, entry);
            assert(self.traces() =~= traces_of(before).insert(object.id, entry@));
            n = n + 1;
        }
        proof {
            if old(self).wf() {
                lemma_pushing_keeps_window(
                    first,
                    self.step,
                    self.max_points,
                    objects@,
                    objects@.len(),
                );
            }
        }
        self.step = self.step + 1;
    }

    /// Forgets all objects, and begins with step 0 again.
    pub fn clear(&mut self)
        ensures
            final(self).wf(),
            final(self).traces() == Map::<usize, ObjectTrace<S>>::empty(),
            final(self).step == 0,
            final(self).max_points == old(self).max_points,
    {
        self.per_object.clear();
        self.step = 0;
        assert(self.traces() =~= Map::<usize, ObjectTrace<S>>::empty());
    }
}

/// Adding a step keeps at most as many steps as there may be, and of the moments the same steps as
/// of the drags.
pub proof fn lemma_pushing_keeps_window<S: Scalar>(
    traces: Map<usize, ObjectTrace<S>>,
    step: usize,
    max: usize,
    objects: Seq<ObjectForce<S>>,
    n: nat,
)
    requires
        windowed(traces, max),
        n <= objects.len(),
    ensures
        windowed(with_objects(traces, step, max, objects, n), max),
    decreases n,
{
    if n > 0 {
        lemma_pushing_keeps_window(traces, step, max, objects, (n - 1) as nat);
        let rest = with_objects(traces, step, max, objects, (n - 1) as nat);
        let object = objects[n - 1];
        let trace = if rest.contains_key(object.id) {
            rest[object.id]
        } else {
            blank()
        };
        lemma_sliding_keeps_steps(
            trace.drag,
            trace.torque,
            step,
            object.total_force.x,
            object.torque,
            trace.drag.len() + 1 > max,
        );
    }
}

proof fn lemma_sliding_keeps_steps<S>(
    drag: Seq<(usize, S)>,
    torque: Seq<(usize, S)>,
    step: usize,
    a: S,
    b: S,
    full: bool,
)
    requires
        same_steps(drag, torque),
    ensures
        same_steps(slid(drag, (step, a), full), slid(torque, (step, b), full)),
{
    let longer_drag = drag.push((step, a));
    let longer_torque = torque.push((step, b));
    assert(same_steps(longer_drag, longer_torque));
    if full {
        assert forall|k: int| 0 <= k < longer_drag.skip(1).len() implies (
        #[trigger] longer_drag.skip(1)[k]).0 == longer_torque.skip(1)[k].0 by {
            assert(longer_drag[k + 1].0 == longer_torque[k + 1].0);
        }
    }
}

/// Adding a step leaves the objects that it does not name as they were, and forgets none.
pub proof fn lemma_pushing_keeps_others<S: Scalar>(
    traces: Map<usize, ObjectTrace<S>>,
    step: usize,
    max: usize,
    objects: Seq<ObjectForce<S>>,
    n: nat,
    id: usize,
)
    requires
        n <= objects.len(),
    ensures
        traces.contains_key(id) ==> with_objects(traces, step, max, objects, n).contains_key(id),
        (forall|m: int| 0 <= m < n ==> (#[trigger] objects[m]).id != id) ==> {
            &&& with_objects(traces, step, max, objects, n).contains_key(id)
                == traces.contains_key(id)
            &&& with_objects(traces, step, max, objects, n)[id] == traces[id]
        },
    decreases n,
{
    if n > 0 {
        lemma_pushing_keeps_others(traces, step, max, objects, (n - 1) as nat, id);
    }
}

/// The steps of an object are in order: each of `points` was added at a later step than the one
/// before, and before the step `step`.
pub open spec fn in_order<S>(points: Seq<(usize, S)>, step: usize) -> bool {
    &&& forall|m: int, n: int| 0 <= m < n < points.len() ==> points[m].0 < points[n].0
    &&& forall|n: int| 0 <= n < points.len() ==> (#[trigger] points[n]).0 < step
}

/// Adding a step keeps the steps of an object in order, whether or not the first is dropped.
pub proof fn lemma_sliding_keeps_order<S>(
    points: Seq<(usize, S)>,
    step: usize,
    value: S,
    full: bool,
)
    requires
        in_order(points, step),
        step < usize::MAX,
    ensures
        in_order(slid(points, (step, value), full), (step + 1) as usize),
{
    let longer = points.push((step, value));
    assert(in_order(longer, (step + 1) as usize));
    if full {
        let after = longer.skip(1);
        assert forall|m: int, n: int| 0 <= m < n < after.len() implies after[m].0 < after[n].0 by {
            assert(after[m] == longer[m + 1]);
            assert(after[n] == longer[n + 1]);
        }
    }
}

/// The steps of all objects are in order and before the step `step`.
pub open spec fn all_in_order<S>(traces: Map<usize, ObjectTrace<S>>, step: usize) -> bool {
    forall|id: usize| #[trigger]
        traces.contains_key(id) ==> in_order(traces[id].drag, step) && in_order(
            traces[id].torque,
            step,
        )
}

/// No two of `objects` have the same number.
pub open spec fn distinct<S>(objects: Seq<ObjectForce<S>>) -> bool {
    forall|m: int, n: int|
        0 <= m < n < objects.len() ==> (#[trigger] objects[m]).id != (#[trigger] objects[n]).id
}

/// Adding a step keeps the steps of all objects in order.
pub proof fn lemma_pushing_keeps_order<S: Scalar>(
    traces: Map<usize, ObjectTrace<S>>,
    step: usize,
    max: usize,
    objects: Seq<ObjectForce<S>>,
)
    requires
        all_in_order(traces, step),
        distinct(objects),
        step < usize::MAX,
    ensures
        all_in_order(
            with_objects(traces, step, max, objects, objects.len()),
            (step + 1) as usize,
        ),
{
    lemma_pushing_some_keeps_order(traces, step, max, objects, objects.len());
}

proof fn lemma_pushing_some_keeps_order<S: Scalar>(
    traces: Map<usize, ObjectTrace<S>>,
    step: usize,
    max: usize,
    objects: Seq<ObjectForce<S>>,
    n: nat,
)
    requires
        all_in_order(traces, step),
        distinct(objects),
        step < usize::MAX,
        n <= objects.len(),
    ensures
        all_in_order(with_objects(traces, step, max, objects, n), (step + 1) as usize),
        forall|m: int|
            n <= m < objects.len() && with_objects(traces, step, max, objects, n).contains_key(
                (#[trigger] objects[m]).id,
            ) ==> traces.contains_key(objects[m].id) && with_objects(
                traces,
                step,
                max,
                objects,
                n,
            )[objects[m].id] == traces[objects[m].id],
    decreases n,
{
    if n > 0 {
        lemma_pushing_some_keeps_order(traces, step, max, objects, (n - 1) as nat);
        let rest = with_objects(traces, step, max, objects, (n - 1) as nat);
        let object = objects[n - 1];
        let trace = if rest.contains_key(object.id) {
            rest[object.id]
        } else {
            blank()
        };
        let full = trace.drag.len() + 1 > max;
        assert(in_order(trace.drag, step) && in_order(trace.torque, step));
        lemma_sliding_keeps_order(trace.drag, step, object.total_force.x, full);
        lemma_sliding_keeps_order(trace.torque, step, object.torque, full);
    }
}

/// The last times that a step has taken: for each step its number and the time.
#[derive(Debug)]
pub struct TickHistory<T> {
    pub points: Vec<(usize, T)>,
    /// The most steps that are kept.
    pub max_points: usize,
    /// The number of the next step.
    pub step: usize,
}

impl<T: Copy> TickHistory<T> {
    /// A history without steps, that will keep at most `max_points`.
    pub fn new(max_points: usize) -> (r: Self)
        ensures
            r.points@ == Seq::<(usize, T)>::empty(),
            r.max_points == max_points,
            r.step == 0,
    {
        TickHistory { points: Vec::new(), max_points, step: 0 }
    }

    /// Adds a step that has taken the time `time`.
    pub fn push(&mut self, time: T)
        requires
            old(self).step < usize::MAX,
        ensures
            final(self).points@ == slid(
                old(self).points@,
                (old(self).step, time),
                old(self).points@.len() + 1 > old(self).max_points,
            ),
            final(self).max_points == old(self).max_points,
            final(self).step == old(self).step + 1,
            old(self).points@.len() <= old(self).max_points ==> final(self).points@.len()
                <= final(self).max_points,
    {
        let full: bool = self.points.len() >= self.max_points;
        slide(&mut self.points, (self.step, time), full);
        self.step = self.step + 1;
    }
}

/// An object of the trace `trace` is shown: it has enough cells, and does not lie before the
/// column `min_column`.
pub open spec fn shown<S: Scalar>(trace: ObjectTrace<S>, min_cells: usize, min_column: S) -> bool {
    trace.last_cell_count >= min_cells && !trace.last_center_x.below_spec(min_column)
}

/// Puts `id` in its place among the ascending numbers `ids`.
fn insert_sorted(ids: &mut Vec<usize>, id: usize)
    requires
        forall|m: int, n: int| 0 <= m < n < old(ids)@.len() ==> old(ids)@[m] < old(ids)@[n],
        !old(ids)@.contains(id),
    ensures
        forall|m: int, n: int| 0 <= m < n < final(ids)@.len() ==> final(ids)@[m] < final(ids)@[n],
        forall|d: usize| #[trigger]
            final(ids)@.contains(d) <==> d == id || old(ids)@.contains(d),
{
    let mut p: usize = ids.len();
    while p > 0 && ids[p - 1] > id
        invariant
            p <= ids@.len(),
            ids@ == old(ids)@,
            forall|n: int| p <= n < ids@.len() ==> id < #[trigger] ids@[n],
        decreases p,
    {
        p = p - 1;
    }
    let ghost before = ids@;
    ids.insert(p, id);
    proof {
        assert(p > 0 ==> before[p - 1] != id) by {
            if p > 0 {
                assert(before.contains(before[p - 1]));
            }
        }
        assert forall|m: int, n: int| 0 <= m < n < ids@.len() implies ids@[m] < ids@[n] by {
            if n == p {
                assert(ids@[m] == before[m]);
                if m < p - 1 {
                    assert(before[m] < before[p - 1]);
                }
            } else if m == p {
                assert(ids@[n] == before[n - 1]);
            }
        }
        assert forall|d: usize| #[trigger] ids@.contains(d) <==> d == id || before.contains(d) by {
            if before.contains(d) {
                let k = before.index_of(d);
                if k < p {
                    assert(ids@[k] == d);
                } else {
                    assert(ids@[k + 1] == d);
                }
            }
            assert(ids@[p as int] == id);
            if ids@.contains(d) && d != id {
                let k = ids@.index_of(d);
                if k < p {
                    assert(before[k] == d);
                } else {
                    assert(before[k - 1] == d);
                }
            }
        }
    }
}

impl<S: Scalar> ForceHistories<S> {
    /// The numbers of the objects that are shown, in ascending order: those with at least
    /// `min_cells` cells that do not lie before the column `min_column`.
    pub fn shown_ids(&self, min_cells: usize, min_column: S) -> (ids: Vec<usize>)
        ensures
            forall|m: int, n: int| 0 <= m < n < ids@.len() ==> ids@[m] < ids@[n],
            forall|id: usize| #[trigger]
                ids@.contains(id) <==> self.traces().contains_key(id) && shown(
                    self.traces()[id],
                    min_cells,
                    min_column,
                ),
    {
        let mut ids: Vec<usize> = Vec::new();
        let ghost mut seen: Seq<usize> = Seq::empty();
        proof {
            assert(self.per_object@.dom().len() == 0 ==> self.per_object@.dom() =~= Set::empty());
            assert(seen.to_set() =~= Set::empty());
        }
        for key in it: self.per_object.keys()
            invariant
                it.seq().unref().to_set() == self.per_object@.dom(),
                it.seq().no_duplicates(),
                seen == it.seq().unref().take(it.index() as int),
                it.index() == it.seq().len() ==> seen.to_set() == self.per_object@.dom(),
                forall|m: int, n: int| 0 <= m < n < ids@.len() ==> ids@[m] < ids@[n],
                forall|id: usize| #[trigger]
                    ids@.contains(id) <==> seen.contains(id) && shown(
                        self.traces()[id],
                        min_cells,
                        min_column,
                    ),
        {
            let id: usize = *key;
            proof {
                let all = it.seq().unref();
                let n = it.index() as int;
                assert(all[n] == id);
                assert(all.to_set().contains(id));
                assert(self.per_object@.contains_key(id));
                assert(!seen.contains(id)) by {
                    if seen.contains(id) {
                        let k = seen.index_of(id);
                        assert(all[k] == id);
                        assert(it.seq()[k] == it.seq()[n]);
                    }
                }
                let more = seen.push(id);
                assert(all.take(n + 1) =~= more);
                assert forall|d: usize| #[trigger] more.contains(d) <==> seen.contains(d) || d
                    == id by {
                    if seen.contains(d) {
                        assert(more[seen.index_of(d)] == d);
                    }
                    assert(more[n] == id);
                }
                seen = more;
                assert(n + 1 == all.len() ==> all.take(n + 1) =~= all);
            }
            if let Some(history) = self.per_object.get(&id) {
                assert(self.traces()[id] == history@);
                if history.last_cell_count >= min_cells && !history.last_center_x.below(
                    min_column,
                ) {
                    insert_sorted(&mut ids, id);
                }
            }
        }
        proof {
            assert forall|id: usize| seen.contains(id) <==> self.traces().contains_key(id) by {
                assert(seen.to_set().contains(id) <==> self.per_object@.dom().contains(id));
            }
        }
        ids
    }
}

/// What a step adds to the history of one of its objects: the force along the rows and the moment at
/// its end, under the number of the step, and the number of cells and the column of the centre. The
/// newest points of before stay in order, as many as there is room for.
pub proof fn lemma_step_recorded<S: Scalar>(
    traces: Map<usize, ObjectTrace<S>>,
    step: usize,
    max: usize,
    objects: Seq<ObjectForce<S>>,
    m: int,
)
    requires
        windowed(traces, max),
        distinct(objects),
        0 <= m < objects.len(),
        1 <= max,
    ensures
        ({
            let object = objects[m];
            let all = with_objects(traces, step, max, objects, objects.len());
            let old_drag = if traces.contains_key(object.id) {
                traces[object.id].drag
            } else {
                Seq::empty()
            };
            let old_torque = if traces.contains_key(object.id) {
                traces[object.id].torque
            } else {
                Seq::empty()
            };
            let now = all[object.id];
            let kept = if old_drag.len() < max {
                old_drag.len() as int
            } else {
                max - 1
            };
            &&& all.contains_key(object.id)
            &&& now.drag.len() == kept + 1
            &&& now.torque.len() == kept + 1
            &&& now.drag[kept] == (step, object.total_force.x)
            &&& now.torque[kept] == (step, object.torque)
            &&& forall|t: int|
                0 <= t < kept ==> #[trigger] now.drag[t] == old_drag[old_drag.len() - kept + t]
            &&& forall|t: int|
                0 <= t < kept ==> #[trigger] now.torque[t] == old_torque[old_torque.len() - kept
                    + t]
            &&& now.last_cell_count == object.cell_count
            &&& now.last_center_x == object.center_of_mass.x
        }),
{
    let object = objects[m];
    let before = with_objects(traces, step, max, objects, m as nat);
    lemma_pushing_keeps_others(traces, step, max, objects, m as nat, object.id);
    assert(forall|c: int| 0 <= c < m ==> (#[trigger] objects[c]).id != object.id);
    let here = with_objects(traces, step, max, objects, (m + 1) as nat);
    lemma_later_objects(traces, step, max, objects, (m + 1) as nat, objects.len(), object.id);
    if traces.contains_key(object.id) {
        assert(same_steps(traces[object.id].drag, traces[object.id].torque));
    }
}

proof fn lemma_later_objects<S: Scalar>(
    traces: Map<usize, ObjectTrace<S>>,
    step: usize,
    max: usize,
    objects: Seq<ObjectForce<S>>,
    m: nat,
    n: nat,
    id: usize,
)
    requires
        m <= n <= objects.len(),
        forall|c: int| m <= c < n ==> (#[trigger] objects[c]).id != id,
        with_objects(traces, step, max, objects, m).contains_key(id),
    ensures
        with_objects(traces, step, max, objects, n).contains_key(id),
        with_objects(traces, step, max, objects, n)[id] == with_objects(
            traces,
            step,
            max,
            objects,
            m,
        )[id],
    decreases n,
{
    if m < n {
        lemma_later_objects(traces, step, max, objects, m, (n - 1) as nat, id);
        assert(objects[n - 1].id != id);
    }
}

/// A point that is added stands at the end; before it stand all points of before, without the first
/// if there was no room.
pub proof fn lemma_slid<T>(points: Seq<T>, point: T, full: bool)
    ensures
        slid(points, point, full).len() == points.len() + (if full {
            0int
        } else {
            1
        }),
        slid(points, point, full).len() > 0 ==> slid(points, point, full).last() == point,
        forall|t: int|
            0 <= t < slid(points, point, full).len() - 1 ==> #[trigger] slid(points, point, full)[t]
                == points[if full {
                t + 1
            } else {
                t
            }],
{
}

/// An object is shown if it has enough cells and its centre does not lie before the column that is
/// asked for.
pub proof fn lemma_shown(trace: ObjectTrace<Fixed>, min_cells: usize, min_column: Fixed)
    ensures
        shown(trace, min_cells, min_column) <==> trace.last_cell_count >= min_cells
            && trace.last_center_x.raw >= min_column.raw,
{
}

} // verus!
