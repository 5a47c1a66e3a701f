//! The report of the forces on the objects.
use vstd::prelude::*;
use crate::conditions::OBJET_SIZE_PRINT_LIMIT;
use crate::fixed;
use crate::fixed::Fixed;
use crate::grid::Grid;
use crate::pressure_computation;
use crate::pressure_computation::ObjectForce;
use crate::scalar;
use crate::scalar::Scalar;
use crate::vector::Vector2;

verus! {

/// What is reported of one object.
#[derive(Clone, Copy, Debug)]
pub struct ObjectReport<S> {
    pub object: ObjectForce<S>,
    /// The size of the force on it.
    pub magnitude: S,
    /// The direction of the force, unless the force is negligible.
    pub direction: Option<Vector2<S>>,
}

/// The report of `object`.
pub open spec fn report_of<S: Scalar>(object: ObjectForce<S>) -> ObjectReport<S> {
    let magnitude = object.total_force.magnitude_spec();
    ObjectReport {
        object,
        magnitude,
        direction: if scalar::ratio_spec::<S>(1, 1000).below_spec(magnitude) {
            Some(object.total_force.shrunk_spec(magnitude))
        } else {
            None
        },
    }
}

/// The reports of those of the first `n` of `objects` that have enough cells, in order.
pub open spec fn reports<S: Scalar>(objects: Seq<ObjectForce<S>>, n: nat) -> Seq<ObjectReport<S>>
    decreases n,
{
    if n == 0 {
        Seq::empty()
    } else if objects[n - 1].cell_count < OBJET_SIZE_PRINT_LIMIT {
        reports(objects, (n - 1) as nat)
    } else {
        reports(objects, (n - 1) as nat).push(report_of(objects[n - 1]))
    }
}

/// The report of `object`.
pub fn report<S: Scalar>(object: ObjectForce<S>) -> (r: ObjectReport<S>)
    ensures
        r == report_of(object),
{
    let magnitude: S = object.total_force.magnitude();
    let direction: Option<Vector2<S>> = if scalar::ratio::<S>(1, 1000).below(magnitude) {
        Some(object.total_force.shrunk(magnitude))
    } else {
        None
    };
    ObjectReport { object, magnitude, direction }
}

impl<S: Scalar> Grid<S> {
    /// What is to be reported of the objects that have enough cells, in the order of their
    /// numbers. `None` where there are no objects at all.
    pub fn report_object_forces(&mut self) -> (r: Option<Vec<ObjectReport<S>>>)
        requires
            old(self).wf(),
        ensures
            final(self).wf(),
            final(self).cells == old(self).cells,
            !final(self).wall_topology_dirty,
            !old(self).wall_topology_dirty ==> *final(self) == *old(self),
            r is None <==> pressure_computation::forces_on_objects(old(self).cells@).len() == 0,
            r is Some ==> r->0@ == reports(
                pressure_computation::forces_on_objects(old(self).cells@),
                pressure_computation::forces_on_objects(old(self).cells@).len(),
            ),
    {
        let objects: Vec<ObjectForce<S>> = self.compute_object_forces();
        if objects.len() == 0 {
            return None;
        }
        let mut list: Vec<ObjectReport<S>> = Vec::new();
        let mut n: usize = 0;
        while n < objects.len()
            invariant
                n <= objects@.len(),
                list@ == reports(objects@, n as nat),
            decreases objects@.len() - n,
        {
            let object: ObjectForce<S> = objects[n];
            if object.cell_count >= OBJET_SIZE_PRINT_LIMIT {
                list.push(report(object));
            }
            n = n + 1;
        }
        Some(list)
    }
}

/// One of eight directions, where growing rows count as up.
#[derive(Clone, Copy, Debug, PartialEq, Eq, Structural)]
pub enum Orientation {
    Right,
    UpRight,
    Up,
    UpLeft,
    Left,
    DownLeft,
    Down,
    DownRight,
}

/// `angle` lies above `low` and not above `high`, where both are in halves of a degree.
pub open spec fn within<S: Scalar>(angle: S, low: int, high: int) -> bool {
    half_degrees_spec::<S>(low).below_spec(angle) && angle.at_most_spec(
        half_degrees_spec::<S>(high),
    )
}

/// `n` halves of a degree.
pub open spec fn half_degrees_spec<S: Scalar>(n: int) -> S {
    scalar::signed_spec::<S>(n).over_spec(S::whole_spec(2))
}

fn half_degrees<S: Scalar>(n: isize) -> (r: S)
    ensures
        r == half_degrees_spec::<S>(n as int),
{
    scalar::signed::<S>(n).over(S::whole(2))
}

fn lies_within<S: Scalar>(angle: S, low: isize, high: isize) -> (r: bool)
    ensures
        r == within(angle, low as int, high as int),
{
    half_degrees::<S>(low).below(angle) && angle.at_most(half_degrees::<S>(high))
}

/// The direction that lies nearest to `angle`, in degrees from -180 to 180: each spans 45
/// degrees.
pub open spec fn orientation_spec<S: Scalar>(angle: S) -> Orientation {
    if within(angle, -45, 45) {
        Orientation::Right
    } else if within(angle, 45, 135) {
        Orientation::UpRight
    } else if within(angle, 135, 225) {
        Orientation::Up
    } else if within(angle, 225, 315) {
        Orientation::UpLeft
    } else if half_degrees_spec::<S>(315).below_spec(angle) || angle.at_most_spec(
        half_degrees_spec::<S>(-315),
    ) {
        Orientation::Left
    } else if within(angle, -315, -225) {
        Orientation::DownLeft
    } else if within(angle, -225, -135) {
        Orientation::Down
    } else {
        Orientation::DownRight
    }
}

/// The direction that lies nearest to `angle`, in degrees from -180 to 180.
pub fn orientation<S: Scalar>(angle: S) -> (r: Orientation)
    ensures
        r == orientation_spec(angle),
{
    if lies_within(angle, -45, 45) {
        Orientation::Right
    } else if lies_within(angle, 45, 135) {
        Orientation::UpRight
    } else if lies_within(angle, 135, 225) {
        Orientation::Up
    } else if lies_within(angle, 225, 315) {
        Orientation::UpLeft
    } else if half_degrees::<S>(315).below(angle) || angle.at_most(half_degrees::<S>(-315)) {
        Orientation::Left
    } else if lies_within(angle, -315, -225) {
        Orientation::DownLeft
    } else if lies_within(angle, -225, -135) {
        Orientation::Down
    } else {
        Orientation::DownRight
    }
}

/// The middle of a direction, in halves of a degree from -270 to 360.
pub open spec fn middle(orientation: Orientation) -> int {
    match orientation {
        Orientation::Right => 0,
        Orientation::UpRight => 90,
        Orientation::Up => 180,
        Orientation::UpLeft => 270,
        Orientation::Left => 360,
        Orientation::DownLeft => -270,
        Orientation::Down => -180,
        Orientation::DownRight => -90,
    }
}

/// `angle` lies no farther than 22.5 degrees from `n` halves of a degree.
pub open spec fn close_to(angle: Fixed, n: int) -> bool {
    2 * angle.raw - n * fixed::ONE <= 45 * fixed::ONE && n * fixed::ONE - 2 * angle.raw <= 45
        * fixed::ONE
}

/// No direction lies nearer to an angle than its orientation: it is no farther than 22.5
/// degrees away, the short way round.
pub proof fn lemma_orientation_nearest(angle: Fixed)
    requires
        -180 * fixed::ONE <= angle.raw <= 180 * fixed::ONE,
    ensures
        close_to(angle, middle(orientation_spec(angle))) || close_to(
            angle,
            middle(orientation_spec(angle)) - 720,
        ),
{
    assert(half_degrees_spec::<Fixed>(45).raw == 45 * 255_000_000);
    assert(half_degrees_spec::<Fixed>(135).raw == 135 * 255_000_000);
    assert(half_degrees_spec::<Fixed>(225).raw == 225 * 255_000_000);
    assert(half_degrees_spec::<Fixed>(315).raw == 315 * 255_000_000);
    assert(half_degrees_spec::<Fixed>(-45).raw == -45 * 255_000_000);
    assert(half_degrees_spec::<Fixed>(-135).raw == -135 * 255_000_000);
    assert(half_degrees_spec::<Fixed>(-225).raw == -225 * 255_000_000);
    assert(half_degrees_spec::<Fixed>(-315).raw == -315 * 255_000_000);
}

/// The length of a vector: its square is that of its two parts together, up to rounding.
pub proof fn lemma_magnitude_is_length(v: Vector2<Fixed>)
    requires
        -10_000 * fixed::ONE <= v.x.raw <= 10_000 * fixed::ONE,
        -10_000 * fixed::ONE <= v.y.raw <= 10_000 * fixed::ONE,
    ensures
        ({
            let m = v.magnitude_spec().raw;
            let square = v.x.raw * v.x.raw + v.y.raw * v.y.raw;
            &&& 0 <= m
            &&& m * m <= square
            &&& square < (m + 1) * (m + 1) + 2 * fixed::ONE
        }),
{
    fixed::lemma_square_near(v.x);
    fixed::lemma_square_near(v.y);
    let t = v.x.times_spec(v.x).plus_spec(v.y.times_spec(v.y));
    fixed::lemma_root_near(t);
}

/// The report of an object gives the length of the force on it, and its direction exactly if that is
/// above a thousandth: the vector that has the length 1 and makes the force when it is multiplied by
/// that length, up to rounding.
pub proof fn lemma_report_direction(object: ObjectForce<Fixed>)
    requires
        -10_000 * fixed::ONE <= object.total_force.x.raw <= 10_000 * fixed::ONE,
        -10_000 * fixed::ONE <= object.total_force.y.raw <= 10_000 * fixed::ONE,
    ensures
        ({
            let report = report_of(object);
            let m = report.magnitude.raw;
            let force = object.total_force;
            let square = force.x.raw * force.x.raw + force.y.raw * force.y.raw;
            &&& report.object == object
            &&& 0 <= m && m * m <= square < (m + 1) * (m + 1) + 2 * fixed::ONE
            &&& report.direction is Some <==> 1000 * m > fixed::ONE
            &&& report.direction is Some ==> {
                &&& fixed::differ_less(
                    m * report.direction->0.x.raw,
                    force.x.raw * fixed::ONE,
                    m as int,
                )
                &&& fixed::differ_less(
                    m * report.direction->0.y.raw,
                    force.y.raw * fixed::ONE,
                    m as int,
                )
            }
        }),
{
    let force = object.total_force;
    let magnitude = force.magnitude_spec();
    lemma_magnitude_is_length(force);
    assert(scalar::ratio_spec::<Fixed>(1, 1000).raw == 510_000);
    if magnitude.raw > 510_000 {
        fixed::lemma_over_near(force.x, magnitude);
        fixed::lemma_over_near(force.y, magnitude);
    }
}

/// The objects of at least ten cells are reported, and no others, each as often as it is there.
pub proof fn lemma_reports_complete<S: Scalar>(objects: Seq<ObjectForce<S>>, n: nat, m: int)
    requires
        n <= objects.len(),
        0 <= m < n,
        objects[m].cell_count >= 10,
    ensures
        exists|p: int|
            0 <= p < reports(objects, n).len() && #[trigger] reports(objects, n)[p] == report_of(
                objects[m],
            ),
    decreases n,
{
    let rest = reports(objects, (n - 1) as nat);
    if m < n - 1 {
        lemma_reports_complete(objects, (n - 1) as nat, m);
        let p = choose|p: int| 0 <= p < rest.len() && #[trigger] rest[p] == report_of(objects[m]);
        assert(reports(objects, n)[p] == report_of(objects[m]));
    } else {
        assert(reports(objects, n)[rest.len() as int] == report_of(objects[m]));
    }
}

/// The place of report `p` among the objects: reports stand in the order of the objects that they
/// are of, and every one of them is of an object of at least ten cells.
pub proof fn lemma_reports_in_order<S: Scalar>(objects: Seq<ObjectForce<S>>, n: nat) -> (places: Seq<
    int,
>)
    requires
        n <= objects.len(),
    ensures
        places.len() == reports(objects, n).len(),
        forall|p: int|
            0 <= p < places.len() ==> 0 <= #[trigger] places[p] < n && objects[places[p]].cell_count
                >= 10 && reports(objects, n)[p] == report_of(objects[places[p]]),
        forall|p: int, q: int| 0 <= p < q < places.len() ==> places[p] < places[q],
    decreases n,
{
    if n == 0 {
        Seq::empty()
    } else {
        let before = lemma_reports_in_order(objects, (n - 1) as nat);
        if objects[n - 1].cell_count >= 10 {
            before.push(n - 1)
        } else {
            before
        }
    }
}

} // verus!
