//! The walls of a ship: its hull, the containers on it, and the fairings before and behind them.
use std::collections::HashMap;
use vstd::prelude::*;
use crate::conditions::CELLS;
use crate::fixed;
use crate::fixed::Fixed;
use crate::grid;
use crate::grid::{Cell, Grid};
use crate::scalar;
use crate::scalar::Scalar;
use crate::stamp;
use crate::topology;

verus! {

broadcast use vstd::std_specs::hash::group_hash_axioms;

/// What a wall cell of a ship belongs to.
#[derive(Clone, Copy, Debug, PartialEq, Eq, Hash, Structural)]
pub enum WallKind {
    Hull,
    /// The container with this number.
    Container(usize),
    Fairing,
}

/// A container.
#[derive(Copy, Debug)]
pub struct Container<S> {
    pub id: usize,
    /// Its column and its row.
    pub center: (isize, isize),
    pub width: S,
    pub height: S,
}

/// The form of the two ends of a hull.
#[derive(Clone, Copy, Debug)]
pub struct HullCurveSpec<S> {
    pub curve_bow: bool,
    pub curve_stern: bool,
    /// From 0, a pointed end, to 1, a quarter of an ellipse.
    pub curvature: S,
    pub bow_length: S,
    pub stern_length: S,
}

/// Where a fairing stands: before the stack of containers, or behind it.
#[derive(Clone, Copy, Debug, PartialEq, Eq, Structural)]
pub enum FairingSide {
    Bow,
    Stern,
}

/// A wedge that leads the air round the stack of containers.
#[derive(Copy, Debug)]
pub struct Fairing<S> {
    /// The column and the row at which it meets the stack.
    pub position: (isize, isize),
    pub length: S,
    /// Half its height where it meets the stack.
    pub half_height: S,
    pub side: FairingSide,
}

impl<S: Copy> Clone for Container<S> {
    fn clone(&self) -> (r: Self)
        ensures
            r == *self,
    {
        *self
    }
}

impl<S: Copy> Clone for Fairing<S> {
    fn clone(&self) -> (r: Self)
        ensures
            r == *self,
    {
        *self
    }
}

/// A ship, as its walls in the grid.
#[derive(Debug)]
pub struct ShipLayout<S> {
    pub name: String,
    /// The hull without its curved ends: centre, width and height of each rectangle.
    pub hull_rects: Vec<((isize, isize), S, S)>,
    /// The form of the ends of the first of `hull_rects`.
    pub hull_curve: Option<HullCurveSpec<S>>,
    pub containers: Vec<Container<S>>,
    pub fairings: Vec<Fairing<S>>,
    /// The direction of the flow, in radians; 0 is toward growing columns.
    pub flow_angle: S,
}

fn copied<T: Copy>(items: &Vec<T>) -> (r: Vec<T>)
    ensures
        r@ == items@,
{
    let mut r: Vec<T> = Vec::new();
    let mut n: usize = 0;
    while n < items.len()
        invariant
            n <= items@.len(),
            r@ == items@.take(n as int),
        decreases items@.len() - n,
    {
        r.push(items[n]);
        n = n + 1;
        assert(r@ =~= items@.take(n as int));
    }
    r
}

impl<S: Copy> Clone for ShipLayout<S> {
    fn clone(&self) -> (r: Self)
        ensures
            r.name@ == self.name@,
            r.hull_rects@ == self.hull_rects@,
            r.hull_curve == self.hull_curve,
            r.containers@ == self.containers@,
            r.fairings@ == self.fairings@,
            r.flow_angle == self.flow_angle,
    {
        ShipLayout {
            name: self.name.clone(),
            hull_rects: copied(&self.hull_rects),
            hull_curve: self.hull_curve,
            containers: copied(&self.containers),
            fairings: copied(&self.fairings),
            flow_angle: self.flow_angle,
        }
    }
}

/// How much of a wedge of the length `length` is left in its column `s`: from 1 at its base to
/// 0 at its tip.
pub open spec fn taper_spec<S: Scalar>(s: nat, length: nat) -> S {
    S::whole_spec(1).minus_spec(S::whole_spec(s).over_spec(S::whole_spec(length)))
}

/// The share of its full height that a hull end keeps where `t` of it is left.
pub open spec fn profile_spec<S: Scalar>(t: S, curvature: S) -> S {
    let one = S::whole_spec(1);
    let gone = one.minus_spec(t);
    let round = scalar::at_least_spec(
        one.minus_spec(gone.times_spec(gone)),
        S::whole_spec(0),
    ).root_spec();
    t.times_spec(one.minus_spec(curvature)).plus_spec(round.times_spec(curvature))
}

/// The number of columns of a hull end from column `base` to column `tip`, without the first.
pub open spec fn end_length(base: int, tip: int) -> nat {
    if tip > base {
        (tip - base) as nat
    } else if tip < base {
        (base - tip) as nat
    } else {
        1
    }
}

/// The half height, in cells, of a hull end of the length `length` in its column `s`.
pub open spec fn end_half<S: Scalar>(half_height: S, curvature: S, length: nat, s: nat) -> isize {
    half_height.times_spec(
        profile_spec(
            taper_spec(s, length),
            scalar::clamped_spec(curvature, S::whole_spec(0), S::whole_spec(1)),
        ),
    ).rounded_spec()
}

/// The cells of a hull end about row `y`, from column `base` to column `tip`.
pub open spec fn hull_end_shape<S: Scalar>(
    base: int,
    tip: int,
    y: int,
    half_height: S,
    curvature: S,
) -> spec_fn(int, int) -> bool {
    stamp::wedge_shape(
        base,
        tip < base,
        end_length(base, tip) as int,
        y,
        |s: int| end_half(half_height, curvature, end_length(base, tip), s as nat) as int,
    )
}

/// The number of columns of a fairing, without the first.
pub open spec fn fairing_length<S: Scalar>(fairing: Fairing<S>) -> isize {
    scalar::at_least_spec(fairing.length, S::whole_spec(1)).truncated_spec()
}

/// The half height, in cells, of a fairing in its column `s`.
pub open spec fn fairing_half<S: Scalar>(fairing: Fairing<S>, s: nat) -> isize {
    fairing.half_height.times_spec(taper_spec(s, fairing_length(fairing) as nat)).rounded_spec()
}

/// The cells of a fairing.
pub open spec fn fairing_shape<S: Scalar>(fairing: Fairing<S>) -> spec_fn(int, int) -> bool {
    stamp::wedge_shape(
        fairing.position.0 as int,
        fairing.side == FairingSide::Bow,
        fairing_length(fairing) as int,
        fairing.position.1 as int,
        |s: int| fairing_half(fairing, s as nat) as int,
    )
}

fn taper<S: Scalar>(s: usize, length: usize) -> (r: S)
    ensures
        r == taper_spec::<S>(s as nat, length as nat),
{
    S::whole(1).minus(S::whole(s).over(S::whole(length)))
}

fn profile<S: Scalar>(t: S, curvature: S) -> (r: S)
    ensures
        r == profile_spec(t, curvature),
{
    let one: S = S::whole(1);
    let gone: S = one.minus(t);
    let round: S = scalar::at_least(one.minus(gone.times(gone)), S::whole(0)).root();
    t.times(one.minus(curvature)).plus(round.times(curvature))
}

impl<S: Scalar> Grid<S> {
    /// Makes walls of the end of a hull about row `center_y`, which has its full height,
    /// `half_height` up and down, in column `base_x`, and none in column `tip_x`.
    pub fn stamp_curved_hull_end(
        &mut self,
        base_x: isize,
        tip_x: isize,
        center_y: isize,
        half_height: S,
        curvature: S,
    )
        requires
            old(self).wf(),
        ensures
            final(self).wf(),
            grid::stamped(
                *old(self),
                *final(self),
                hull_end_shape(
                    base_x as int,
                    tip_x as int,
                    center_y as int,
                    half_height,
                    curvature,
                ),
            ),
    {
        self.stamp_hull_end(base_x as i128, tip_x as i128, center_y, half_height, curvature)
    }

    /// The same, for columns that may lie anywhere.
    fn stamp_hull_end(
        &mut self,
        base_x: i128,
        tip_x: i128,
        center_y: isize,
        half_height: S,
        curvature: S,
    )
        requires
            old(self).wf(),
            -0x1_0000_0000_0000_0000 <= base_x <= 0x1_0000_0000_0000_0000,
            end_length(base_x as int, tip_x as int) <= usize::MAX,
        ensures
            final(self).wf(),
            grid::stamped(
                *old(self),
                *final(self),
                hull_end_shape(
                    base_x as int,
                    tip_x as int,
                    center_y as int,
                    half_height,
                    curvature,
                ),
            ),
    {
        let left: bool = tip_x < base_x;
        let length: usize = if left {
            (base_x - tip_x) as usize
        } else if tip_x == base_x {
            1
        } else {
            (tip_x - base_x) as usize
        };
        let curved: S = scalar::clamped(curvature, S::whole(0), S::whole(1));
        let ghost y = center_y as int;
        let ghost halves = |s: int|
            end_half(
                half_height,
                curvature,
                end_length(base_x as int, tip_x as int),
                s as nat,
            ) as int;
        let mut s: i128 = 0;
        proof {
            grid::lemma_stamped_nothing(
                *self,
                stamp::wedge_shape(base_x as int, left, -1, y, halves),
            );
        }
        while s <= length as i128
            invariant
                old(self).wf(),
                self.wf(),
                0 <= s <= length + 1,
                length == end_length(base_x as int, tip_x as int),
                -0x1_0000_0000_0000_0000 <= base_x <= 0x1_0000_0000_0000_0000,
                y == center_y,
                curved == scalar::clamped_spec(curvature, S::whole_spec(0), S::whole_spec(1)),
                halves == (|s: int|
                    end_half(
                        half_height,
                        curvature,
                        end_length(base_x as int, tip_x as int),
                        s as nat,
                    ) as int),
                grid::stamped(
                    *old(self),
                    *self,
                    stamp::wedge_shape(base_x as int, left, s - 1, y, halves),
                ),
            decreases length + 1 - s,
        {
            let x: i128 = if left {
                base_x - s
            } else {
                base_x + s
            };
            let half: isize = half_height.times(
                profile(taper(s as usize, length), curved),
            ).rounded();
            let ghost before = *self;
            self.stamp_column(x, center_y, half);
            proof {
                grid::lemma_stamped_twice(
                    *old(self),
                    before,
                    *self,
                    stamp::wedge_shape(base_x as int, left, s - 1, y, halves),
                    |i: int, j: int| i == x && stamp::near(j, center_y as int, half as int),
                    stamp::wedge_shape(base_x as int, left, s as int, y, halves),
                );
            }
            s = s + 1;
        }
    }

    /// Makes walls of a fairing, which grows thinner away from the stack of containers.
    pub fn stamp_fairing(&mut self, fairing: &Fairing<S>)
        requires
            old(self).wf(),
        ensures
            final(self).wf(),
            grid::stamped(*old(self), *final(self), fairing_shape(*fairing)),
    {
        let left: bool = match fairing.side {
            FairingSide::Bow => true,
            FairingSide::Stern => false,
        };
        let length: isize = scalar::at_least(fairing.length, S::whole(1)).truncated();
        let (base_x, base_y) = fairing.position;
        let ghost base = base_x as int;
        let ghost y = base_y as int;
        let ghost halves = |s: int| fairing_half(*fairing, s as nat) as int;
        let mut s: i128 = 0;
        proof {
            grid::lemma_stamped_nothing(*self, stamp::wedge_shape(base, left, -1, y, halves));
            if length < 0 {
                grid::lemma_stamped_nothing(
                    *self,
                    stamp::wedge_shape(base, left, length as int, y, halves),
                );
            }
        }
        while s <= length as i128
            invariant
                old(self).wf(),
                self.wf(),
                0 <= s,
                s <= length + 1 || s == 0,
                length == fairing_length(*fairing),
                base == base_x,
                y == base_y,
                halves == (|s: int| fairing_half(*fairing, s as nat) as int),
                length < 0 ==> grid::stamped(
                    *old(self),
                    *self,
                    stamp::wedge_shape(base, left, length as int, y, halves),
                ),
                grid::stamped(
                    *old(self),
                    *self,
                    stamp::wedge_shape(base, left, s - 1, y, halves),
                ),
            decreases length + 1 - s,
        {
            let x: i128 = if left {
                base_x as i128 - s
            } else {
                base_x as i128 + s
            };
            let half: isize = fairing.half_height.times(
                taper(s as usize, length as usize),
            ).rounded();
            let ghost before = *self;
            self.stamp_column(x, base_y, half);
            proof {
                grid::lemma_stamped_twice(
                    *old(self),
                    before,
                    *self,
                    stamp::wedge_shape(base, left, s - 1, y, halves),
                    |i: int, j: int| i == x && stamp::near(j, base_y as int, half as int),
                    stamp::wedge_shape(base, left, s as int, y, halves),
                );
            }
            s = s + 1;
        }
    }
}

/// The cell in column `i` and row `j` lies in one of the first `n` of `rects`.
pub open spec fn in_rects<S: Scalar>(
    rects: Seq<((isize, isize), S, S)>,
    n: int,
    i: int,
    j: int,
) -> bool {
    exists|m: int|
        0 <= m < n && stamp::rectangle_shape((#[trigger] rects[m]).0, rects[m].1, rects[m].2)(i, j)
}

/// The cell in column `i` and row `j` lies in one of the first `n` of `fairings`.
pub open spec fn in_fairings<S: Scalar>(
    fairings: Seq<Fairing<S>>,
    n: int,
    i: int,
    j: int,
) -> bool {
    exists|m: int| 0 <= m < n && fairing_shape(#[trigger] fairings[m])(i, j)
}

/// The cells of a container.
pub open spec fn container_shape<S: Scalar>(
    container: Container<S>,
) -> spec_fn(int, int) -> bool {
    stamp::rectangle_shape(container.center, container.width, container.height)
}

/// The number of the first of the first `n` of `containers` that the cell in column `i` and row
/// `j` lies in.
pub open spec fn container_at<S: Scalar>(
    containers: Seq<Container<S>>,
    n: nat,
    i: int,
    j: int,
) -> Option<usize>
    decreases n,
{
    if n == 0 {
        None
    } else {
        match container_at(containers, (n - 1) as nat, i, j) {
            Some(id) => Some(id),
            None => if container_shape(containers[n - 1])(i, j) {
                Some(containers[n - 1].id)
            } else {
                None
            },
        }
    }
}

impl<S: Scalar> ShipLayout<S> {
    /// The cell in column `i` and row `j` lies in the curved bow.
    pub open spec fn in_bow(self, i: int, j: int) -> bool {
        match self.hull_curve {
            Some(curve) => {
                let (center, width, height) = self.hull_rects@[0];
                let base = center.0 - stamp::half_cells_spec(width);
                &&& self.hull_rects@.len() > 0
                &&& curve.curve_bow
                &&& S::whole_spec(0).below_spec(curve.bow_length)
                &&& hull_end_shape(
                    base,
                    base - curve.bow_length.truncated_spec(),
                    center.1 as int,
                    height.over_spec(S::whole_spec(2)),
                    curve.curvature,
                )(i, j)
            },
            None => false,
        }
    }

    /// The cell in column `i` and row `j` lies in the curved stern.
    pub open spec fn in_stern(self, i: int, j: int) -> bool {
        match self.hull_curve {
            Some(curve) => {
                let (center, width, height) = self.hull_rects@[0];
                let base = center.0 + stamp::half_cells_spec(width);
                &&& self.hull_rects@.len() > 0
                &&& curve.curve_stern
                &&& S::whole_spec(0).below_spec(curve.stern_length)
                &&& hull_end_shape(
                    base,
                    base + curve.stern_length.truncated_spec(),
                    center.1 as int,
                    height.over_spec(S::whole_spec(2)),
                    curve.curvature,
                )(i, j)
            },
            None => false,
        }
    }

    /// The cell in column `i` and row `j` lies in the hull.
    pub open spec fn in_hull(self, i: int, j: int) -> bool {
        ||| in_rects(self.hull_rects@, self.hull_rects@.len() as int, i, j)
        ||| self.in_bow(i, j)
        ||| self.in_stern(i, j)
    }

    /// What the cell in column `i` and row `j` belongs to, with the hull, the first `n`
    /// containers and the first `m` fairings. A cell of two parts belongs to the one that comes
    /// first in this order; one that was a wall before counts as the hull.
    pub open spec fn part_among(
        self,
        n: nat,
        m: int,
        was_wall: bool,
        i: int,
        j: int,
    ) -> Option<WallKind> {
        if was_wall || self.in_hull(i, j) {
            Some(WallKind::Hull)
        } else {
            match container_at(self.containers@, n, i, j) {
                Some(id) => Some(WallKind::Container(id)),
                None => if in_fairings(self.fairings@, m, i, j) {
                    Some(WallKind::Fairing)
                } else {
                    None
                },
            }
        }
    }

    /// What the cell in column `i` and row `j` belongs to.
    pub open spec fn part(self, was_wall: bool, i: int, j: int) -> Option<WallKind> {
        self.part_among(
            self.containers@.len(),
            self.fairings@.len() as int,
            was_wall,
            i,
            j,
        )
    }

    /// The cells of the ship.
    pub open spec fn shape(self) -> spec_fn(int, int) -> bool {
        |i: int, j: int| self.part(false, i, j) is Some
    }

    /// `labels` says of each cell what it belongs to, among the hull, the first `n` containers
    /// and the first `m` fairings, where `walls` were the walls before.
    pub open spec fn labelled_among(
        self,
        n: nat,
        m: int,
        walls: Seq<bool>,
        labels: Map<usize, WallKind>,
    ) -> bool {
        &&& forall|k: usize| #[trigger]
            labels.contains_key(k) <==> k < CELLS && self.part_among(
                n,
                m,
                walls[k as int],
                topology::col_of(k as int),
                topology::row_of(k as int),
            ) is Some
        &&& forall|k: usize| #[trigger]
            labels.contains_key(k) ==> Some(labels[k]) == self.part_among(
                n,
                m,
                walls[k as int],
                topology::col_of(k as int),
                topology::row_of(k as int),
            )
    }

    /// `labels` says of each cell what it belongs to, where `walls` were the walls before, and
    /// names no other cell.
    pub open spec fn labelled(self, walls: Seq<bool>, labels: Map<usize, WallKind>) -> bool {
        self.labelled_among(
            self.containers@.len(),
            self.fairings@.len() as int,
            walls,
            labels,
        )
    }
}

impl<S: Scalar> Grid<S> {
    /// Gives the walls without a label the label `kind`.
    fn label_walls(&self, labels: &mut HashMap<usize, WallKind>, kind: WallKind)
        requires
            self.wf(),
        ensures
            forall|k: usize| #[trigger]
                final(labels)@.contains_key(k) <==> old(labels)@.contains_key(k) || k < CELLS
                    && self.cells@[k as int].wall,
            forall|k: usize| #[trigger]
                final(labels)@.contains_key(k) ==> final(labels)@[k] == if old(
                    labels,
                )@.contains_key(k) {
                    old(labels)@[k]
                } else {
                    kind
                },
    {
        let mut n: usize = 0;
        while n < CELLS
            invariant
                n <= CELLS,
                self.wf(),
                forall|k: usize| #[trigger]
                    labels@.contains_key(k) <==> old(labels)@.contains_key(k) || k < n
                        && self.cells@[k as int].wall,
                forall|k: usize| #[trigger]
                    labels@.contains_key(k) ==> labels@[k] == if old(labels)@.contains_key(k) {
                        old(labels)@[k]
                    } else {
                        kind
                    },
            decreases CELLS - n,
        {
            if self.cells[n].wall && !labels.contains_key(&n) {
                labels.insert(n, kind);
            }
            n = n + 1;
        }
    }

    /// Makes walls of the hull of `layout`.
    fn stamp_hull(&mut self, layout: &ShipLayout<S>)
        requires
            old(self).wf(),
        ensures
            final(self).wf(),
            grid::stamped(*old(self), *final(self), |i: int, j: int| layout.in_hull(i, j)),
    {
        let ghost rects = layout.hull_rects@;
        let mut n: usize = 0;
        proof {
            grid::lemma_stamped_nothing(*self, |i: int, j: int| in_rects(rects, 0, i, j));
        }
        while n < layout.hull_rects.len()
            invariant
                n <= layout.hull_rects@.len(),
                rects == layout.hull_rects@,
                old(self).wf(),
                self.wf(),
                grid::stamped(
                    *old(self),
                    *self,
                    |i: int, j: int| in_rects(rects, n as int, i, j),
                ),
            decreases layout.hull_rects@.len() - n,
        {
            let (center, width, height) = layout.hull_rects[n];
            let ghost before = *self;
            self.rectangle(center.0, center.1, width, height);
            proof {
                let rest = |i: int, j: int| in_rects(rects, n as int, i, j);
                let shape = stamp::rectangle_shape(center, width, height);
                let all = |i: int, j: int| in_rects(rects, n + 1, i, j);
                assert forall|i: int, j: int| #[trigger]
                    all(i, j) == (rest(i, j) || shape(i, j)) by {
                    assert(rects[n as int] == (center, width, height));
                }
                grid::lemma_stamped_twice(*old(self), before, *self, rest, shape, all);
            }
            n = n + 1;
        }
        let ghost body = |i: int, j: int| in_rects(rects, n as int, i, j);
        let ghost bow = |i: int, j: int| layout.in_bow(i, j);
        let ghost stern = |i: int, j: int| layout.in_stern(i, j);
        let ghost with_bow = |i: int, j: int| body(i, j) || bow(i, j);
        let ghost first = *self;
        self.stamp_bow(layout);
        let ghost second = *self;
        self.stamp_stern(layout);
        proof {
            grid::lemma_stamped_twice(*old(self), first, second, body, bow, with_bow);
            grid::lemma_stamped_twice(
                *old(self),
                second,
                *self,
                with_bow,
                stern,
                |i: int, j: int| layout.in_hull(i, j),
            );
        }
    }

    fn stamp_bow(&mut self, layout: &ShipLayout<S>)
        requires
            old(self).wf(),
        ensures
            final(self).wf(),
            grid::stamped(*old(self), *final(self), |i: int, j: int| layout.in_bow(i, j)),
    {
        let ghost shape = |i: int, j: int| layout.in_bow(i, j);
        if let Some(curve) = layout.hull_curve {
            if layout.hull_rects.len() > 0 && curve.curve_bow && S::whole(0).below(
                curve.bow_length,
            ) {
                let (center, width, height) = layout.hull_rects[0];
                let base: i128 = center.0 as i128 - stamp::half_cells(width) as i128;
                let tip: i128 = base - curve.bow_length.truncated() as i128;
                self.stamp_hull_end(
                    base,
                    tip,
                    center.1,
                    height.over(S::whole(2)),
                    curve.curvature,
                );
                proof {
                    grid::lemma_stamped_same_shape(
                        *old(self),
                        *self,
                        hull_end_shape(
                            base as int,
                            tip as int,
                            center.1 as int,
                            height.over_spec(S::whole_spec(2)),
                            curve.curvature,
                        ),
                        shape,
                    );
                }
                return;
            }
        }
        proof {
            grid::lemma_stamped_nothing(*self, shape);
        }
    }

    fn stamp_stern(&mut self, layout: &ShipLayout<S>)
        requires
            old(self).wf(),
        ensures
            final(self).wf(),
            grid::stamped(*old(self), *final(self), |i: int, j: int| layout.in_stern(i, j)),
    {
        let ghost shape = |i: int, j: int| layout.in_stern(i, j);
        if let Some(curve) = layout.hull_curve {
            if layout.hull_rects.len() > 0 && curve.curve_stern && S::whole(0).below(
                curve.stern_length,
            ) {
                let (center, width, height) = layout.hull_rects[0];
                let base: i128 = center.0 as i128 + stamp::half_cells(width) as i128;
                let tip: i128 = base + curve.stern_length.truncated() as i128;
                self.stamp_hull_end(
                    base,
                    tip,
                    center.1,
                    height.over(S::whole(2)),
                    curve.curvature,
                );
                proof {
                    grid::lemma_stamped_same_shape(
                        *old(self),
                        *self,
                        hull_end_shape(
                            base as int,
                            tip as int,
                            center.1 as int,
                            height.over_spec(S::whole_spec(2)),
                            curve.curvature,
                        ),
                        shape,
                    );
                }
                return;
            }
        }
        proof {
            grid::lemma_stamped_nothing(*self, shape);
        }
    }

    /// Makes walls of the ship `layout`, and returns what each wall of the grid belongs to.
    pub fn apply_layout(&mut self, layout: &ShipLayout<S>) -> (labels: HashMap<usize, WallKind>)
        requires
            old(self).wf(),
        ensures
            final(self).wf(),
            grid::stamped(*old(self), *final(self), layout.shape()),
            layout.labelled(old(self).walls(), labels@),
    {
        let ghost walls = self.walls();
        let ghost containers = layout.containers@;
        let ghost fairings = layout.fairings@;
        let mut labels: HashMap<usize, WallKind> = HashMap::new();
        self.stamp_hull(layout);
        self.label_walls(&mut labels, WallKind::Hull);
        proof {
            grid::lemma_stamped_same_shape(
                *old(self),
                *self,
                |i: int, j: int| layout.in_hull(i, j),
                |i: int, j: int| layout.part_among(0, 0, false, i, j) is Some,
            );
        }
        let mut n: usize = 0;
        while n < layout.containers.len()
            invariant
                n <= layout.containers@.len(),
                old(self).wf(),
                self.wf(),
                walls == old(self).walls(),
                containers == layout.containers@,
                grid::stamped(
                    *old(self),
                    *self,
                    |i: int, j: int| layout.part_among(n as nat, 0, false, i, j) is Some,
                ),
                layout.labelled_among(n as nat, 0, walls, labels@),
            decreases layout.containers@.len() - n,
        {
            let container: Container<S> = layout.containers[n];
            let ghost before = *self;
            self.rectangle(
                container.center.0,
                container.center.1,
                container.width,
                container.height,
            );
            self.label_walls(&mut labels, WallKind::Container(container.id));
            proof {
                assert(containers[n as int] == container);
                let rest = |i: int, j: int| layout.part_among(n as nat, 0, false, i, j) is Some;
                let shape = container_shape(container);
                let all = |i: int, j: int|
                    layout.part_among((n + 1) as nat, 0, false, i, j) is Some;
                grid::lemma_stamped_twice(*old(self), before, *self, rest, shape, all);
            }
            n = n + 1;
        }
        let mut m: usize = 0;
        while m < layout.fairings.len()
            invariant
                m <= layout.fairings@.len(),
                n == layout.containers@.len(),
                old(self).wf(),
                self.wf(),
                walls == old(self).walls(),
                fairings == layout.fairings@,
                grid::stamped(
                    *old(self),
                    *self,
                    |i: int, j: int| layout.part_among(n as nat, m as int, false, i, j) is Some,
                ),
                layout.labelled_among(n as nat, m as int, walls, labels@),
            decreases layout.fairings@.len() - m,
        {
            let fairing: Fairing<S> = layout.fairings[m];
            let ghost before = *self;
            self.stamp_fairing(&fairing);
            self.label_walls(&mut labels, WallKind::Fairing);
            proof {
                assert(fairings[m as int] == fairing);
                let rest = |i: int, j: int|
                    layout.part_among(n as nat, m as int, false, i, j) is Some;
                let shape = fairing_shape(fairing);
                let all = |i: int, j: int|
                    layout.part_among(n as nat, m + 1, false, i, j) is Some;
                grid::lemma_stamped_twice(*old(self), before, *self, rest, shape, all);
            }
            m = m + 1;
        }
        labels
    }
}

/// The cells of a grid of still air with the ship `layout` in it.
pub open spec fn ship_cells<S: Scalar>(layout: ShipLayout<S>) -> Seq<Cell<S>> {
    Seq::new(
        CELLS as nat,
        |k: int|
            grid::marked(
                Grid::<S>::still_air(),
                layout.shape()(topology::col_of(k), topology::row_of(k)),
            ),
    )
}

/// A grid of still air with the ship `layout` in it, and what each of its walls belongs to.
pub fn launch<S: Scalar>(layout: &ShipLayout<S>) -> (r: (Grid<S>, HashMap<usize, WallKind>))
    ensures
        r.0.wf(),
        r.0.cells@ == ship_cells(*layout),
        r.0.wall_topology_dirty,
        layout.labelled(Seq::new(CELLS as nat, |k: int| false), r.1@),
        forall|k: usize| #[trigger] r.1@.contains_key(k) ==> k < CELLS,
{
    let mut grid: Grid<S> = Grid::new();
    let ghost empty = grid;
    let labels: HashMap<usize, WallKind> = grid.apply_layout(layout);
    proof {
        assert(empty.walls() =~= Seq::new(CELLS as nat, |k: int| false));
        assert forall|k: int| 0 <= k < CELLS implies #[trigger] grid.cells@[k] == ship_cells(
            *layout,
        )[k] by {
            assert(empty.cells@[k] == Grid::<S>::still_air());
        }
        assert(grid.cells@ =~= ship_cells(*layout));
    }
    (grid, labels)
}

/// The labels name exactly the walls of the grid.
pub proof fn lemma_labels_are_walls<S: Scalar>(
    layout: ShipLayout<S>,
    before: Grid<S>,
    after: Grid<S>,
    labels: Map<usize, WallKind>,
)
    requires
        before.wf(),
        grid::stamped(before, after, layout.shape()),
        layout.labelled(before.walls(), labels),
    ensures
        forall|k: usize| #[trigger]
            labels.contains_key(k) <==> k < CELLS && after.walls()[k as int],
{
    assert forall|k: usize| #[trigger] labels.contains_key(k) <==> k < CELLS
        && after.walls()[k as int] by {
        if k < CELLS {
            let i = topology::col_of(k as int);
            let j = topology::row_of(k as int);
            let was_wall = before.walls()[k as int];
            assert(after.cells@[k as int].wall == (was_wall || layout.shape()(i, j)));
        }
    }
}

/// A label names the hull, a container of the ship, or a fairing of a ship that has one.
pub proof fn lemma_labels_of_ship<S: Scalar>(
    layout: ShipLayout<S>,
    walls: Seq<bool>,
    labels: Map<usize, WallKind>,
    k: usize,
)
    requires
        layout.labelled(walls, labels),
        labels.contains_key(k),
    ensures
        match labels[k] {
            WallKind::Hull => true,
            WallKind::Container(id) => exists|n: int|
                0 <= n < layout.containers@.len() && #[trigger] layout.containers@[n].id == id,
            WallKind::Fairing => layout.fairings@.len() > 0,
        },
{
    let i = topology::col_of(k as int);
    let j = topology::row_of(k as int);
    assert(Some(labels[k]) == layout.part(walls[k as int], i, j));
    if labels[k] is Container {
        lemma_container_at(layout.containers@, layout.containers@.len(), i, j);
    }
}

proof fn lemma_container_at<S: Scalar>(containers: Seq<Container<S>>, n: nat, i: int, j: int)
    requires
        container_at(containers, n, i, j) is Some,
    ensures
        exists|m: int|
            0 <= m < n && #[trigger] containers[m].id == container_at(containers, n, i, j)->0
                && container_shape(containers[m])(i, j),
    decreases n,
{
    if container_at(containers, (n - 1) as nat, i, j) is Some {
        lemma_container_at(containers, (n - 1) as nat, i, j);
        let m = choose|m: int|
            0 <= m < n - 1 && #[trigger] containers[m].id == container_at(
                containers,
                (n - 1) as nat,
                i,
                j,
            )->0 && container_shape(containers[m])(i, j);
        assert(containers[m].id == container_at(containers, n, i, j)->0);
    } else {
        assert(containers[n - 1].id == container_at(containers, n, i, j)->0);
    }
}

proof fn lemma_taper(s: nat, t: nat, length: nat)
    requires
        s <= t <= length,
        1 <= length,
    ensures
        0 <= taper_spec::<Fixed>(t, length).raw <= taper_spec::<Fixed>(s, length).raw
            <= fixed::ONE,
        taper_spec::<Fixed>(0, length) == Fixed::whole_spec(1),
        taper_spec::<Fixed>(length, length) == Fixed::whole_spec(0),
{
    let d = Fixed::whole_spec(length);
    let a = Fixed::whole_spec(s);
    let b = Fixed::whole_spec(t);
    fixed::lemma_over_monotonic(a, b, d);
    fixed::lemma_over_monotonic(b, d, d);
    fixed::lemma_over_monotonic(Fixed::whole_spec(0), a, d);
}

/// The number `length` divides itself and 0 as it should.
pub open spec fn divides_exactly<S: Scalar>(length: nat) -> bool {
    &&& S::whole_spec(length).over_spec(S::whole_spec(length)) == S::whole_spec(1)
    &&& S::whole_spec(0).over_spec(S::whole_spec(length)) == S::whole_spec(0)
}

/// What is left of a wedge of the length `length` in its column `s` lies between 0 and 1, and is
/// what is missing to 1 from what is gone.
pub open spec fn taper_exact<S: Scalar>(s: int, length: nat) -> bool {
    let t = taper_spec::<S>(s as nat, length);
    &&& scalar::in_unit(t)
    &&& S::whole_spec(1).minus_spec(S::whole_spec(1).minus_spec(t)) == t
}

/// What is left of a wedge of the length `length` is computed without a loss.
pub open spec fn tapers_exactly<S: Scalar>(length: nat) -> bool {
    &&& divides_exactly::<S>(length)
    &&& forall|s: int| 0 <= s <= length ==> #[trigger] taper_exact::<S>(s, length)
}

/// If `a` and `b` lie between 0 and 1 and `a` is not above `b`, then neither is the number of cells
/// in the share `a` of `half_height` above that in the share `b`.
pub open spec fn heights_ordered<S: Scalar>(half_height: S, a: S, b: S) -> bool {
    scalar::in_unit(a) && scalar::in_unit(b) && a.at_most_spec(b) ==> half_height.times_spec(
        a,
    ).rounded_spec() <= half_height.times_spec(b).rounded_spec()
}

/// The number of cells in a share of `half_height` grows with the share, from none at 0 to all at
/// 1.
pub open spec fn height_grows<S: Scalar>(half_height: S) -> bool {
    &&& half_height.times_spec(S::whole_spec(0)).rounded_spec() == 0
    &&& half_height.times_spec(S::whole_spec(1)) == half_height
    &&& forall|a: S, b: S| #[trigger] heights_ordered(half_height, a, b)
}

/// The fixed-point numbers compute what is left of a wedge without a loss.
pub proof fn lemma_fixed_tapers_exactly(length: nat)
    requires
        1 <= length,
    ensures
        tapers_exactly::<Fixed>(length),
{
    assert forall|s: int| 0 <= s <= length implies #[trigger] taper_exact::<Fixed>(s, length) by {
        lemma_taper(s as nat, s as nat, length);
    }
    fixed::lemma_over_monotonic(
        Fixed::whole_spec(length),
        Fixed::whole_spec(length),
        Fixed::whole_spec(length),
    );
}

/// The number of cells in a share of a height that is not negative grows with the share.
pub proof fn lemma_fixed_height_grows(half_height: Fixed)
    requires
        0 <= half_height.raw,
    ensures
        height_grows(half_height),
{
    fixed::lemma_times_zero(half_height);
    fixed::lemma_times_one(half_height);
    assert forall|a: Fixed, b: Fixed| #[trigger] heights_ordered(half_height, a, b) by {
        if a.at_most_spec(b) {
            fixed::lemma_times_monotonic(a, b, half_height);
            fixed::lemma_rounded_monotonic(
                half_height.times_spec(a),
                half_height.times_spec(b),
            );
        }
    }
}

/// The end of a hull has its full height at its base, and none at its tip, whatever its
/// curvature.
pub proof fn lemma_hull_end_ends<S: Scalar>(half_height: S, curvature: S, length: nat)
    requires
        scalar::unit_exact::<S>(),
        scalar::in_unit(
            scalar::clamped_spec(curvature, S::whole_spec(0), S::whole_spec(1)),
        ),
        divides_exactly::<S>(length),
        half_height.times_spec(S::whole_spec(0)).rounded_spec() == 0,
        half_height.times_spec(S::whole_spec(1)) == half_height,
    ensures
        end_half(half_height, curvature, length, 0) == half_height.rounded_spec(),
        end_half(half_height, curvature, length, length) == 0,
{
    let zero = S::whole_spec(0);
    let one = S::whole_spec(1);
    let c = scalar::clamped_spec(curvature, zero, one);
    assert(scalar::unit_number(c));
    assert(profile_spec(one, c) == one);
    assert(profile_spec(zero, c) == zero);
}

/// Less is left of a wedge of the length `length` in its column `t` than in its column `s`, or as
/// much.
pub open spec fn taper_ordered<S: Scalar>(s: int, t: int, length: nat) -> bool {
    taper_spec::<S>(t as nat, length).at_most_spec(taper_spec(s as nat, length))
}

/// No more is left of a wedge of the length `length` in a column than in one before it.
pub open spec fn tapers_in_order<S: Scalar>(length: nat) -> bool {
    forall|s: int, t: int| 0 <= s <= t <= length ==> #[trigger] taper_ordered::<S>(s, t, length)
}

/// With fixed-point numbers no more is left of a wedge in a column than in one before it.
pub proof fn lemma_fixed_tapers_in_order(length: nat)
    requires
        1 <= length,
    ensures
        tapers_in_order::<Fixed>(length),
{
    assert forall|s: int, t: int| 0 <= s <= t <= length implies #[trigger] taper_ordered::<Fixed>(
        s,
        t,
        length,
    ) by {
        lemma_taper(s as nat, t as nat, length);
    }
}

/// The end of a hull grows no higher from its base to its tip.
pub proof fn lemma_hull_end_tapers<S: Scalar>(
    half_height: S,
    curvature: S,
    length: nat,
    s: int,
    t: int,
)
    requires
        scalar::unit_exact::<S>(),
        scalar::in_unit(
            scalar::clamped_spec(curvature, S::whole_spec(0), S::whole_spec(1)),
        ),
        tapers_exactly::<S>(length),
        tapers_in_order::<S>(length),
        height_grows(half_height),
        0 <= s <= t <= length,
    ensures
        end_half(half_height, curvature, length, t as nat) <= end_half(
            half_height,
            curvature,
            length,
            s as nat,
        ),
{
    let zero = S::whole_spec(0);
    let one = S::whole_spec(1);
    let c = scalar::clamped_spec(curvature, zero, one);
    let a = taper_spec::<S>(t as nat, length);
    let b = taper_spec::<S>(s as nat, length);
    assert(taper_exact::<S>(s, length));
    assert(taper_exact::<S>(t, length));
    assert(taper_ordered::<S>(s, t, length));
    let gone_a = one.minus_spec(a);
    let gone_b = one.minus_spec(b);
    let lost_a = gone_a.times_spec(gone_a);
    let lost_b = gone_b.times_spec(gone_b);
    let left_a = one.minus_spec(lost_a);
    let left_b = one.minus_spec(lost_b);
    let square_a = scalar::at_least_spec(left_a, zero);
    let square_b = scalar::at_least_spec(left_b, zero);
    assert(scalar::unit_number(a) && scalar::unit_number(b));
    assert(scalar::unit_numbers(a, b));
    assert(gone_b.at_most_spec(gone_a));
    assert(scalar::unit_numbers(gone_a, gone_a) && scalar::unit_numbers(gone_b, gone_b));
    assert(scalar::unit_numbers(gone_b, gone_a));
    assert(scalar::unit_products(gone_b, gone_a, gone_b));
    assert(scalar::unit_products(gone_b, gone_a, gone_a));
    assert(scalar::order_carries(lost_b, gone_b.times_spec(gone_a), lost_a));
    assert(lost_b.at_most_spec(lost_a));
    assert(scalar::unit_number(lost_a) && scalar::unit_number(lost_b));
    assert(scalar::unit_numbers(lost_b, lost_a));
    assert(left_a.at_most_spec(left_b));
    assert(scalar::unit_number(left_a) && scalar::unit_number(left_b));
    assert(scalar::order_carries(left_a, left_b, zero));
    assert(square_a.at_most_spec(square_b));
    assert(scalar::unit_number(square_a) && scalar::unit_number(square_b));
    assert(scalar::unit_numbers(square_a, square_b));
    assert(scalar::unit_means(a, b, square_a.root_spec(), square_b.root_spec(), c));
    assert(heights_ordered(half_height, profile_spec(a, c), profile_spec(b, c)));
}

/// A fairing has its full height where it meets the stack, and none at its tip.
pub proof fn lemma_fairing_ends<S: Scalar>(fairing: Fairing<S>)
    requires
        scalar::unit_ends_exact::<S>(),
        divides_exactly::<S>(fairing_length(fairing) as nat),
        fairing.half_height.times_spec(S::whole_spec(0)).rounded_spec() == 0,
        fairing.half_height.times_spec(S::whole_spec(1)) == fairing.half_height,
    ensures
        fairing_half(fairing, 0) == fairing.half_height.rounded_spec(),
        fairing_half(fairing, fairing_length(fairing) as nat) == 0,
{
}

/// A fairing grows no higher away from the stack.
pub proof fn lemma_fairing_tapers<S: Scalar>(fairing: Fairing<S>, s: int, t: int)
    requires
        tapers_exactly::<S>(fairing_length(fairing) as nat),
        tapers_in_order::<S>(fairing_length(fairing) as nat),
        height_grows(fairing.half_height),
        0 <= s <= t <= fairing_length(fairing),
    ensures
        fairing_half(fairing, t as nat) <= fairing_half(fairing, s as nat),
{
    let length = fairing_length(fairing) as nat;
    assert(taper_exact::<S>(s, length));
    assert(taper_exact::<S>(t, length));
    assert(taper_ordered::<S>(s, t, length));
    assert(heights_ordered(
        fairing.half_height,
        taper_spec::<S>(t as nat, length),
        taper_spec::<S>(s as nat, length),
    ));
}

/// With fixed-point numbers a fairing takes up one column besides the first, or more.
pub proof fn lemma_fairing_length(fairing: Fairing<Fixed>)
    ensures
        fairing_length(fairing) >= 1,
{
}

/// Without curvature the end of a hull is pointed; with full curvature it is a quarter of an
/// ellipse.
pub proof fn lemma_profile_extremes(t: Fixed)
    ensures
        profile_spec(t, Fixed::whole_spec(0)) == t,
        profile_spec(t, Fixed::whole_spec(1)) == scalar::at_least_spec(
            Fixed::whole_spec(1).minus_spec(
                Fixed::whole_spec(1).minus_spec(t).times_spec(Fixed::whole_spec(1).minus_spec(t)),
            ),
            Fixed::whole_spec(0),
        ).root_spec(),
{
    let zero = Fixed::whole_spec(0);
    let one = Fixed::whole_spec(1);
    let gone = one.minus_spec(t);
    let square = scalar::at_least_spec(one.minus_spec(gone.times_spec(gone)), zero);
    let round = square.root_spec();
    fixed::lemma_times_one(t);
    fixed::lemma_times_zero(t);
    fixed::lemma_times_one(round);
    fixed::lemma_times_zero(round);
    fixed::lemma_root_monotonic(square, square);
}

proof fn lemma_round_above_pointed<S: Scalar>(t: S)
    requires
        scalar::unit_exact::<S>(),
        scalar::in_unit(t),
        S::whole_spec(1).minus_spec(S::whole_spec(1).minus_spec(t)) == t,
    ensures
        scalar::in_unit(profile_spec(t, S::whole_spec(0))),
        scalar::in_unit(profile_spec(t, S::whole_spec(1))),
        profile_spec(t, S::whole_spec(0)).at_most_spec(profile_spec(t, S::whole_spec(1))),
{
    let zero = S::whole_spec(0);
    let one = S::whole_spec(1);
    let gone = one.minus_spec(t);
    let lost = gone.times_spec(gone);
    let left = one.minus_spec(lost);
    let square = scalar::at_least_spec(left, zero);
    let round = square.root_spec();
    assert(scalar::unit_number(t));
    assert(scalar::unit_number(gone));
    assert(scalar::unit_number(lost));
    assert(scalar::unit_numbers(gone, gone));
    assert(scalar::unit_numbers(lost, gone));
    assert(t.at_most_spec(left));
    assert(scalar::unit_number(left));
    assert(scalar::order_carries(t, left, zero));
    assert(t.at_most_spec(square));
    assert(scalar::unit_number(square));
    assert(scalar::order_carries(t, square, round));
    assert(scalar::unit_numbers(t, round));
    assert(scalar::order_carries(profile_spec(t, zero), t, round));
    assert(scalar::order_carries(profile_spec(t, zero), round, profile_spec(t, one)));
}

/// The pointed end of a hull lies within the rounded one, in every number type that computes with
/// the numbers between 0 and 1 as it should.
pub proof fn lemma_pointed_within_rounded<S: Scalar>(
    base: int,
    tip: int,
    y: int,
    half_height: S,
    i: int,
    j: int,
)
    requires
        scalar::unit_exact::<S>(),
        tapers_exactly::<S>(end_length(base, tip)),
        height_grows(half_height),
        hull_end_shape(base, tip, y, half_height, S::whole_spec(0))(i, j),
    ensures
        hull_end_shape(base, tip, y, half_height, S::whole_spec(1))(i, j),
{
    let zero = S::whole_spec(0);
    let one = S::whole_spec(1);
    let length = end_length(base, tip);
    let s = if tip < base {
        base - i
    } else {
        i - base
    };
    assert(taper_exact::<S>(s, length));
    let t = taper_spec::<S>(s as nat, length);
    lemma_round_above_pointed(t);
    assert(heights_ordered(half_height, profile_spec(t, zero), profile_spec(t, one)));
}

/// A curvature below 0 acts as 0, and one above 1 as 1.
pub proof fn lemma_curvature_limits<S: Scalar>(
    base: int,
    tip: int,
    y: int,
    half_height: S,
    curvature: S,
    i: int,
    j: int,
)
    requires
        scalar::unit_ordered::<S>(),
    ensures
        curvature.below_spec(S::whole_spec(0)) ==> hull_end_shape(
            base,
            tip,
            y,
            half_height,
            curvature,
        )(i, j) == hull_end_shape(base, tip, y, half_height, S::whole_spec(0))(i, j),
        S::whole_spec(1).below_spec(curvature) && !curvature.below_spec(S::whole_spec(0))
            ==> hull_end_shape(base, tip, y, half_height, curvature)(i, j) == hull_end_shape(
            base,
            tip,
            y,
            half_height,
            S::whole_spec(1),
        )(i, j),
{
}

/// The end of a hull lies between its base and its tip, or, where these are one column, in that
/// column and the next, and reaches as far up from its middle row as down.
pub proof fn lemma_hull_end_extent<S: Scalar>(
    base: int,
    tip: int,
    y: int,
    half_height: S,
    curvature: S,
    i: int,
    d: int,
)
    ensures
        hull_end_shape(base, tip, y, half_height, curvature)(i, y + d) == hull_end_shape(
            base,
            tip,
            y,
            half_height,
            curvature,
        )(i, y - d),
        hull_end_shape(base, tip, y, half_height, curvature)(i, y + d) ==> if tip < base {
            tip <= i <= base
        } else if tip > base {
            base <= i <= tip
        } else {
            base <= i <= base + 1
        },
{
}

/// At its tip the end of a hull is one cell high, whatever its curvature.
pub proof fn lemma_hull_end_tip<S: Scalar>(
    base: int,
    tip: int,
    y: int,
    half_height: S,
    curvature: S,
    j: int,
)
    requires
        base != tip,
        scalar::unit_exact::<S>(),
        scalar::in_unit(
            scalar::clamped_spec(curvature, S::whole_spec(0), S::whole_spec(1)),
        ),
        divides_exactly::<S>(end_length(base, tip)),
        half_height.times_spec(S::whole_spec(0)).rounded_spec() == 0,
        half_height.times_spec(S::whole_spec(1)) == half_height,
    ensures
        hull_end_shape(base, tip, y, half_height, curvature)(tip, j) <==> j == y,
{
    lemma_hull_end_ends(half_height, curvature, end_length(base, tip));
}

/// With fixed-point numbers the pointed end of a hull of any length, and of any height that is not
/// negative, lies within the rounded one.
pub proof fn lemma_fixed_pointed_within_rounded(
    base: int,
    tip: int,
    y: int,
    half_height: Fixed,
    i: int,
    j: int,
)
    requires
        0 <= half_height.raw,
        hull_end_shape(base, tip, y, half_height, Fixed::whole_spec(0))(i, j),
    ensures
        hull_end_shape(base, tip, y, half_height, Fixed::whole_spec(1))(i, j),
{
    fixed::lemma_unit_exact();
    lemma_fixed_tapers_exactly(end_length(base, tip));
    lemma_fixed_height_grows(half_height);
    lemma_pointed_within_rounded(base, tip, y, half_height, i, j);
}

/// With fixed-point numbers the end of a hull of any height and curvature is one cell high at its
/// tip.
pub proof fn lemma_fixed_hull_end_tip(
    base: int,
    tip: int,
    y: int,
    half_height: Fixed,
    curvature: Fixed,
    j: int,
)
    requires
        base != tip,
    ensures
        hull_end_shape(base, tip, y, half_height, curvature)(tip, j) <==> j == y,
{
    fixed::lemma_unit_exact();
    lemma_fixed_tapers_exactly(end_length(base, tip));
    fixed::lemma_times_zero(half_height);
    fixed::lemma_times_one(half_height);
    lemma_hull_end_tip(base, tip, y, half_height, curvature, j);
}

} // verus!
