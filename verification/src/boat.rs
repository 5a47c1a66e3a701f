//! Ships built from a few measures: a hull, and a stack of containers on it.
use rand::rngs::ThreadRng;
use rand::Rng;
use vstd::prelude::*;
use crate::fixed;
use crate::fixed::Fixed;
use crate::scalar;
use crate::scalar::Scalar;
use crate::ship::{Container, Fairing, FairingSide, HullCurveSpec, ShipLayout};
use crate::stamp;

verus! {

/// How the containers are stacked.
#[derive(Clone, Copy, Debug)]
pub enum ContainerLayoutKind {
    /// Rows of equal length.
    Grid { rows: usize, cols: usize },
    /// Each row one container shorter than the one below it.
    Pyramid { rows: usize },
    /// Rows of equal length, every other one shifted by half a step.
    Staggered { rows: usize, cols: usize },
}

/// The measures of a ship and its containers.
#[derive(Copy, Debug)]
pub struct BoatParams<S> {
    /// The column and the row of the centre of the hull.
    pub center: (isize, isize),
    pub hull_width: S,
    pub hull_height: S,
    pub container_width: S,
    pub container_height: S,
    /// The space between containers, and between the hull and the lowest row.
    pub container_gap: S,
    pub kind: ContainerLayoutKind,
    pub flow_angle: S,
    pub curve_bow: bool,
    pub curve_stern: bool,
    pub hull_curvature: S,
    pub bow_length: S,
    pub stern_length: S,
    pub add_bow_fairing: bool,
    pub add_stern_fairing: bool,
    pub fairing_length: S,
}

impl<S: Copy> Clone for BoatParams<S> {
    fn clone(&self) -> (r: Self)
        ensures
            r == *self,
    {
        *self
    }
}

impl ContainerLayoutKind {
    /// The number of rows.
    pub open spec fn rows(self) -> nat {
        match self {
            ContainerLayoutKind::Grid { rows, .. } => rows as nat,
            ContainerLayoutKind::Pyramid { rows } => rows as nat,
            ContainerLayoutKind::Staggered { rows, .. } => rows as nat,
        }
    }

    /// The number of containers in row `r`, the lowest being row 0.
    pub open spec fn row_length(self, r: int) -> nat {
        match self {
            ContainerLayoutKind::Grid { cols, .. } => cols as nat,
            ContainerLayoutKind::Pyramid { rows } => (rows - r) as nat,
            ContainerLayoutKind::Staggered { cols, .. } => cols as nat,
        }
    }

    /// Row `r` is shifted.
    pub open spec fn shifted(self, r: int) -> bool {
        self is Staggered && r % 2 == 1
    }

    /// The number of containers in the first `n` rows.
    pub open spec fn count(self, n: nat) -> nat
        decreases n,
    {
        if n == 0 {
            0
        } else {
            self.count((n - 1) as nat) + self.row_length(n - 1)
        }
    }
}

impl<S: Scalar> BoatParams<S> {
    /// From the middle of a container to that of the next in its row.
    pub open spec fn step_x_spec(self) -> S {
        self.container_width.plus_spec(self.container_gap)
    }

    /// From the middle of a container to that of the next above it.
    pub open spec fn step_y_spec(self) -> S {
        self.container_height.plus_spec(self.container_gap)
    }

    /// The column in which row `r` begins.
    pub open spec fn start_x(self, r: int) -> int {
        let width = S::whole_spec(self.kind.row_length(r)).times_spec(
            self.step_x_spec(),
        ).minus_spec(self.container_gap);
        let shift = if self.kind.shifted(r) {
            self.step_x_spec().over_spec(S::whole_spec(2))
        } else {
            S::whole_spec(0)
        };
        self.center.0 - width.over_spec(S::whole_spec(2)).truncated_spec()
            + shift.truncated_spec()
    }

    /// The column of container `c` of row `r`.
    pub open spec fn column(self, r: int, c: int) -> int {
        self.start_x(r) + S::whole_spec(c as nat).times_spec(self.step_x_spec()).plus_spec(
            self.container_width.over_spec(S::whole_spec(2)),
        ).truncated_spec()
    }

    /// The grid row of the containers of row `r`.
    pub open spec fn height(self, r: int) -> int {
        self.center.1 - stamp::half_cells_spec(self.hull_height) - S::whole_spec(
            r as nat,
        ).times_spec(self.step_y_spec()).truncated_spec() - stamp::half_cells_spec(
            self.container_height,
        ) - self.container_gap.truncated_spec()
    }

    /// The columns and rows of the first `n` containers of row `r`.
    pub open spec fn row_centers(self, r: int, n: nat) -> Seq<(int, int)> {
        Seq::new(n, |c: int| (self.column(r, c), self.height(r)))
    }

    /// The columns and rows of the containers of the first `n` rows.
    pub open spec fn centers(self, n: nat) -> Seq<(int, int)>
        decreases n,
    {
        if n == 0 {
            Seq::empty()
        } else {
            self.centers((n - 1) as nat) + self.row_centers(
                n - 1,
                self.kind.row_length(n - 1),
            )
        }
    }

    /// The columns and rows of all containers.
    pub open spec fn stack(self) -> Seq<(int, int)> {
        self.centers(self.kind.rows())
    }

    /// The first column of the stack.
    pub open spec fn min_x(self) -> int {
        least(self.stack().map_values(|c: (int, int)| c.0)) - stamp::half_cells_spec(
            self.container_width,
        )
    }

    /// The last column of the stack.
    pub open spec fn max_x(self) -> int {
        greatest(self.stack().map_values(|c: (int, int)| c.0)) + stamp::half_cells_spec(
            self.container_width,
        )
    }

    /// The first row of the stack.
    pub open spec fn min_y(self) -> int {
        least(self.stack().map_values(|c: (int, int)| c.1)) - stamp::half_cells_spec(
            self.container_height,
        )
    }

    /// The last row of the stack.
    pub open spec fn max_y(self) -> int {
        greatest(self.stack().map_values(|c: (int, int)| c.1)) + stamp::half_cells_spec(
            self.container_height,
        )
    }

    /// The ship has fairings.
    pub open spec fn has_fairings(self) -> bool {
        self.stack().len() > 0 && (self.add_bow_fairing || self.add_stern_fairing)
    }

    /// The fairing on the side `side`: as high as the stack, in the middle of its height.
    pub open spec fn fairing(self, side: FairingSide) -> Fairing<S> {
        Fairing {
            position: (
                if side == FairingSide::Bow {
                    self.min_x()
                } else {
                    self.max_x()
                } as isize,
                fixed::toward_zero(self.min_y() + self.max_y(), 2) as isize,
            ),
            length: self.fairing_length,
            half_height: scalar::at_least_spec(
                scalar::signed_spec::<S>(self.max_y() - self.min_y()).over_spec(
                    S::whole_spec(2),
                ),
                S::whole_spec(1),
            ),
            side,
        }
    }

    /// The fairings, the one at the bow first.
    pub open spec fn fairings(self) -> Seq<Fairing<S>> {
        if !self.has_fairings() {
            Seq::empty()
        } else if self.add_bow_fairing && self.add_stern_fairing {
            seq![self.fairing(FairingSide::Bow), self.fairing(FairingSide::Stern)]
        } else if self.add_bow_fairing {
            seq![self.fairing(FairingSide::Bow)]
        } else {
            seq![self.fairing(FairingSide::Stern)]
        }
    }

    /// The form of the ends of the hull.
    pub open spec fn hull_curve(self) -> Option<HullCurveSpec<S>> {
        if self.curve_bow || self.curve_stern {
            Some(
                HullCurveSpec {
                    curve_bow: self.curve_bow,
                    curve_stern: self.curve_stern,
                    curvature: self.hull_curvature,
                    bow_length: self.bow_length,
                    stern_length: self.stern_length,
                },
            )
        } else {
            None
        }
    }

    /// The bow is curved, over some length.
    pub open spec fn has_bow(self) -> bool {
        self.curve_bow && S::whole_spec(0).below_spec(self.bow_length)
    }

    /// The stern is curved, over some length.
    pub open spec fn has_stern(self) -> bool {
        self.curve_stern && S::whole_spec(0).below_spec(self.stern_length)
    }

    /// The width of the hull between its curved ends: its whole width less their lengths, and
    /// not below zero where there is such an end.
    pub open spec fn body_width(self) -> S {
        let behind_bow = if self.has_bow() {
            self.hull_width.minus_spec(self.bow_length)
        } else {
            self.hull_width
        };
        let between = if self.has_stern() {
            behind_bow.minus_spec(self.stern_length)
        } else {
            behind_bow
        };
        if self.has_bow() || self.has_stern() {
            scalar::at_least_spec(between, S::whole_spec(0))
        } else {
            self.hull_width
        }
    }

    /// The containers can be numbered, and the columns and rows of the ship fit an `isize`.
    pub open spec fn fits(self) -> bool {
        &&& self.stack().len() <= usize::MAX
        &&& forall|n: int|
            0 <= n < self.stack().len() ==> fits_cells((#[trigger] self.stack()[n]).0)
                && fits_cells(self.stack()[n].1)
        &&& self.has_fairings() ==> {
            &&& fits_cells(self.min_x())
            &&& fits_cells(self.max_x())
            &&& fits_cells(self.min_y())
            &&& fits_cells(self.max_y())
            &&& fits_cells(self.max_y() - self.min_y())
            &&& fits_cells(self.min_y() + self.max_y())
        }
    }

    /// `layout` is the ship with these measures and the name `name`.
    pub open spec fn describes(self, name: Seq<char>, layout: ShipLayout<S>) -> bool {
        &&& layout.name@ == name
        &&& layout.hull_rects@ == seq![(self.center, self.body_width(), self.hull_height)]
        &&& layout.hull_curve == self.hull_curve()
        &&& layout.containers@.len() == self.stack().len()
        &&& forall|n: int|
            0 <= n < layout.containers@.len() ==> is_container(
                #[trigger] layout.containers@[n],
                n,
                self.stack()[n],
                self,
            )
        &&& layout.fairings@ == self.fairings()
        &&& layout.flow_angle == self.flow_angle
    }
}

/// `container` is number `n` of the containers of `p`, with the centre `center`.
pub open spec fn is_container<S: Scalar>(
    container: Container<S>,
    n: int,
    center: (int, int),
    p: BoatParams<S>,
) -> bool {
    &&& container.id == n
    &&& container.center.0 == center.0
    &&& container.center.1 == center.1
    &&& container.width == p.container_width
    &&& container.height == p.container_height
}

/// `n` can be a column or a row.
pub open spec fn fits_cells(n: int) -> bool {
    isize::MIN <= n <= isize::MAX
}

/// The least of `numbers`.
pub open spec fn least(numbers: Seq<int>) -> int
    decreases numbers.len(),
{
    if numbers.len() <= 1 {
        numbers[0]
    } else {
        let rest = least(numbers.drop_last());
        if numbers.last() < rest {
            numbers.last()
        } else {
            rest
        }
    }
}

/// The greatest of `numbers`.
pub open spec fn greatest(numbers: Seq<int>) -> int
    decreases numbers.len(),
{
    if numbers.len() <= 1 {
        numbers[0]
    } else {
        let rest = greatest(numbers.drop_last());
        if numbers.last() > rest {
            numbers.last()
        } else {
            rest
        }
    }
}

/// `containers` are the containers of `p` with the centres `centers`.
pub open spec fn stacked<S: Scalar>(
    p: BoatParams<S>,
    containers: Seq<Container<S>>,
    centers: Seq<(int, int)>,
) -> bool {
    &&& containers.len() == centers.len()
    &&& forall|n: int|
        0 <= n < containers.len() ==> is_container(#[trigger] containers[n], n, centers[n], p)
}

proof fn lemma_centers_prefix<S: Scalar>(p: BoatParams<S>, m: nat, n: nat, k: int)
    requires
        m <= n,
        0 <= k < p.centers(m).len(),
    ensures
        k < p.centers(n).len(),
        p.centers(n)[k] == p.centers(m)[k],
    decreases n,
{
    if m < n {
        lemma_centers_prefix(p, m, (n - 1) as nat, k);
    }
}

fn fit_cells(n: i128) -> (r: Option<isize>)
    ensures
        r is Some <==> fits_cells(n as int),
        r is Some ==> r->0 == n,
{
    if isize::MIN as i128 <= n && n <= isize::MAX as i128 {
        Some(n as isize)
    } else {
        None
    }
}

/// Adds row `r` to the stack. Returns whether its columns and rows fit an `isize`.
fn push_row<S: Scalar>(
    p: &BoatParams<S>,
    r: usize,
    cols: usize,
    containers: &mut Vec<Container<S>>,
) -> (ok: bool)
    requires
        r < p.kind.rows(),
        cols == p.kind.row_length(r as int),
        stacked(*p, old(containers)@, p.centers(r as nat)),
    ensures
        ok ==> stacked(*p, final(containers)@, p.centers((r + 1) as nat)),
        !ok ==> !p.fits(),
{
    let two: S = S::whole(2);
    let step_x: S = p.container_width.plus(p.container_gap);
    let step_y: S = p.container_height.plus(p.container_gap);
    let shift: S = match p.kind {
        ContainerLayoutKind::Staggered { .. } => if r % 2 == 1 {
            step_x.over(two)
        } else {
            S::whole(0)
        },
        _ => S::whole(0),
    };
    let total: S = S::whole(cols).times(step_x).minus(p.container_gap);
    let start_x: i128 = p.center.0 as i128 - total.over(two).truncated() as i128
        + shift.truncated() as i128;
    let cy: i128 = p.center.1 as i128 - stamp::half_cells(p.hull_height) as i128 - S::whole(
        r,
    ).times(step_y).truncated() as i128 - stamp::half_cells(p.container_height) as i128
        - p.container_gap.truncated() as i128;
    assert(start_x == p.start_x(r as int));
    assert(cy == p.height(r as int));
    let ghost lower = p.centers(r as nat);
    let ghost row = p.row_centers(r as int, cols as nat);
    assert(p.centers((r + 1) as nat) == lower + row);
    let mut c: usize = 0;
    while c < cols
        invariant
            c <= cols,
            r < p.kind.rows(),
            cols == p.kind.row_length(r as int),
            two == S::whole_spec(2),
            step_x == p.step_x_spec(),
            start_x == p.start_x(r as int),
            -0x3_0000_0000_0000_0000 <= start_x <= 0x3_0000_0000_0000_0000,
            cy == p.height(r as int),
            lower == p.centers(r as nat),
            row == p.row_centers(r as int, cols as nat),
            p.centers((r + 1) as nat) == lower + row,
            stacked(*p, containers@, lower + row.take(c as int)),
        decreases cols - c,
    {
        let cx: i128 = start_x + S::whole(c).times(step_x).plus(
            p.container_width.over(two),
        ).truncated() as i128;
        assert(cx == p.column(r as int, c as int));
        match (fit_cells(cx), fit_cells(cy)) {
            (Some(x), Some(y)) => {
                let id: usize = containers.len();
                containers.push(
                    Container {
                        id,
                        center: (x, y),
                        width: p.container_width,
                        height: p.container_height,
                    },
                );
                assert(lower + row.take(c + 1) =~= (lower + row.take(c as int)).push(
                    row[c as int],
                ));
            },
            _ => {
                proof {
                    let k = lower.len() + c;
                    lemma_centers_prefix(*p, (r + 1) as nat, p.kind.rows(), k);
                    assert(p.stack()[k] == row[c as int]);
                }
                return false;
            },
        }
        c = c + 1;
    }
    assert(row.take(c as int) =~= row);
    true
}

/// The containers of `p`, if their columns and rows fit an `isize`.
fn stack_containers<S: Scalar>(p: &BoatParams<S>) -> (r: Option<Vec<Container<S>>>)
    ensures
        r is Some ==> stacked(*p, r->0@, p.stack()),
        r is None ==> !p.fits(),
{
    let rows: usize = match p.kind {
        ContainerLayoutKind::Grid { rows, .. } => rows,
        ContainerLayoutKind::Pyramid { rows } => rows,
        ContainerLayoutKind::Staggered { rows, .. } => rows,
    };
    let mut containers: Vec<Container<S>> = Vec::new();
    let mut r: usize = 0;
    while r < rows
        invariant
            r <= rows,
            rows == p.kind.rows(),
            stacked(*p, containers@, p.centers(r as nat)),
        decreases rows - r,
    {
        let cols: usize = match p.kind {
            ContainerLayoutKind::Grid { cols, .. } => cols,
            ContainerLayoutKind::Pyramid { rows } => rows - r,
            ContainerLayoutKind::Staggered { cols, .. } => cols,
        };
        if !push_row(p, r, cols, &mut containers) {
            return None;
        }
        r = r + 1;
    }
    Some(containers)
}

/// The least column, the greatest column, the least row and the greatest row of the centres of
/// `containers`.
fn bounds<S: Scalar>(
    p: &BoatParams<S>,
    containers: &Vec<Container<S>>,
    Ghost(centers): Ghost<Seq<(int, int)>>,
) -> (r: (isize, isize, isize, isize))
    requires
        stacked(*p, containers@, centers),
        centers.len() > 0,
    ensures
        r.0 == least(centers.map_values(|c: (int, int)| c.0)),
        r.1 == greatest(centers.map_values(|c: (int, int)| c.0)),
        r.2 == least(centers.map_values(|c: (int, int)| c.1)),
        r.3 == greatest(centers.map_values(|c: (int, int)| c.1)),
{
    let ghost xs = centers.map_values(|c: (int, int)| c.0);
    let ghost ys = centers.map_values(|c: (int, int)| c.1);
    let mut min_x: isize = containers[0].center.0;
    let mut max_x: isize = min_x;
    let mut min_y: isize = containers[0].center.1;
    let mut max_y: isize = min_y;
    let mut n: usize = 1;
    while n < containers.len()
        invariant
            1 <= n <= containers@.len(),
            stacked(*p, containers@, centers),
            xs == centers.map_values(|c: (int, int)| c.0),
            ys == centers.map_values(|c: (int, int)| c.1),
            min_x == least(xs.take(n as int)),
            max_x == greatest(xs.take(n as int)),
            min_y == least(ys.take(n as int)),
            max_y == greatest(ys.take(n as int)),
        decreases containers@.len() - n,
    {
        let (x, y) = containers[n].center;
        proof {
            assert(is_container(containers@[n as int], n as int, centers[n as int], *p));
            assert(xs.take(n + 1).drop_last() =~= xs.take(n as int));
            assert(ys.take(n + 1).drop_last() =~= ys.take(n as int));
        }
        if x < min_x {
            min_x = x;
        }
        if x > max_x {
            max_x = x;
        }
        if y < min_y {
            min_y = y;
        }
        if y > max_y {
            max_y = y;
        }
        n = n + 1;
    }
    proof {
        assert(xs.take(n as int) =~= xs);
        assert(ys.take(n as int) =~= ys);
    }
    (min_x, max_x, min_y, max_y)
}

fn halve(n: isize) -> (r: isize)
    ensures
        r == fixed::toward_zero(n as int, 2),
{
    if n >= 0 {
        n / 2
    } else {
        (-((-(n as i128)) / 2)) as isize
    }
}

/// The fairings of `p`, if their columns and rows fit an `isize`.
fn stack_fairings<S: Scalar>(
    p: &BoatParams<S>,
    containers: &Vec<Container<S>>,
) -> (r: Option<Vec<Fairing<S>>>)
    requires
        stacked(*p, containers@, p.stack()),
    ensures
        r is Some ==> p.fits() && r->0@ == p.fairings(),
        r is None ==> !p.fits(),
{
    let mut fairings: Vec<Fairing<S>> = Vec::new();
    let count: usize = containers.len();
    proof {
        assert forall|n: int| 0 <= n < p.stack().len() implies fits_cells(
            (#[trigger] p.stack()[n]).0,
        ) && fits_cells(p.stack()[n].1) by {
            assert(is_container(containers@[n], n, p.stack()[n], *p));
        }
    }
    if count == 0 || !(p.add_bow_fairing || p.add_stern_fairing) {
        return Some(fairings);
    }
    let (left, right, top, bottom) = bounds(p, containers, Ghost(p.stack()));
    let half_width: i128 = stamp::half_cells(p.container_width) as i128;
    let half_height: i128 = stamp::half_cells(p.container_height) as i128;
    let min_x: isize = match fit_cells(left as i128 - half_width) {
        Some(x) => x,
        None => {
            return None;
        },
    };
    let max_x: isize = match fit_cells(right as i128 + half_width) {
        Some(x) => x,
        None => {
            return None;
        },
    };
    let min_y: isize = match fit_cells(top as i128 - half_height) {
        Some(y) => y,
        None => {
            return None;
        },
    };
    let max_y: isize = match fit_cells(bottom as i128 + half_height) {
        Some(y) => y,
        None => {
            return None;
        },
    };
    let height: isize = match fit_cells(max_y as i128 - min_y as i128) {
        Some(h) => h,
        None => {
            return None;
        },
    };
    let sum: isize = match fit_cells(min_y as i128 + max_y as i128) {
        Some(y) => y,
        None => {
            return None;
        },
    };
    let half: S = scalar::at_least(scalar::signed::<S>(height).over(S::whole(2)), S::whole(1));
    let middle: isize = halve(sum);
    if p.add_bow_fairing {
        fairings.push(
            Fairing {
                position: (min_x, middle),
                length: p.fairing_length,
                half_height: half,
                side: FairingSide::Bow,
            },
        );
    }
    if p.add_stern_fairing {
        fairings.push(
            Fairing {
                position: (max_x, middle),
                length: p.fairing_length,
                half_height: half,
                side: FairingSide::Stern,
            },
        );
    }
    assert(fairings@ =~= p.fairings());
    Some(fairings)
}

/// The width of the hull between its curved ends.
fn shortened_width<S: Scalar>(p: &BoatParams<S>) -> (r: S)
    ensures
        r == p.body_width(),
{
    let zero: S = S::whole(0);
    let bow: bool = p.curve_bow && zero.below(p.bow_length);
    let stern: bool = p.curve_stern && zero.below(p.stern_length);
    let behind_bow: S = if bow {
        p.hull_width.minus(p.bow_length)
    } else {
        p.hull_width
    };
    let between: S = if stern {
        behind_bow.minus(p.stern_length)
    } else {
        behind_bow
    };
    if bow || stern {
        scalar::at_least(between, zero)
    } else {
        p.hull_width
    }
}

/// The ship with the measures `p` and the name `name`, if its columns and rows fit an `isize`.
pub fn checked_boat_layout<S: Scalar>(name: &str, p: &BoatParams<S>) -> (r: Option<ShipLayout<S>>)
    ensures
        r is Some <==> p.fits(),
        r is Some ==> p.describes(name@, r->0),
{
    let hull_curve: Option<HullCurveSpec<S>> = if p.curve_bow || p.curve_stern {
        Some(
            HullCurveSpec {
                curve_bow: p.curve_bow,
                curve_stern: p.curve_stern,
                curvature: p.hull_curvature,
                bow_length: p.bow_length,
                stern_length: p.stern_length,
            },
        )
    } else {
        None
    };
    let containers: Vec<Container<S>> = match stack_containers(p) {
        Some(containers) => containers,
        None => {
            return None;
        },
    };
    let fairings: Vec<Fairing<S>> = match stack_fairings(p, &containers) {
        Some(fairings) => fairings,
        None => {
            return None;
        },
    };
    let mut hull_rects: Vec<((isize, isize), S, S)> = Vec::new();
    hull_rects.push((p.center, shortened_width(p), p.hull_height));
    Some(
        ShipLayout {
            name: name.to_owned(),
            hull_rects,
            hull_curve,
            containers,
            fairings,
            flow_angle: p.flow_angle,
        },
    )
}

/// The ship with the measures `p` and the name `name`: a hull with its containers stacked upward
/// from it. The rectangle of the hull leaves room for the ends that are curved.
pub fn build_boat_layout<S: Scalar>(name: &str, p: &BoatParams<S>) -> (r: ShipLayout<S>)
    requires
        p.fits(),
    ensures
        p.describes(name@, r),
{
    checked_boat_layout(name, p).unwrap()
}

impl<S: Scalar> BoatParams<S> {
    /// The same measures with the containers stacked as `kind` says.
    pub open spec fn with_kind_spec(self, kind: ContainerLayoutKind) -> Self {
        BoatParams { kind, ..self }
    }

    /// The same measures with the containers stacked as `kind` says.
    pub fn with_kind(&self, kind: ContainerLayoutKind) -> (r: Self)
        ensures
            r == self.with_kind_spec(kind),
    {
        BoatParams { kind, ..*self }
    }
}

/// Three rows of three containers.
pub open spec fn quick_grid() -> ContainerLayoutKind {
    ContainerLayoutKind::Grid { rows: 3, cols: 3 }
}

/// A pyramid of four rows.
pub open spec fn quick_pyramid() -> ContainerLayoutKind {
    ContainerLayoutKind::Pyramid { rows: 4 }
}

/// Three rows of three containers, the middle one shifted.
pub open spec fn quick_staggered() -> ContainerLayoutKind {
    ContainerLayoutKind::Staggered { rows: 3, cols: 3 }
}

/// Three common ships with the measures `base`: with a grid, a pyramid and a staggered stack.
pub fn quick_variants<S: Scalar>(base: BoatParams<S>) -> (r: Vec<ShipLayout<S>>)
    requires
        base.with_kind_spec(quick_grid()).fits(),
        base.with_kind_spec(quick_pyramid()).fits(),
        base.with_kind_spec(quick_staggered()).fits(),
    ensures
        r@.len() == 3,
        base.with_kind_spec(quick_grid()).describes("grille_3x3"@, r@[0]),
        base.with_kind_spec(quick_pyramid()).describes("pyramide_4"@, r@[1]),
        base.with_kind_spec(quick_staggered()).describes("quinconce_3x3"@, r@[2]),
{
    let grid: BoatParams<S> = base.with_kind(ContainerLayoutKind::Grid { rows: 3, cols: 3 });
    let pyramid: BoatParams<S> = base.with_kind(ContainerLayoutKind::Pyramid { rows: 4 });
    let staggered: BoatParams<S> = base.with_kind(
        ContainerLayoutKind::Staggered { rows: 3, cols: 3 },
    );
    let mut layouts: Vec<ShipLayout<S>> = Vec::new();
    layouts.push(build_boat_layout("grille_3x3", &grid));
    layouts.push(build_boat_layout("pyramide_4", &pyramid));
    layouts.push(build_boat_layout("quinconce_3x3", &staggered));
    layouts
}

/// What is drawn by lot of a ship, besides the stacking of its containers.
#[derive(Clone, Copy, Debug)]
pub struct Draws<S> {
    /// From 0 to `gap_limit`.
    pub gap: S,
    pub curve_bow: bool,
    pub curve_stern: bool,
    /// From 0 to 1.
    pub curvature: S,
    pub add_bow_fairing: bool,
    pub add_stern_fairing: bool,
    /// From 2 to `fairing_limit`.
    pub fairing_length: S,
}

/// `x` lies between `low` and `high`.
pub open spec fn lies_between<S: Scalar>(x: S, low: S, high: S) -> bool {
    low.at_most_spec(x) && x.at_most_spec(high)
}

impl<S: Scalar> Draws<S> {
    /// What was drawn for a ship with the measures `base` lies in the ranges that are drawn from.
    pub open spec fn in_range(self, base: BoatParams<S>) -> bool {
        &&& lies_between(self.gap, S::whole_spec(0), gap_limit_spec(base))
        &&& lies_between(self.curvature, S::whole_spec(0), S::whole_spec(1))
        &&& lies_between(self.fairing_length, S::whole_spec(2), fairing_limit_spec(base))
    }
}

/// The greatest number of rows, and of containers in a row, that is drawn.
pub const MOST_DRAWN: usize = 6;

/// `kind` can be drawn.
pub open spec fn drawable(kind: ContainerLayoutKind) -> bool {
    match kind {
        ContainerLayoutKind::Grid { rows, cols } => 1 <= rows <= MOST_DRAWN && 1 <= cols
            <= MOST_DRAWN,
        ContainerLayoutKind::Pyramid { rows } => 1 <= rows <= MOST_DRAWN,
        ContainerLayoutKind::Staggered { rows, cols } => 1 <= rows <= MOST_DRAWN && 1 <= cols
            <= MOST_DRAWN,
    }
}

/// The stacking that the lots `choice`, `rows` and `cols` stand for.
pub open spec fn kind_from_draws_spec(
    choice: usize,
    rows: usize,
    cols: usize,
) -> ContainerLayoutKind {
    if choice == 0 {
        ContainerLayoutKind::Grid { rows, cols }
    } else if choice == 1 {
        ContainerLayoutKind::Pyramid { rows }
    } else {
        ContainerLayoutKind::Staggered { rows, cols }
    }
}

/// The stacking that the lots `choice`, `rows` and `cols` stand for.
pub fn kind_from_draws(choice: usize, rows: usize, cols: usize) -> (r: ContainerLayoutKind)
    ensures
        r == kind_from_draws_spec(choice, rows, cols),
{
    match choice {
        0 => ContainerLayoutKind::Grid { rows, cols },
        1 => ContainerLayoutKind::Pyramid { rows },
        _ => ContainerLayoutKind::Staggered { rows, cols },
    }
}

/// The greatest gap that is drawn for `base`.
pub open spec fn gap_limit_spec<S: Scalar>(base: BoatParams<S>) -> S {
    scalar::at_least_spec(base.container_gap, S::whole_spec(1)).times_spec(S::whole_spec(3))
}

/// The greatest gap that is drawn for `base`: three times its own, and not below three.
pub fn gap_limit<S: Scalar>(base: &BoatParams<S>) -> (r: S)
    ensures
        r == gap_limit_spec(*base),
{
    scalar::at_least(base.container_gap, S::whole(1)).times(S::whole(3))
}

/// The greatest length of a fairing that is drawn for `base`.
pub open spec fn fairing_limit_spec<S: Scalar>(base: BoatParams<S>) -> S {
    scalar::at_least_spec(base.hull_width, S::whole_spec(4)).times_spec(
        scalar::ratio_spec::<S>(1, 2),
    )
}

/// The greatest length of a fairing that is drawn for `base`: half the width of its hull, and
/// not below two.
pub fn fairing_limit<S: Scalar>(base: &BoatParams<S>) -> (r: S)
    ensures
        r == fairing_limit_spec(*base),
{
    scalar::at_least(base.hull_width, S::whole(4)).times(scalar::ratio::<S>(1, 2))
}

impl<S: Scalar> BoatParams<S> {
    /// The same measures with what was drawn.
    pub open spec fn with_draws_spec(self, kind: ContainerLayoutKind, draws: Draws<S>) -> Self {
        BoatParams {
            kind,
            container_gap: draws.gap,
            curve_bow: draws.curve_bow,
            curve_stern: draws.curve_stern,
            hull_curvature: draws.curvature,
            add_bow_fairing: draws.add_bow_fairing,
            add_stern_fairing: draws.add_stern_fairing,
            fairing_length: draws.fairing_length,
            ..self
        }
    }

    /// The same measures with what was drawn.
    pub fn with_draws(&self, kind: ContainerLayoutKind, draws: &Draws<S>) -> (r: Self)
        ensures
            r == self.with_draws_spec(kind, *draws),
    {
        BoatParams {
            kind,
            container_gap: draws.gap,
            curve_bow: draws.curve_bow,
            curve_stern: draws.curve_stern,
            hull_curvature: draws.curvature,
            add_bow_fairing: draws.add_bow_fairing,
            add_stern_fairing: draws.add_stern_fairing,
            fairing_length: draws.fairing_length,
            ..*self
        }
    }

    /// The ship fits whatever stacking is drawn.
    pub open spec fn fits_any_draw(self, draws: Draws<S>) -> bool {
        forall|kind: ContainerLayoutKind| #[trigger]
            drawable(kind) ==> self.with_draws_spec(kind, draws).fits()
    }
}

/// The generator of random numbers of the `rand` crate.
#[verifier::external_type_specification]
#[verifier::external_body]
pub struct ExThreadRng(ThreadRng);

/// Calls `rand::rng`, which hands out the generator of this thread. Nothing is claimed of it.
/// Where the system has no random bytes for it to begin with, it panics; that rests with the
/// machine.
#[verifier::external_body]
fn thread_rng() -> (r: ThreadRng) {
    rand::rng()
}

/// Calls `rand::Rng::random_range` on a range that is not empty, which draws a number of that
/// range. Which one is left to chance. Where the generator is due for new random bytes and the
/// system has none, it panics; that rests with the machine.
#[verifier::external_body]
fn draw(rng: &mut ThreadRng, low: usize, high: usize) -> (r: usize)
    requires
        low <= high,
    ensures
        low <= r <= high,
{
    rng.random_range(low..=high)
}

/// Draws a stacking: from one to six rows, and as many containers in a row.
pub fn draw_kind(rng: &mut ThreadRng) -> (r: ContainerLayoutKind)
    ensures
        drawable(r),
{
    let rows: usize = draw(rng, 1, MOST_DRAWN);
    let cols: usize = draw(rng, 1, MOST_DRAWN);
    let choice: usize = draw(rng, 0, 2);
    kind_from_draws(choice, rows, cols)
}

/// A ship with the measures `base`, but with what was drawn, and with a stacking that is drawn
/// here.
pub fn random_layout<S: Scalar>(
    name: &str,
    base: &BoatParams<S>,
    rng: &mut ThreadRng,
    draws: &Draws<S>,
) -> (r: ShipLayout<S>)
    requires
        base.fits_any_draw(*draws),
    ensures
        exists|kind: ContainerLayoutKind| #[trigger]
            drawable(kind) && base.with_draws_spec(kind, *draws).describes(name@, r),
{
    let kind: ContainerLayoutKind = draw_kind(rng);
    build_boat_layout(name, &base.with_draws(kind, draws))
}

/// The decimal digit `d`.
pub open spec fn digit(d: int) -> char {
    (48 + d) as char
}

/// `n` in decimal notation.
pub open spec fn decimal(n: nat) -> Seq<char>
    decreases n,
{
    if n < 10 {
        seq![digit(n as int)]
    } else {
        decimal(n / 10).push(digit((n % 10) as int))
    }
}

fn digit_text(d: usize) -> (r: &'static str)
    requires
        d < 10,
    ensures
        r@ == seq![digit(d as int)],
{
    proof {
        reveal_strlit("0");
        reveal_strlit("1");
        reveal_strlit("2");
        reveal_strlit("3");
        reveal_strlit("4");
        reveal_strlit("5");
        reveal_strlit("6");
        reveal_strlit("7");
        reveal_strlit("8");
        reveal_strlit("9");
    }
    let text: &'static str = match d {
        0 => "0",
        1 => "1",
        2 => "2",
        3 => "3",
        4 => "4",
        5 => "5",
        6 => "6",
        7 => "7",
        8 => "8",
        _ => "9",
    };
    assert(text@ =~= seq![digit(d as int)]);
    text
}

/// Adds `n` in decimal notation to `text`.
pub fn append_decimal(text: &mut String, n: usize)
    ensures
        final(text)@ == old(text)@ + decimal(n as nat),
    decreases n,
{
    if n >= 10 {
        append_decimal(text, n / 10);
    }
    text.append(digit_text(n % 10));
    assert(text@ =~= old(text)@ + decimal(n as nat));
}

/// The name of random ship `n`.
pub open spec fn random_name(n: nat) -> Seq<char> {
    "alea_"@ + decimal(n)
}

/// As many random ships as there are `draws`, each with the measures `base` and its own draws.
pub fn random_variants<S: Scalar>(base: BoatParams<S>, draws: &Vec<Draws<S>>) -> (r: Vec<
    ShipLayout<S>,
>)
    requires
        forall|n: int| 0 <= n < draws@.len() ==> base.fits_any_draw(#[trigger] draws@[n]),
    ensures
        r@.len() == draws@.len(),
        forall|n: int|
            0 <= n < r@.len() ==> is_random_ship(base, draws@[n], n as nat, #[trigger] r@[n]),
{
    let mut rng: ThreadRng = thread_rng();
    let mut layouts: Vec<ShipLayout<S>> = Vec::new();
    let mut n: usize = 0;
    while n < draws.len()
        invariant
            n <= draws@.len(),
            forall|m: int| 0 <= m < draws@.len() ==> base.fits_any_draw(#[trigger] draws@[m]),
            layouts@.len() == n,
            forall|m: int|
                0 <= m < n ==> is_random_ship(base, draws@[m], m as nat, #[trigger] layouts@[m]),
        decreases draws@.len() - n,
    {
        let mut name: String = "alea_".to_owned();
        append_decimal(&mut name, n);
        let drawn: Draws<S> = draws[n];
        layouts.push(random_layout(name.as_str(), &base, &mut rng, &drawn));
        n = n + 1;
    }
    layouts
}

/// `layout` is random ship `n` with the measures `base` and the draws `draws`.
pub open spec fn is_random_ship<S: Scalar>(
    base: BoatParams<S>,
    draws: Draws<S>,
    n: nat,
    layout: ShipLayout<S>,
) -> bool {
    exists|kind: ContainerLayoutKind| #[trigger]
        drawable(kind) && base.with_draws_spec(kind, draws).describes(random_name(n), layout)
}

/// A random ship has a curvature from 0 to 1, if its ends are curved, and at most two fairings,
/// each with a length from 2 to the limit, and its containers keep the gap that was drawn, which
/// lies between 0 and the limit, as long as what was drawn lies in the ranges that are drawn from.
pub proof fn lemma_random_ship_in_range<S: Scalar>(
    base: BoatParams<S>,
    draws: Draws<S>,
    n: nat,
    layout: ShipLayout<S>,
)
    requires
        draws.in_range(base),
        is_random_ship(base, draws, n, layout),
    ensures
        layout.hull_curve is Some ==> lies_between(
            layout.hull_curve->0.curvature,
            S::whole_spec(0),
            S::whole_spec(1),
        ),
        layout.fairings@.len() <= 2,
        forall|m: int|
            0 <= m < layout.fairings@.len() ==> lies_between(
                (#[trigger] layout.fairings@[m]).length,
                S::whole_spec(2),
                fairing_limit_spec(base),
            ),
        exists|kind: ContainerLayoutKind| #[trigger]
            drawable(kind) && ({
                let p = base.with_draws_spec(kind, draws);
                &&& p.describes(random_name(n), layout)
                &&& lies_between(p.container_gap, S::whole_spec(0), gap_limit_spec(base))
            }),
{
    let kind = choose|kind: ContainerLayoutKind| #[trigger]
        drawable(kind) && base.with_draws_spec(kind, draws).describes(random_name(n), layout);
    assert(drawable(kind));
}

/// Whether the ship fits whatever stacking is drawn.
pub fn check_draws<S: Scalar>(base: &BoatParams<S>, draws: &Draws<S>) -> (r: bool)
    ensures
        r == base.fits_any_draw(*draws),
{
    let mut rows: usize = 1;
    while rows <= MOST_DRAWN
        invariant
            1 <= rows <= MOST_DRAWN + 1,
            forall|kind: ContainerLayoutKind| #[trigger]
                drawable(kind) && kind.rows() < rows ==> base.with_draws_spec(kind, *draws).fits(),
        decreases MOST_DRAWN + 1 - rows,
    {
        let mut cols: usize = 1;
        while cols <= MOST_DRAWN
            invariant
                1 <= rows <= MOST_DRAWN,
                1 <= cols <= MOST_DRAWN + 1,
                forall|kind: ContainerLayoutKind| #[trigger]
                    drawable(kind) && kind.rows() < rows ==> base.with_draws_spec(
                        kind,
                        *draws,
                    ).fits(),
                forall|c: usize|
                    1 <= c < cols ==> base.with_draws_spec(
                        #[trigger] kind_from_draws_spec(0, rows, c),
                        *draws,
                    ).fits() && base.with_draws_spec(
                        kind_from_draws_spec(2, rows, c),
                        *draws,
                    ).fits(),
            decreases MOST_DRAWN + 1 - cols,
        {
            let grid: ContainerLayoutKind = kind_from_draws(0, rows, cols);
            let staggered: ContainerLayoutKind = kind_from_draws(2, rows, cols);
            if checked_boat_layout("", &base.with_draws(grid, draws)).is_none() {
                assert(drawable(grid));
                return false;
            }
            if checked_boat_layout("", &base.with_draws(staggered, draws)).is_none() {
                assert(drawable(staggered));
                return false;
            }
            cols = cols + 1;
        }
        let pyramid: ContainerLayoutKind = kind_from_draws(1, rows, 1);
        if checked_boat_layout("", &base.with_draws(pyramid, draws)).is_none() {
            assert(drawable(pyramid));
            return false;
        }
        proof {
            assert forall|kind: ContainerLayoutKind| #[trigger]
                drawable(kind) && kind.rows() < rows + 1 implies base.with_draws_spec(
                kind,
                *draws,
            ).fits() by {
                if kind.rows() == rows {
                    match kind {
                        ContainerLayoutKind::Grid { rows: r, cols: c } => {
                            assert(kind == kind_from_draws_spec(0, rows, c));
                        },
                        ContainerLayoutKind::Pyramid { rows: r } => {},
                        ContainerLayoutKind::Staggered { rows: r, cols: c } => {
                            let grid = kind_from_draws_spec(0, rows, c);
                            assert(kind == kind_from_draws_spec(2, rows, c));
                        },
                    }
                }
            }
        }
        rows = rows + 1;
    }
    true
}

/// Container `c` of row `r` is in the stack, behind those of the rows below.
pub proof fn lemma_stack_at<S: Scalar>(p: BoatParams<S>, r: int, c: int)
    requires
        0 <= r < p.kind.rows(),
        0 <= c < p.kind.row_length(r),
    ensures
        p.kind.count(r as nat) + c < p.stack().len(),
        p.stack()[p.kind.count(r as nat) + c] == (p.column(r, c), p.height(r)),
{
    lemma_centers_count(p, r as nat);
    lemma_centers_prefix(p, (r + 1) as nat, p.kind.rows(), p.kind.count(r as nat) + c);
}

proof fn lemma_centers_count<S: Scalar>(p: BoatParams<S>, n: nat)
    ensures
        p.centers(n).len() == p.kind.count(n),
    decreases n,
{
    if n > 0 {
        lemma_centers_count(p, (n - 1) as nat);
    }
}

/// The number of containers of a ship: the product of its rows and columns, or, of a pyramid,
/// the sum of the numbers up to that of its rows.
pub proof fn lemma_container_count<S: Scalar>(p: BoatParams<S>)
    ensures
        match p.kind {
            ContainerLayoutKind::Grid { rows, cols } => p.stack().len() == rows * cols,
            ContainerLayoutKind::Pyramid { rows } => 2 * p.stack().len() == rows * (rows + 1),
            ContainerLayoutKind::Staggered { rows, cols } => p.stack().len() == rows * cols,
        },
{
    lemma_centers_count(p, p.kind.rows());
    lemma_count(p.kind, p.kind.rows());
    match p.kind {
        ContainerLayoutKind::Grid { .. } => {},
        ContainerLayoutKind::Pyramid { rows } => {
            assert(rows * (2 * rows - rows + 1) == rows * (rows + 1));
        },
        ContainerLayoutKind::Staggered { .. } => {},
    }
}

proof fn lemma_count(kind: ContainerLayoutKind, n: nat)
    requires
        n <= kind.rows(),
    ensures
        match kind {
            ContainerLayoutKind::Grid { rows, cols } => kind.count(n) == n * cols,
            ContainerLayoutKind::Pyramid { rows } => 2 * kind.count(n) == n * (2 * rows - n + 1),
            ContainerLayoutKind::Staggered { rows, cols } => kind.count(n) == n * cols,
        },
    decreases n,
{
    if n > 0 {
        lemma_count(kind, (n - 1) as nat);
        let m = n - 1;
        match kind {
            ContainerLayoutKind::Grid { cols, .. } => {
                assert(n * cols == m * cols + cols) by (nonlinear_arith)
                    requires
                        n == m + 1,
                ;
            },
            ContainerLayoutKind::Pyramid { rows } => {
                assert(n * (2 * rows - n + 1) == m * (2 * rows - m + 1) + 2 * (rows - m))
                    by (nonlinear_arith)
                    requires
                        n == m + 1,
                ;
            },
            ContainerLayoutKind::Staggered { cols, .. } => {
                assert(n * cols == m * cols + cols) by (nonlinear_arith)
                    requires
                        n == m + 1,
                ;
            },
        }
    } else {
        match kind {
            ContainerLayoutKind::Grid { cols, .. } => {
                assert(n * cols == 0);
            },
            ContainerLayoutKind::Pyramid { rows } => {
                assert(n * (2 * rows - n + 1) == 0) by (nonlinear_arith)
                    requires
                        n == 0,
                ;
            },
            ContainerLayoutKind::Staggered { cols, .. } => {
                assert(n * cols == 0);
            },
        }
    }
}

/// No two containers of a ship have the same number, and the numbers run from 0.
pub proof fn lemma_container_numbers<S: Scalar>(
    p: BoatParams<S>,
    name: Seq<char>,
    layout: ShipLayout<S>,
    m: int,
    n: int,
)
    requires
        p.describes(name, layout),
        0 <= m < layout.containers@.len(),
        0 <= n < layout.containers@.len(),
    ensures
        0 <= layout.containers@[m].id < layout.containers@.len(),
        layout.containers@[m].id == layout.containers@[n].id <==> m == n,
{
    assert(is_container(layout.containers@[m], m, p.stack()[m], p));
    assert(is_container(layout.containers@[n], n, p.stack()[n], p));
}

/// The least and the greatest of some numbers are among them, and bound them all.
pub proof fn lemma_least_greatest(numbers: Seq<int>)
    requires
        numbers.len() > 0,
    ensures
        numbers.contains(least(numbers)),
        numbers.contains(greatest(numbers)),
        forall|n: int|
            0 <= n < numbers.len() ==> least(numbers) <= #[trigger] numbers[n] <= greatest(
                numbers,
            ),
    decreases numbers.len(),
{
    if numbers.len() > 1 {
        let shorter = numbers.drop_last();
        lemma_least_greatest(shorter);
        let a = shorter.index_of(least(shorter));
        let b = shorter.index_of(greatest(shorter));
        assert(numbers[a] == least(shorter));
        assert(numbers[b] == greatest(shorter));
        assert(numbers[numbers.len() - 1] == numbers.last());
        assert forall|n: int| 0 <= n < numbers.len() implies least(numbers)
            <= #[trigger] numbers[n] <= greatest(numbers) by {
            if n < numbers.len() - 1 {
                assert(shorter[n] == numbers[n]);
            }
        }
    } else {
        assert(numbers[0] == least(numbers));
    }
}

/// The fairings stand at the ends of the stack: every container lies between them.
pub proof fn lemma_fairings_enclose_stack<S: Scalar>(p: BoatParams<S>, n: int)
    requires
        p.fits(),
        p.has_fairings(),
        0 <= n < p.stack().len(),
    ensures
        p.fairing(FairingSide::Bow).position.0 <= p.stack()[n].0 - stamp::half_cells_spec(
            p.container_width,
        ),
        p.stack()[n].0 + stamp::half_cells_spec(p.container_width) <= p.fairing(
            FairingSide::Stern,
        ).position.0,
{
    let xs = p.stack().map_values(|c: (int, int)| c.0);
    lemma_least_greatest(xs);
    assert(xs[n] == p.stack()[n].0);
}

/// The containers are stacked upward: no row lies below the one before it.
pub proof fn lemma_rows_rise(p: BoatParams<Fixed>, r: int, s: int)
    requires
        0 <= r <= s,
        0 <= p.step_y_spec().raw,
    ensures
        p.height(s) <= p.height(r),
{
    let a = Fixed::whole_spec(r as nat);
    let b = Fixed::whole_spec(s as nat);
    fixed::lemma_times_monotonic(a, b, p.step_y_spec());
    fixed::lemma_truncated_monotonic(
        a.times_spec(p.step_y_spec()),
        b.times_spec(p.step_y_spec()),
    );
}

/// In a row, no container lies left of the one before it.
pub proof fn lemma_row_goes_right(p: BoatParams<Fixed>, r: int, c: int, d: int)
    requires
        0 <= c <= d,
        0 <= p.step_x_spec().raw,
    ensures
        p.column(r, c) <= p.column(r, d),
{
    let a = Fixed::whole_spec(c as nat);
    let b = Fixed::whole_spec(d as nat);
    let half = p.container_width.over_spec(Fixed::whole_spec(2));
    fixed::lemma_times_monotonic(a, b, p.step_x_spec());
    fixed::lemma_truncated_monotonic(
        a.times_spec(p.step_x_spec()).plus_spec(half),
        b.times_spec(p.step_x_spec()).plus_spec(half),
    );
}

proof fn lemma_decimal(n: nat)
    ensures
        decimal(n).len() >= 1,
        n >= 10 ==> decimal(n).len() >= 2,
    decreases n,
{
    if n >= 10 {
        lemma_decimal(n / 10);
    }
}

/// Different numbers are written differently.
pub proof fn lemma_decimal_injective(m: nat, n: nat)
    requires
        decimal(m) == decimal(n),
    ensures
        m == n,
    decreases m,
{
    lemma_decimal(m);
    lemma_decimal(n);
    assert(digit((m % 10) as int) as int == 48 + m % 10);
    assert(digit((n % 10) as int) as int == 48 + n % 10);
    if m >= 10 && n >= 10 {
        assert(decimal(m).drop_last() =~= decimal(m / 10));
        assert(decimal(n).drop_last() =~= decimal(n / 10));
        assert(decimal(m).last() == digit((m % 10) as int));
        assert(decimal(n).last() == digit((n % 10) as int));
        lemma_decimal_injective(m / 10, n / 10);
    } else {
        assert(m < 10 && n < 10);
        assert(decimal(m)[0] == digit(m as int));
        assert(decimal(n)[0] == digit(n as int));
        assert(digit(m as int) as int == 48 + m);
        assert(digit(n as int) as int == 48 + n);
    }
}

/// No two random ships have the same name.
pub proof fn lemma_random_names_distinct(m: nat, n: nat)
    requires
        random_name(m) == random_name(n),
    ensures
        m == n,
{
    let start = "alea_"@.len() as int;
    assert(random_name(m).skip(start) =~= decimal(m));
    assert(random_name(n).skip(start) =~= decimal(n));
    lemma_decimal_injective(m, n);
}

/// Each row of a pyramid is one container shorter than the one below it; the rows of the other
/// stacks are of equal length.
pub proof fn lemma_row_lengths(kind: ContainerLayoutKind, r: int)
    requires
        0 <= r,
        r + 1 < kind.rows(),
    ensures
        kind is Pyramid ==> kind.row_length(r + 1) + 1 == kind.row_length(r),
        !(kind is Pyramid) ==> kind.row_length(r + 1) == kind.row_length(r),
{
}

/// In a staggered stack, each row is shifted by half a step against the one below it, to and
/// fro; in a grid, all rows begin in one column.
pub proof fn lemma_rows_shifted<S: Scalar>(p: BoatParams<S>, r: int)
    requires
        0 <= r,
        S::whole_spec(0).truncated_spec() == 0,
    ensures
        p.kind is Staggered && r % 2 == 0 ==> p.start_x(r + 1) == p.start_x(r)
            + stamp::half_cells_spec(p.step_x_spec()),
        p.kind is Staggered ==> p.start_x(r + 2) == p.start_x(r),
        p.kind is Grid ==> p.start_x(r + 1) == p.start_x(r),
{
    assert((r + 1) % 2 == 1 - r % 2);
    assert((r + 2) % 2 == r % 2);
}

/// The rectangle of a hull leaves room for its curved ends: it is narrower than the hull, and
/// where the ends are not longer than the hull, they and it make up the whole width.
pub proof fn lemma_body_leaves_room(p: BoatParams<Fixed>)
    requires
        0 < p.hull_width.raw,
        p.has_bow() || p.has_stern(),
    ensures
        0 <= p.body_width().raw < p.hull_width.raw,
        ({
            let bow = if p.has_bow() {
                p.bow_length.raw as int
            } else {
                0
            };
            let stern = if p.has_stern() {
                p.stern_length.raw as int
            } else {
                0
            };
            bow + stern <= p.hull_width.raw ==> bow + p.body_width().raw + stern
                == p.hull_width.raw
        }),
{
}

/// A hull without curved ends keeps its whole width.
pub proof fn lemma_straight_body<S: Scalar>(p: BoatParams<S>)
    requires
        !p.curve_bow,
        !p.curve_stern,
    ensures
        p.body_width() == p.hull_width,
        p.hull_curve() is None,
{
}

/// A number below ten is written as its digit, and any other as its tens, followed by the digit of
/// its ones.
pub proof fn lemma_decimal_digits(m: nat, d: int)
    requires
        0 <= d < 10,
    ensures
        decimal(d as nat) == seq![(48 + d) as char],
        m > 0 ==> decimal((10 * m + d) as nat) == decimal(m).push((48 + d) as char),
{
    assert((10 * m + d) / 10 == m && (10 * m + d) % 10 == d);
}

/// The stacking that is drawn: a grid, a pyramid or a staggered stack, with the rows and the columns
/// that were drawn.
pub proof fn lemma_kinds_drawn(rows: usize, cols: usize, choice: usize)
    ensures
        choice == 0 ==> kind_from_draws_spec(choice, rows, cols) == (ContainerLayoutKind::Grid {
            rows,
            cols,
        }),
        choice == 1 ==> kind_from_draws_spec(choice, rows, cols) == (ContainerLayoutKind::Pyramid {
            rows,
        }),
        choice >= 2 ==> kind_from_draws_spec(choice, rows, cols)
            == (ContainerLayoutKind::Staggered { rows, cols }),
{
}

/// The stackings that can be drawn have one to six rows, and as many containers in a row.
pub proof fn lemma_drawable(rows: usize, cols: usize)
    ensures
        drawable(ContainerLayoutKind::Grid { rows, cols }) <==> 1 <= rows <= 6 && 1 <= cols <= 6,
        drawable(ContainerLayoutKind::Pyramid { rows }) <==> 1 <= rows <= 6,
        drawable(ContainerLayoutKind::Staggered { rows, cols }) <==> 1 <= rows <= 6 && 1 <= cols
            <= 6,
{
}

} // verus!
