//! The numbers of the simulation.
use vstd::prelude::*;

verus! {

/// A number that the simulation computes with.
///
/// The library is written once for every number type. It assumes of an operation only that
/// its result is a function of its operands: each method returns what the specification
/// function of the same name says, and nothing is assumed of how the operations relate to
/// each other. `Fixed` is the number type of this library. An application may bring its own: a
/// type that is not verified implements the methods and leaves the specification functions,
/// which have no part in running code, as they are: each of them then stands for a function of the
/// operands of which nothing else is known.
pub trait Scalar: Copy + Send + Sync {
    /// The number `n`.
    open spec fn whole_spec(n: nat) -> Self {
        arbitrary::<spec_fn(int, nat) -> Self>()(0, n)
    }

    /// `self + other`.
    open spec fn plus_spec(self, other: Self) -> Self {
        arbitrary::<spec_fn(int, Self, Self) -> Self>()(1, self, other)
    }

    /// `self - other`.
    open spec fn minus_spec(self, other: Self) -> Self {
        arbitrary::<spec_fn(int, Self, Self) -> Self>()(2, self, other)
    }

    /// `self * other`.
    open spec fn times_spec(self, other: Self) -> Self {
        arbitrary::<spec_fn(int, Self, Self) -> Self>()(3, self, other)
    }

    /// `self / other`.
    open spec fn over_spec(self, other: Self) -> Self {
        arbitrary::<spec_fn(int, Self, Self) -> Self>()(4, self, other)
    }

    /// `-self`.
    open spec fn negated_spec(self) -> Self {
        arbitrary::<spec_fn(int, Self) -> Self>()(5, self)
    }

    /// The absolute value of `self`.
    open spec fn size_spec(self) -> Self {
        arbitrary::<spec_fn(int, Self) -> Self>()(6, self)
    }

    /// The square root of `self`.
    open spec fn root_spec(self) -> Self {
        arbitrary::<spec_fn(int, Self) -> Self>()(7, self)
    }

    /// `self` to the power of one half.
    open spec fn half_power_spec(self) -> Self {
        arbitrary::<spec_fn(int, Self) -> Self>()(8, self)
    }

    /// `self < other`.
    open spec fn below_spec(self, other: Self) -> bool {
        arbitrary::<spec_fn(int, Self, Self) -> bool>()(9, self, other)
    }

    /// `self <= other`.
    open spec fn at_most_spec(self, other: Self) -> bool {
        arbitrary::<spec_fn(int, Self, Self) -> bool>()(10, self, other)
    }

    /// `self` without its fraction.
    open spec fn truncated_spec(self) -> isize {
        arbitrary::<spec_fn(int, Self) -> isize>()(11, self)
    }

    /// The whole number nearest to `self`.
    open spec fn rounded_spec(self) -> isize {
        arbitrary::<spec_fn(int, Self) -> isize>()(12, self)
    }

    fn whole(n: usize) -> (r: Self)
        ensures
            r == Self::whole_spec(n as nat),
    ;

    fn plus(self, other: Self) -> (r: Self)
        ensures
            r == self.plus_spec(other),
    ;

    fn minus(self, other: Self) -> (r: Self)
        ensures
            r == self.minus_spec(other),
    ;

    fn times(self, other: Self) -> (r: Self)
        ensures
            r == self.times_spec(other),
    ;

    fn over(self, other: Self) -> (r: Self)
        ensures
            r == self.over_spec(other),
    ;

    fn negated(self) -> (r: Self)
        ensures
            r == self.negated_spec(),
    ;

    fn size(self) -> (r: Self)
        ensures
            r == self.size_spec(),
    ;

    fn root(self) -> (r: Self)
        ensures
            r == self.root_spec(),
    ;

    fn half_power(self) -> (r: Self)
        ensures
            r == self.half_power_spec(),
    ;

    fn below(self, other: Self) -> (r: bool)
        ensures
            r == self.below_spec(other),
    ;

    fn at_most(self, other: Self) -> (r: bool)
        ensures
            r == self.at_most_spec(other),
    ;

    fn truncated(self) -> (r: isize)
        ensures
            r == self.truncated_spec(),
    ;

    fn rounded(self) -> (r: isize)
        ensures
            r == self.rounded_spec(),
    ;
}

/// The number `n / d`.
pub open spec fn ratio_spec<S: Scalar>(n: nat, d: nat) -> S {
    S::whole_spec(n).over_spec(S::whole_spec(d))
}

/// The number `n / d`.
pub fn ratio<S: Scalar>(n: usize, d: usize) -> (r: S)
    ensures
        r == ratio_spec::<S>(n as nat, d as nat),
{
    S::whole(n).over(S::whole(d))
}

/// The number `n`.
pub open spec fn signed_spec<S: Scalar>(n: int) -> S {
    if n >= 0 {
        S::whole_spec(n as nat)
    } else {
        S::whole_spec((-n) as nat).negated_spec()
    }
}

/// The number `n`.
pub fn signed<S: Scalar>(n: isize) -> (r: S)
    ensures
        r == signed_spec::<S>(n as int),
{
    if n >= 0 {
        S::whole(n as usize)
    } else {
        S::whole((-(n as i128)) as usize).negated()
    }
}

/// `x`, or the end of the range from `low` to `high` that it lies beyond.
pub open spec fn clamped_spec<S: Scalar>(x: S, low: S, high: S) -> S {
    if x.below_spec(low) {
        low
    } else if high.below_spec(x) {
        high
    } else {
        x
    }
}

/// `x`, or the end of the range from `low` to `high` that it lies beyond.
pub fn clamped<S: Scalar>(x: S, low: S, high: S) -> (r: S)
    ensures
        r == clamped_spec(x, low, high),
{
    if x.below(low) {
        low
    } else if high.below(x) {
        high
    } else {
        x
    }
}

/// `x` if it is above `floor`, else `floor`.
pub open spec fn at_least_spec<S: Scalar>(x: S, floor: S) -> S {
    if floor.below_spec(x) {
        x
    } else {
        floor
    }
}

/// `x` if it is above `floor`, else `floor`.
pub fn at_least<S: Scalar>(x: S, floor: S) -> (r: S)
    ensures
        r == at_least_spec(x, floor),
{
    if floor.below(x) {
        x
    } else {
        floor
    }
}

/// 0 and 1 are ordered as they should be.
pub open spec fn unit_ordered<S: Scalar>() -> bool {
    &&& !S::whole_spec(0).below_spec(S::whole_spec(0))
    &&& !S::whole_spec(1).below_spec(S::whole_spec(1))
    &&& !S::whole_spec(1).below_spec(S::whole_spec(0))
}

/// `x` lies between 0 and 1.
pub open spec fn in_unit<S: Scalar>(x: S) -> bool {
    S::whole_spec(0).at_most_spec(x) && x.at_most_spec(S::whole_spec(1))
}

/// 0 and 1 add, multiply and compare as they should.
pub open spec fn unit_ends_exact<S: Scalar>() -> bool {
    let zero = S::whole_spec(0);
    let one = S::whole_spec(1);
    &&& unit_ordered::<S>()
    &&& zero.below_spec(one)
    &&& in_unit(zero)
    &&& in_unit(one)
    &&& one.minus_spec(zero) == one
    &&& one.minus_spec(one) == zero
    &&& zero.times_spec(zero) == zero
    &&& one.times_spec(one) == one
    &&& zero.root_spec() == zero
    &&& one.root_spec() == one
}

/// If `a` lies between 0 and 1, so do what is missing to 1 and the root, which is not below `a`.
/// A mean in which one part has the weight `a` is 0 of nothing but zeros and 1 of nothing but ones.
pub open spec fn unit_number<S: Scalar>(a: S) -> bool {
    let zero = S::whole_spec(0);
    let one = S::whole_spec(1);
    let rest = one.minus_spec(a);
    in_unit(a) ==> {
        &&& in_unit(rest)
        &&& in_unit(a.root_spec())
        &&& a.at_most_spec(a.root_spec())
        &&& zero.below_spec(a) || a.at_most_spec(zero)
        &&& zero.times_spec(rest).plus_spec(zero.times_spec(a)) == zero
        &&& one.times_spec(rest).plus_spec(one.times_spec(a)) == one
    }
}

/// If `a` and `b` lie between 0 and 1, so does their product, which is not above `a`, and if `a` is
/// not above `b`, neither is its root above that of `b`, nor what is missing from `b` to 1 above
/// what is missing from `a`. A mean of the two in which one has all the weight is not beyond that
/// one.
pub open spec fn unit_numbers<S: Scalar>(a: S, b: S) -> bool {
    let zero = S::whole_spec(0);
    let one = S::whole_spec(1);
    let first = a.times_spec(one).plus_spec(b.times_spec(zero));
    let second = a.times_spec(zero).plus_spec(b.times_spec(one));
    in_unit(a) && in_unit(b) ==> {
        &&& in_unit(a.times_spec(b))
        &&& a.times_spec(b).at_most_spec(a)
        &&& a.at_most_spec(b) ==> a.root_spec().at_most_spec(b.root_spec())
        &&& a.at_most_spec(b) ==> one.minus_spec(b).at_most_spec(one.minus_spec(a))
        &&& in_unit(first)
        &&& first.at_most_spec(a)
        &&& in_unit(second)
        &&& b.at_most_spec(second)
    }
}

/// What is not above something is not above what that is not above.
pub open spec fn order_carries<S: Scalar>(a: S, b: S, c: S) -> bool {
    a.at_most_spec(b) && b.at_most_spec(c) ==> a.at_most_spec(c)
}

/// If `a`, `b` and `x` lie between 0 and 1 and `a` is not above `b`, then neither are its products
/// with `x` above those of `b`.
pub open spec fn unit_products<S: Scalar>(a: S, b: S, x: S) -> bool {
    in_unit(a) && in_unit(b) && in_unit(x) && a.at_most_spec(b) ==> {
        &&& a.times_spec(x).at_most_spec(b.times_spec(x))
        &&& x.times_spec(a).at_most_spec(x.times_spec(b))
    }
}

/// The mean of `a` and `x` in which `x` has the weight `c` of 1.
pub open spec fn weighted<S: Scalar>(a: S, x: S, c: S) -> S {
    a.times_spec(S::whole_spec(1).minus_spec(c)).plus_spec(x.times_spec(c))
}

/// If all of these lie between 0 and 1, so does the weighted mean of `a` and `x`, and if neither is
/// above its partner `b` or `y`, neither is that mean above the one of `b` and `y`.
pub open spec fn unit_means<S: Scalar>(a: S, b: S, x: S, y: S, c: S) -> bool {
    in_unit(a) && in_unit(b) && in_unit(x) && in_unit(y) && in_unit(c) && a.at_most_spec(b)
        && x.at_most_spec(y) ==> {
        &&& in_unit(weighted(a, x, c))
        &&& in_unit(weighted(b, y, c))
        &&& weighted(a, x, c).at_most_spec(weighted(b, y, c))
    }
}

/// The numbers between 0 and 1 add, multiply and compare as they should.
pub open spec fn unit_exact<S: Scalar>() -> bool {
    &&& unit_ends_exact::<S>()
    &&& forall|a: S| #[trigger] unit_number(a)
    &&& forall|a: S, b: S| #[trigger] unit_numbers(a, b)
    &&& forall|a: S, b: S, x: S| #[trigger] unit_products(a, b, x)
    &&& forall|a: S, b: S, x: S, y: S, c: S| #[trigger] unit_means(a, b, x, y, c)
    &&& forall|a: S, b: S, c: S| #[trigger] order_carries(a, b, c)
}

/// What is above something that is not below `x` is not below `x` either.
pub open spec fn order_rises<S: Scalar>(s: S, y: S, x: S) -> bool {
    !s.below_spec(x) && s.below_spec(y) ==> !y.below_spec(x)
}

/// No number is below itself, and what is above a number is above all that is not above that one.
pub open spec fn strictly_ordered<S: Scalar>() -> bool {
    &&& forall|x: S| !(#[trigger] x.below_spec(x))
    &&& forall|s: S, y: S, x: S| #[trigger] order_rises(s, y, x)
}

/// A clamped number does not lie beyond either end, where an end does not lie beyond an end.
pub proof fn lemma_clamped_in_range<S: Scalar>(x: S, low: S, high: S)
    requires
        !low.below_spec(low),
        !high.below_spec(high),
        !high.below_spec(low),
    ensures
        !clamped_spec(x, low, high).below_spec(low),
        !high.below_spec(clamped_spec(x, low, high)),
{
}

} // verus!
