//! The arithmetic that the curve needs from its points.
use vstd::prelude::*;

verus! {

/// A point of the plane over some number type, with the few operations that
/// sampling and subdividing a cubic segment need.
///
/// The curve only moves, combines and stores points; it never inspects their
/// coordinates. Each operation is named by a spec function, so that the
/// curve's contracts can say which point it computes from which. An
/// implementation defines each spec function as the computation its
/// executable counterpart performs.
pub trait Planar: Sized + Copy {
    /// The number type of the coordinates.
    type Scalar;

    /// `self + other`.
    spec fn add_spec(self, other: Self) -> Self;

    /// `self - other`.
    spec fn sub_spec(self, other: Self) -> Self;

    /// `self * factor`.
    spec fn scale_spec(self, factor: Self::Scalar) -> Self;

    /// `self * numerator / denominator`.
    spec fn ratio_spec(self, numerator: usize, denominator: usize) -> Self;

    /// `1 - t`.
    spec fn complement_spec(t: Self::Scalar) -> Self::Scalar;

    /// The integer part of a time, where it has one that fits a `usize`.
    spec fn whole_part_spec(time: Self::Scalar) -> Option<usize>;

    /// `time - floor(time)`.
    spec fn fractional_part_spec(time: Self::Scalar) -> Self::Scalar;

    /// `self + other`.
    fn sum(&self, other: &Self) -> (r: Self)
        ensures
            r == self.add_spec(*other),
    ;

    /// `self - other`.
    fn difference(&self, other: &Self) -> (r: Self)
        ensures
            r == self.sub_spec(*other),
    ;

    /// `self * factor`.
    fn scaled(&self, factor: &Self::Scalar) -> (r: Self)
        ensures
            r == self.scale_spec(*factor),
    ;

    /// `self * numerator / denominator`.
    fn scaled_ratio(&self, numerator: usize, denominator: usize) -> (r: Self)
        requires
            denominator > 0,
        ensures
            r == self.ratio_spec(numerator, denominator),
    ;

    /// `1 - t`.
    fn complement(t: &Self::Scalar) -> (r: Self::Scalar)
        ensures
            r == Self::complement_spec(*t),
    ;

    /// The integer part of a non-negative time, or `None` where the time is
    /// negative or has no integer part that fits a `usize`.
    fn whole_part(time: &Self::Scalar) -> (r: Option<usize>)
        ensures
            r == Self::whole_part_spec(*time),
    ;

    /// `time - floor(time)`.
    fn fractional_part(time: &Self::Scalar) -> (r: Self::Scalar)
        ensures
            r == Self::fractional_part_spec(*time),
    ;
}

/// `a * (1 - t) + b * t`.
pub open spec fn lerp<P: Planar>(a: P, b: P, t: P::Scalar) -> P {
    a.scale_spec(P::complement_spec(t)).add_spec(b.scale_spec(t))
}

/// `a * (1 - t) + b * t`.
pub(crate) fn interpolate<P: Planar>(a: &P, b: &P, t: &P::Scalar) -> (r: P)
    ensures
        r == lerp(*a, *b, *t),
{
    a.scaled(&P::complement(t)).sum(&b.scaled(t))
}

} // verus!
