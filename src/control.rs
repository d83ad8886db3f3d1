//! Control handles: one on-curve anchor and its two tangent control points.
use vstd::prelude::*;

use crate::planar::Planar;

verus! {

/// How fresh the samples of a segment are.
#[derive(Clone, Copy, Debug, PartialEq, Eq, Structural)]
pub enum Validity {
    /// Never sampled.
    Uninitialized,
    /// Sampled once, stale since.
    Invalidated,
    /// The buffer holds current samples.
    Valid,
}

/// The side(s) of a detached handle on which no segment is drawn.
#[derive(Clone, Copy, Debug, PartialEq, Eq, Structural)]
pub enum Direction {
    Forward,
    Backward,
    Both,
}

/// The smoothness enforced at a handle's position.
#[derive(Clone, Copy, Debug, PartialEq, Eq, Structural)]
pub enum Continuity {
    /// The segment(s) on the given side are not drawn.
    Detached(Direction),
    /// No enforced smoothness.
    Broken,
    /// Tangent direction continuous, magnitude free.
    Aligned,
    /// Tangent direction and magnitude continuous.
    Mirrored,
}

/// One control point of a curve with its incoming and outgoing control points.
#[derive(Clone, Copy, Debug)]
pub struct Handle<P> {
    pub before: P,
    pub position: P,
    pub after: P,
    pub continuity: Continuity,
}

impl<P> Handle<P> {
    /// Whether the segment on the right of this handle is left undrawn.
    pub open spec fn cuts_forward(&self) -> bool {
        self.continuity == Continuity::Detached(Direction::Forward)
            || self.continuity == Continuity::Detached(Direction::Both)
    }

    /// Whether the segment on the left of this handle is left undrawn.
    pub open spec fn cuts_backward(&self) -> bool {
        self.continuity == Continuity::Detached(Direction::Backward)
            || self.continuity == Continuity::Detached(Direction::Both)
    }

    fn assemble(before: P, position: P, after: P, continuity: Continuity) -> (r: Self)
        ensures
            r.before == before,
            r.position == position,
            r.after == after,
            r.continuity == continuity,
    {
        Handle { before, position, after, continuity }
    }

    /// A handle with no enforced smoothness and all three points given.
    pub fn new(before: P, position: P, after: P) -> (r: Self)
        ensures
            r.before == before,
            r.position == position,
            r.after == after,
            r.continuity == Continuity::Broken,
    {
        Handle::assemble(before, position, after, Continuity::Broken)
    }

    /// Whether the segment on the right of this handle is left undrawn.
    pub fn is_cut_forward(&self) -> (r: bool)
        ensures
            r == self.cuts_forward(),
    {
        match self.continuity {
            Continuity::Detached(Direction::Forward) | Continuity::Detached(Direction::Both) => true,
            _ => false,
        }
    }

    /// Whether the segment on the left of this handle is left undrawn.
    pub fn is_cut_backward(&self) -> (r: bool)
        ensures
            r == self.cuts_backward(),
    {
        match self.continuity {
            Continuity::Detached(Direction::Backward) | Continuity::Detached(Direction::Both) => true,
            _ => false,
        }
    }
}

impl<P: Planar> Handle<P> {
    /// A detached handle; `after` mirrors `before` through `position`.
    pub fn detached(before: P, position: P, direction: Direction) -> (r: Self)
        ensures
            r.before == before,
            r.position == position,
            r.after == position.ratio_spec(2, 1).sub_spec(before),
            r.continuity == Continuity::Detached(direction),
    {
        let after = position.scaled_ratio(2, 1).difference(&before);
        Handle::assemble(before, position, after, Continuity::Detached(direction))
    }

    /// An aligned handle: `after = position + (position - before) * after_multiplier`.
    pub fn aligned(before: P, position: P, after_multiplier: P::Scalar) -> (r: Self)
        ensures
            r.before == before,
            r.position == position,
            r.after == position.add_spec(position.sub_spec(before).scale_spec(after_multiplier)),
            r.continuity == Continuity::Aligned,
    {
        let after = position.sum(&position.difference(&before).scaled(&after_multiplier));
        Handle::assemble(before, position, after, Continuity::Aligned)
    }

    /// A mirrored handle: `after = 2 * position - before`.
    pub fn mirrored(before: P, position: P) -> (r: Self)
        ensures
            r.before == before,
            r.position == position,
            r.after == position.ratio_spec(2, 1).sub_spec(before),
            r.continuity == Continuity::Mirrored,
    {
        let after = position.scaled_ratio(2, 1).difference(&before);
        Handle::assemble(before, position, after, Continuity::Mirrored)
    }
}

} // verus!
