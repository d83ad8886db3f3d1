//! An incrementally recomputed piecewise cubic Bezier curve.
//!
//! A [`Bezier`] owns an ordered sequence of [`Handle`]s. Every pair of
//! neighbouring handles bounds one cubic segment, which is sampled at a fixed
//! number of parameter values into one flat, compacted point buffer. Edits
//! mark the segments they touch as stale, and [`Bezier::calculate`] only
//! resamples those.
use vstd::prelude::*;

pub mod planar;
pub mod control;
pub mod curve;

pub use planar::Planar;
pub use control::{Continuity, Direction, Handle, Validity};
pub use curve::{Bezier, CurveError};

