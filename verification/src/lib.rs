//! Progressive point sequences in the unit square for stratified sampling.
//!
//! Coordinates are fixed-point fractions: the integer `x` stands for the real
//! number `x / UNIT`, so every coordinate below `UNIT` lies in `[0, 1)`.
use vstd::prelude::*;

pub mod fixed;
pub mod source;
pub mod counting;
pub mod uniform;
pub mod jittered;
pub mod occupancy;
pub mod multi;
pub mod dyadic;

pub use crate::fixed::Point;
pub use crate::fixed::UNIT;
pub use crate::source::DrawSource;
pub use crate::uniform::Uniform;
pub use crate::jittered::Jittered;
pub use crate::occupancy::{ElementaryElement, HVElementaryElement};
pub use crate::dyadic::ElementaryElement02;
pub use crate::multi::MultiJittered;

verus! {

/// A source of points: each call of `generate` hands out the next sample of
/// an unbounded stream.
pub trait Generator {
    /// The state is consistent.
    spec fn wf(&self) -> bool;

    /// The next point, or `None` where the generator cannot go on.
    fn generate(&mut self) -> (r: Option<Point>)
        requires
            old(self).wf(),
        ensures
            final(self).wf(),
            r is Some ==> crate::fixed::in_unit(r->Some_0),
    ;
}

} // verus!
