//! Uncorrelated points.
use vstd::prelude::*;
use crate::fixed::Point;
use crate::source::{script_advance, script_draw, DrawSource};
use crate::Generator;

verus! {

/// Hands out points whose coordinates are two successive draws.
pub struct Uniform {
    rng: DrawSource,
}

impl Uniform {
    /// The source that the points are drawn from.
    pub closed spec fn source(&self) -> DrawSource {
        self.rng
    }

    /// What one call of `generate` makes of a generator on a script: the
    /// result `r` and the generator `after` the call, from the one `before`.
    pub open spec fn step_on_script(before: Uniform, after: Uniform, r: Option<Point>) -> bool {
        let script = before.source().script();
        let first = before.source().cursor();
        let second = script_advance(script, first);
        &&& r is Some
        &&& r->Some_0.0 == script_draw(script, first)
        &&& r->Some_0.1 == script_draw(script, second)
        &&& after.source().script() == script
        &&& after.source().cursor() == script_advance(script, second)
    }

    /// Determinism: two calls of `generate` on generators that stand at the
    /// same place of the same script hand out the same point and leave the
    /// script at the same place.
    pub proof fn lemma_generate_is_determined(
        a: Uniform,
        a_after: Uniform,
        ra: Option<Point>,
        b: Uniform,
        b_after: Uniform,
        rb: Option<Point>,
    )
        requires
            a.source().script() == b.source().script(),
            a.source().cursor() == b.source().cursor(),
            Self::step_on_script(a, a_after, ra),
            Self::step_on_script(b, b_after, rb),
        ensures
            ra == rb,
            a_after.source().script() == b_after.source().script(),
            a_after.source().cursor() == b_after.source().cursor(),
    {
    }

    /// A generator that draws from `source`.
    pub fn with_source(source: DrawSource) -> (g: Uniform)
        ensures
            g.source() == source,
    {
        Uniform { rng: source }
    }
}

impl Default for Uniform {
    /// A generator on the thread-local random source.
    fn default() -> (g: Uniform)
        ensures
            !g.source().is_scripted(),
    {
        Uniform { rng: DrawSource::thread() }
    }
}

impl Generator for Uniform {
    open spec fn wf(&self) -> bool {
        true
    }

    /// Two draws, the first for x and the second for y. Never `None`.
    fn generate(&mut self) -> (r: Option<Point>)
        ensures
            r is Some,
            final(self).source().is_scripted() == old(self).source().is_scripted(),
            final(self).source().script() == old(self).source().script(),
            old(self).source().is_scripted() ==> Self::step_on_script(*old(self), *final(self), r),
    {
        let x: u64 = self.rng.next();
        let y: u64 = self.rng.next();
        Some((x, y))
    }
}

} // verus!
