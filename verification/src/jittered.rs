//! The jittered generator: a grid of cells with one point in each, refined
//! by quadrupling.
use vstd::prelude::*;
use crate::fixed::{
    base, cell, cell_of, grid_ok, half, half_of, in_unit, jitter, jitter_coord, lemma_grid_ok,
    lemma_quads_stratified, lemma_stratified_fills_grid, placed, quad_placed, same_cell,
    stratified, Point, MAX_GRID, UNIT,
};
use crate::source::{
    lemma_script_skip_add, script_advance, script_draw, script_nth, script_skip, DrawSource,
};
use crate::Generator;

verus! {

/// Draws a point in the sub-quadrant `(xh, yh)` of the cell `(i, j)` of a
/// `grid` by `grid` grid: one draw for x, then one for y.
pub fn generate_point(rng: &mut DrawSource, i: u64, j: u64, xh: u64, yh: u64, grid: u64) -> (q:
    Point)
    requires
        i < grid,
        j < grid,
        xh <= 1,
        yh <= 1,
        grid <= 32768,
        (UNIT as int) % (2 * grid) == 0,
    ensures
        placed(q, i as int, j as int, xh as int, yh as int, grid as int),
        exists|dx: int, dy: int|
            0 <= dx < UNIT && 0 <= dy < UNIT && q.0 == jitter(i as int, xh as int, dx, grid as int)
                && q.1 == jitter(j as int, yh as int, dy, grid as int),
        final(rng).is_scripted() == old(rng).is_scripted(),
        final(rng).script() == old(rng).script(),
        old(rng).is_scripted() ==> {
            let script = old(rng).script();
            let first = old(rng).cursor();
            let second = script_advance(script, first);
            &&& q.0 == jitter(i as int, xh as int, script_draw(script, first), grid as int)
            &&& q.1 == jitter(j as int, yh as int, script_draw(script, second), grid as int)
            &&& final(rng).cursor() == script_advance(script, second)
        },
{
    let dx: u64 = rng.next();
    let x: u64 = jitter_coord(i, xh, dx, grid);
    let dy: u64 = rng.next();
    let y: u64 = jitter_coord(j, yh, dy, grid);
    (x, y)
}

/// The points at `n + t`, `2 * n + t` and `3 * n + t` are what growth makes
/// beside the point at `t` from the seven draws that a script yields from
/// `cursor` on: two for the diagonal point, one for the coin, two for the
/// point beside, two for the last.
pub open spec fn grown_from(
    points: Seq<Point>,
    t: int,
    n: int,
    grid: int,
    script: Seq<u64>,
    cursor: int,
) -> bool {
    let p = points[t];
    let i = cell(p.0 as int, grid);
    let j = cell(p.1 as int, grid);
    let xh = half(p.0 as int, grid);
    let yh = half(p.1 as int, grid);
    let flip_x = script_nth(script, cursor, 2) > UNIT / 2;
    let hx = if flip_x {
        xh
    } else {
        1 - xh
    };
    let hy = if flip_x {
        1 - yh
    } else {
        yh
    };
    &&& points[n + t].0 == jitter(i, 1 - xh, script_nth(script, cursor, 0), grid)
    &&& points[n + t].1 == jitter(j, 1 - yh, script_nth(script, cursor, 1), grid)
    &&& points[2 * n + t].0 == jitter(i, hx, script_nth(script, cursor, 3), grid)
    &&& points[2 * n + t].1 == jitter(j, hy, script_nth(script, cursor, 4), grid)
    &&& points[3 * n + t].0 == jitter(i, 1 - hx, script_nth(script, cursor, 5), grid)
    &&& points[3 * n + t].1 == jitter(j, 1 - hy, script_nth(script, cursor, 6), grid)
}

/// Growth of a tier of `n` points on a script that stands at `start` takes
/// seven draws for each point in turn: the points beside the point at `t`
/// come from the draws after the first `7 * t`.
pub open spec fn grown_at(
    points: Seq<Point>,
    t: int,
    n: int,
    grid: int,
    script: Seq<u64>,
    start: int,
) -> bool {
    grown_from(points, t, n, grid, script, script_skip(script, start, (7 * t) as nat))
}

/// Growth on a script is a function of the tier and of where the script
/// stands: two sequences grown from the same tier by the same draws are equal.
pub proof fn lemma_growth_is_determined(
    a: Seq<Point>,
    b: Seq<Point>,
    n: int,
    grid: int,
    script: Seq<u64>,
    start: int,
)
    requires
        n > 0,
        a.len() == 4 * n,
        b.len() == 4 * n,
        a.subrange(0, n) == b.subrange(0, n),
        forall|t: int| 0 <= t < n ==> #[trigger] grown_at(a, t, n, grid, script, start),
        forall|t: int| 0 <= t < n ==> #[trigger] grown_at(b, t, n, grid, script, start),
    ensures
        a == b,
{
    assert forall|idx: int| 0 <= idx < 4 * n implies a[idx] == b[idx] by {
        let t = base(idx, n);
        assert(grown_at(a, t, n, grid, script, start));
        assert(grown_at(b, t, n, grid, script, start));
        assert(a.subrange(0, n)[t] == a[t]);
        assert(b.subrange(0, n)[t] == b[t]);
    }
    assert(a =~= b);
}

/// The jittered generator. Its sequence grows in tiers of 1, 4, 16, ...
/// points; a tier of `g * g` points has one point in each cell of the `g` by
/// `g` grid.
pub struct Jittered {
    rng: DrawSource,
    seq: Vec<Point>,
    index: usize,
    grid: u64,
}

impl Jittered {
    /// The source that the points are drawn from.
    pub closed spec fn source(&self) -> DrawSource {
        self.rng
    }

    /// The whole sequence, the points not yet handed out included.
    pub closed spec fn points(&self) -> Seq<Point> {
        self.seq@
    }

    /// How many points have been handed out.
    pub closed spec fn cursor(&self) -> int {
        self.index as int
    }

    /// The number of cells along each axis of the current tier's grid.
    pub closed spec fn grid(&self) -> int {
        self.grid as int
    }

    /// The points handed out so far, in order.
    pub open spec fn emitted(&self) -> Seq<Point> {
        self.points().subrange(0, self.cursor())
    }

    /// The tier is used up and the next one would pass the largest grid.
    pub open spec fn exhausted(&self) -> bool {
        self.cursor() > 0 && self.cursor() == self.points().len() && self.grid() > MAX_GRID
    }

    /// The sequence is a completed tier: nothing handed out means nothing
    /// stored; otherwise it holds `grid * grid` points, one in each cell.
    pub open spec fn tier_ok(&self) -> bool {
        &&& 0 <= self.cursor() <= self.points().len()
        &&& self.cursor() == 0 ==> self.points().len() == 0
        &&& self.points().len() > 0 ==> {
            &&& grid_ok(self.grid())
            &&& self.points().len() == self.grid() * self.grid()
            &&& stratified(self.points(), self.grid())
        }
    }

    /// What one call of `generate` makes of a generator on a script: the
    /// result `r` and the generator `after` the call, from the one `before`.
    pub open spec fn step_on_script(before: Jittered, after: Jittered, r: Option<Point>) -> bool {
        let script = before.source().script();
        let at = before.source().cursor();
        let second = script_advance(script, at);
        let n = before.cursor();
        &&& after.source().script() == script
        &&& r is None <==> before.exhausted()
        &&& r is None ==> after.points() == before.points() && after.cursor() == n && after.grid()
            == before.grid() && after.source().cursor() == at
        &&& r is Some ==> after.emitted() == before.emitted().push(r->Some_0) && after.cursor() == n
            + 1
        &&& n == 0 ==> {
            &&& r->Some_0.0 == script_draw(script, at)
            &&& r->Some_0.1 == script_draw(script, second)
            &&& after.points() == seq![r->Some_0]
            &&& after.grid() == 1
            &&& after.source().cursor() == script_advance(script, second)
        }
        &&& 0 < n < before.points().len() ==> after.points() == before.points() && after.grid()
            == before.grid() && after.source().cursor() == at
        &&& r is Some && n > 0 && n == before.points().len() ==> {
            &&& after.grid() == 2 * before.grid()
            &&& after.points().len() == 4 * n
            &&& after.points().subrange(0, n) == before.points()
            &&& after.source().cursor() == script_skip(script, at, (7 * n) as nat)
            &&& forall|t: int|
                0 <= t < n ==> #[trigger] grown_at(
                    after.points(),
                    t,
                    n,
                    before.grid(),
                    script,
                    at,
                )
        }
    }

    /// Determinism: two calls of `generate` on generators that hold the same
    /// sequence and stand at the same place of the same script hand out the
    /// same point and leave the same sequence, at the same place of the script.
    pub proof fn lemma_generate_is_determined(
        a: Jittered,
        a_after: Jittered,
        ra: Option<Point>,
        b: Jittered,
        b_after: Jittered,
        rb: Option<Point>,
    )
        requires
            a.wf(),
            b.wf(),
            a_after.wf(),
            b_after.wf(),
            a.points() == b.points(),
            a.cursor() == b.cursor(),
            a.grid() == b.grid(),
            a.source().script() == b.source().script(),
            a.source().cursor() == b.source().cursor(),
            Self::step_on_script(a, a_after, ra),
            Self::step_on_script(b, b_after, rb),
        ensures
            ra == rb,
            a_after.points() == b_after.points(),
            a_after.cursor() == b_after.cursor(),
            a_after.grid() == b_after.grid(),
            a_after.source().script() == b_after.source().script(),
            a_after.source().cursor() == b_after.source().cursor(),
    {
        let n = a.cursor();
        if ra is Some {
            if n > 0 && n == a.points().len() {
                lemma_growth_is_determined(
                    a_after.points(),
                    b_after.points(),
                    n,
                    a.grid(),
                    a.source().script(),
                    a.source().cursor(),
                );
            } else if n == 0 {
                assert(a_after.points() =~= b_after.points());
            }
            assert(a_after.emitted()[n] == ra->Some_0);
            assert(b_after.emitted()[n] == rb->Some_0);
            assert(a_after.emitted()[n] == a_after.points()[n]);
            assert(b_after.emitted()[n] == b_after.points()[n]);
        }
    }

    /// A generator that draws from `source`.
    pub fn with_source(source: DrawSource) -> (g: Jittered)
        ensures
            g.wf(),
            g.source() == source,
            g.cursor() == 0,
            g.points() == Seq::<Point>::empty(),
            g.grid() == 1,
    {
        Jittered { rng: source, seq: Vec::new(), index: 0, grid: 1 }
    }

    /// Makes room for `n` more points. What the generator hands out does not
    /// change.
    pub fn reserve(self, n: usize) -> (g: Jittered)
        requires
            self.wf(),
        ensures
            g.wf(),
            g.source() == self.source(),
            g.points() == self.points(),
            g.cursor() == self.cursor(),
            g.grid() == self.grid(),
    {
        let mut g = self;
        g.seq.reserve(n);
        g
    }

    /// Quadruples a used-up tier: beside each point, three more, so that the
    /// four fill the sub-quadrants of the point's cell.
    fn extend_sequence(&mut self)
        requires
            old(self).wf(),
            old(self).index == old(self).seq.len(),
            old(self).index > 0,
            old(self).grid <= MAX_GRID,
        ensures
            final(self).wf(),
            final(self).index == old(self).index,
            final(self).grid == 2 * old(self).grid,
            final(self).seq@.len() == 4 * old(self).seq@.len(),
            final(self).seq@.subrange(0, old(self).index as int) == old(self).seq@,
            forall|t: int|
                0 <= t < old(self).index ==> #[trigger] quad_placed(
                    final(self).seq@,
                    t,
                    old(self).index as int,
                    old(self).grid as int,
                ),
            final(self).rng.is_scripted() == old(self).rng.is_scripted(),
            final(self).rng.script() == old(self).rng.script(),
            old(self).rng.is_scripted() ==> {
                &&& final(self).rng.cursor() == script_skip(
                    old(self).rng.script(),
                    old(self).rng.cursor(),
                    (7 * old(self).index) as nat,
                )
                &&& forall|t: int|
                    0 <= t < old(self).index ==> #[trigger] grown_at(
                        final(self).seq@,
                        t,
                        old(self).index as int,
                        old(self).grid as int,
                        old(self).rng.script(),
                        old(self).rng.cursor(),
                    )
            },
    {
        let n: usize = self.index;
        let g: u64 = self.grid;
        let ghost script = self.rng.script();
        let ghost start = self.rng.cursor();
        proof {
            lemma_grid_ok(g as int);
            assert(g * g <= 268435456) by (nonlinear_arith)
                requires
                    g <= 16384,
            ;
        }
        self.seq.resize(4 * n, (0, 0));
        let mut s: usize = 0;
        while s < n
            invariant
                0 <= s <= n,
                n > 0,
                n == g * g,
                n <= 268435456,
                1 <= g <= MAX_GRID,
                (UNIT as int) % (2 * g) == 0,
                self.index == n,
                self.grid == g,
                self.seq@.len() == 4 * n,
                self.seq@.subrange(0, n as int) == old(self).seq@,
                stratified(old(self).seq@, g as int),
                old(self).seq@.len() == n,
                forall|t: int| 0 <= t < s
                    ==> #[trigger] quad_placed(self.seq@, t, n as int, g as int),
                self.rng.is_scripted() == old(self).rng.is_scripted(),
                self.rng.script() == old(self).rng.script(),
                script == old(self).rng.script(),
                start == old(self).rng.cursor(),
                self.rng.is_scripted() ==> self.rng.cursor() == script_skip(
                    script,
                    start,
                    (7 * s) as nat,
                ),
                self.rng.is_scripted() ==> forall|t: int|
                    0 <= t < s
                        ==> #[trigger] grown_at(self.seq@, t, n as int, g as int, script, start),
            decreases n - s,
        {
            let ghost before = self.seq@;
            let ghost here = self.rng.cursor();
            let p: Point = self.seq[s];
            assert(p == old(self).seq@[s as int]) by {
                assert(self.seq@.subrange(0, n as int)[s as int] == self.seq@[s as int]);
            }
            let i: u64 = cell_of(p.0, g);
            let j: u64 = cell_of(p.1, g);
            let mut xh: u64 = 1 - half_of(p.0, g);
            let mut yh: u64 = 1 - half_of(p.1, g);
            let q1: Point = generate_point(&mut self.rng, i, j, xh, yh, g);
            self.seq.set(n + s, q1);
            let coin: u64 = self.rng.next();
            if coin > UNIT / 2 {
                xh = 1 - xh;
            } else {
                yh = 1 - yh;
            }
            let q2: Point = generate_point(&mut self.rng, i, j, xh, yh, g);
            self.seq.set(2 * n + s, q2);
            xh = 1 - xh;
            yh = 1 - yh;
            let q3: Point = generate_point(&mut self.rng, i, j, xh, yh, g);
            self.seq.set(3 * n + s, q3);
            proof {
                assert(self.seq@.subrange(0, n as int) =~= before.subrange(0, n as int));
                assert(self.seq@[s as int] == p);
                assert(quad_placed(self.seq@, s as int, n as int, g as int));
                if self.rng.is_scripted() {
                    reveal_with_fuel(script_skip, 8);
                    lemma_script_skip_add(script, start, (7 * s) as nat, 7);
                    assert(grown_from(self.seq@, s as int, n as int, g as int, script, here));
                    assert forall|t: int| 0 <= t < s implies #[trigger] grown_at(
                        self.seq@,
                        t,
                        n as int,
                        g as int,
                        script,
                        start,
                    ) by {
                        assert(grown_at(before, t, n as int, g as int, script, start));
                    }
                }
                assert forall|t: int| 0 <= t < s implies #[trigger] quad_placed(
                    self.seq@,
                    t,
                    n as int,
                    g as int,
                ) by {
                    assert(quad_placed(before, t, n as int, g as int));
                }
            }
            s = s + 1;
        }
        self.grid = 2 * g;
        proof {
            lemma_quads_stratified(self.seq@, n as int, g as int);
            assert((2 * g) * (2 * g) == 4 * (g * g)) by (nonlinear_arith);
        }
    }

    /// At every completed tier, every cell of the tier's grid holds exactly
    /// one point of the sequence.
    pub proof fn lemma_one_point_per_cell(self, cx: int, cy: int)
        requires
            self.wf(),
            self.cursor() > 0,
            0 <= cx < self.grid(),
            0 <= cy < self.grid(),
        ensures
            exists|s: int|
                0 <= s < self.points().len() && cell(self.points()[s].0 as int, self.grid()) == cx
                    && cell(self.points()[s].1 as int, self.grid()) == cy,
            forall|a: int, b: int|
                0 <= a < self.points().len() && 0 <= b < self.points().len() && same_cell(
                    self.points()[a],
                    self.points()[b],
                    self.grid(),
                ) ==> a == b,
    {
        lemma_stratified_fills_grid(self.points(), self.grid(), cx, cy);
    }
}

impl Default for Jittered {
    /// A generator on the thread-local random source.
    fn default() -> (g: Jittered)
        ensures
            g.wf(),
            !g.source().is_scripted(),
            g.cursor() == 0,
            g.points() == Seq::<Point>::empty(),
            g.grid() == 1,
    {
        Jittered { rng: DrawSource::thread(), seq: Vec::new(), index: 0, grid: 1 }
    }
}

impl Generator for Jittered {
    open spec fn wf(&self) -> bool {
        self.tier_ok()
    }

    /// The next point of the sequence. The first call draws it; a later
    /// call reads it from the tier, which is quadrupled first where it is used
    /// up. `None` comes exactly where the tier is used up and cannot grow, and
    /// then nothing changes. What was handed out before stays as it was.
    fn generate(&mut self) -> (r: Option<Point>)
        ensures
            r is None <==> old(self).exhausted(),
            r is None ==> final(self).points() == old(self).points() && final(self).cursor()
                == old(self).cursor() && final(self).grid() == old(self).grid()
                    && final(self).source() == old(self).source(),
            r is Some ==> final(self).emitted() == old(self).emitted().push(r->Some_0),
            r is Some ==> final(self).cursor() == old(self).cursor() + 1,
            old(self).source().is_scripted() ==> Self::step_on_script(*old(self), *final(self), r),
            final(self).source().is_scripted() == old(self).source().is_scripted(),
            final(self).source().script() == old(self).source().script(),
            old(self).cursor() == 0 ==> final(self).points() == seq![r->Some_0]
                && final(self).grid() == 1,
            0 < old(self).cursor() < old(self).points().len()
                ==> final(self).points() == old(self).points()
                && final(self).grid() == old(self).grid()
                && final(self).source() == old(self).source(),
            r is Some && old(self).cursor() > 0 && old(self).cursor() == old(self).points().len()
                ==> {
                &&& final(self).grid() == 2 * old(self).grid()
                &&& final(self).points().len() == 4 * old(self).points().len()
                &&& final(self).points().subrange(0, old(self).cursor()) == old(self).points()
                &&& forall|t: int|
                    0 <= t < old(self).cursor() ==> #[trigger] quad_placed(
                        final(self).points(),
                        t,
                        old(self).cursor(),
                        old(self).grid(),
                    )
            },
    {
        if self.index == 0 {
            let x: u64 = self.rng.next();
            let y: u64 = self.rng.next();
            self.seq.push((x, y));
            self.index = 1;
            self.grid = 1;
            proof {
                assert(self.seq@ =~= seq![(x, y)]);
                assert(grid_ok(1)) by {
                    assert(crate::fixed::two_pow(0) == 1);
                }
                assert(self.emitted() =~= old(self).emitted().push((x, y)));
            }
            Some((x, y))
        } else {
            if self.index == self.seq.len() {
                if self.grid > MAX_GRID {
                    return None;
                }
                self.extend_sequence();
            }
            proof {
                lemma_grid_ok(self.grid as int);
            }
            let p: Point = self.seq[self.index];
            self.index = self.index + 1;
            proof {
                assert(in_unit(self.seq@[self.index - 1]));
                assert(self.emitted() =~= old(self).emitted().push(p)) by {
                    assert(self.seq@.subrange(0, old(self).index as int) =~= old(self).seq@.subrange(0, old(self).index as int));
                }
            }
            Some(p)
        }
    }
}

} // verus!
