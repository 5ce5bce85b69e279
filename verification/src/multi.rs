//! The multi-jittered generator: jittered growth whose new points also keep
//! clear of every place that an occupancy strategy has recorded.
use vstd::prelude::*;
use crate::fixed::{
    capacity_ok, cell, cell_of, grid_ok, lemma_cell_bound, lemma_cell_coarser, half, half_of,
    in_unit, lemma_grid_ok,
    lemma_growth_capacities, lemma_quads_stratified, lemma_stratified_fills_grid,
    lemma_two_pow_mono, same_cell, two_pow, placed, quad_placed, diag_placed, sides_placed,
    stratified, Point, MAX_GRID, UNIT,
};
use crate::dyadic::{boxed, same_box, ElementaryElement02};
use crate::occupancy::{latin, ElementaryElement, HVElementaryElement};
use crate::source::{script_advance, script_draw, DrawSource};
use crate::Generator;

verus! {

/// Every one of `points` lies in the unit square.
pub open spec fn all_in_unit(points: Seq<Point>) -> bool {
    forall|s: int| 0 <= s < points.len() ==> in_unit(#[trigger] points[s])
}

/// No two of `points` collide at `capacity`, as the strategy `T` sees it.
pub open spec fn separated<T: ElementaryElement>(points: Seq<Point>, capacity: int) -> bool {
    forall|a: int, b: int|
        0 <= a < b < points.len() ==> !T::collide(
            capacity,
            #[trigger] points[a],
            #[trigger] points[b],
        )
}

/// The record `ee` holds the claims of the first `count` of `points`, and
/// nothing else.
pub open spec fn tracks<T: ElementaryElement>(ee: T, points: Seq<Point>, count: int) -> bool {
    &&& ee.wf()
    &&& forall|q: Point|
        in_unit(q) ==> (#[trigger] ee.claimed(q) <==> exists|t: int|
            0 <= t < count && #[trigger] T::collide(ee.capacity(), points[t], q))
}

/// `(hx, hy)` is a sub-quadrant beside that of the point at `t` along one
/// axis, and the point at `2 * n + t` lies in it.
pub open spec fn side_placed(points: Seq<Point>, t: int, n: int, grid: int, hx: int, hy: int) -> bool {
    let p = points[t];
    let xh = half(p.0 as int, grid);
    let yh = half(p.1 as int, grid);
    &&& (hx == xh && hy == 1 - yh) || (hx == 1 - xh && hy == yh)
    &&& placed(points[2 * n + t], cell(p.0 as int, grid), cell(p.1 as int, grid), hx, hy, grid)
}

/// The point at `3 * n + t` lies in the sub-quadrant diagonally opposite to
/// `(hx, hy)`, in the cell of the point at `t`.
pub open spec fn opposite_placed(
    points: Seq<Point>,
    t: int,
    n: int,
    grid: int,
    hx: int,
    hy: int,
) -> bool {
    let p = points[t];
    placed(
        points[3 * n + t],
        cell(p.0 as int, grid),
        cell(p.1 as int, grid),
        1 - hx,
        1 - hy,
        grid,
    )
}

/// A stage of growth on a script: whether every draw so far found a place,
/// the sequence, the record as plain values, and where the script stands.
pub type Growth = (bool, Seq<Point>, Seq<Seq<bool>>, int);

/// The record that holds the claims of the first `count` of `points`, made
/// one after the other on a fresh record.
pub open spec fn replayed<T: ElementaryElement>(
    points: Seq<Point>,
    count: nat,
    capacity: int,
) -> Seq<Seq<bool>>
    decreases count,
{
    if count == 0 {
        T::fresh(capacity)
    } else {
        T::marked(
            replayed::<T>(points, (count - 1) as nat, capacity),
            capacity,
            points[count - 1],
        )
    }
}

/// The replayed record rests on the points that were replayed alone.
pub proof fn lemma_replayed_prefix<T: ElementaryElement>(
    a: Seq<Point>,
    b: Seq<Point>,
    count: nat,
    capacity: int,
)
    requires
        count <= a.len(),
        count <= b.len(),
        forall|k: int| 0 <= k < count ==> a[k] == b[k],
    ensures
        replayed::<T>(a, count, capacity) == replayed::<T>(b, count, capacity),
    decreases count,
{
    if count > 0 {
        lemma_replayed_prefix::<T>(a, b, (count - 1) as nat, capacity);
    }
}

/// In the slice record replayed from points, a slice is marked exactly when
/// one of the points lies in it.
pub proof fn lemma_replayed_slices(points: Seq<Point>, count: nat, capacity: int, c: int)
    requires
        count <= points.len(),
        all_in_unit(points),
        0 <= c < capacity,
    ensures
        replayed::<HVElementaryElement>(points, count, capacity).len() == 2,
        replayed::<HVElementaryElement>(points, count, capacity)[0].len() == capacity,
        replayed::<HVElementaryElement>(points, count, capacity)[1].len() == capacity,
        replayed::<HVElementaryElement>(points, count, capacity)[0][c] <==> exists|t: int|
            0 <= t < count && cell(#[trigger] points[t].0 as int, capacity) == c,
        replayed::<HVElementaryElement>(points, count, capacity)[1][c] <==> exists|t: int|
            0 <= t < count && cell(#[trigger] points[t].1 as int, capacity) == c,
    decreases count,
{
    if count > 0 {
        let before = replayed::<HVElementaryElement>(points, (count - 1) as nat, capacity);
        let now = replayed::<HVElementaryElement>(points, count, capacity);
        let p = points[count - 1];
        lemma_replayed_slices(points, (count - 1) as nat, capacity, c);
        assert(in_unit(p));
        lemma_cell_bound(p.0 as int, capacity);
        lemma_cell_bound(p.1 as int, capacity);
        assert(now[0] == before[0].update(cell(p.0 as int, capacity), true));
        assert(now[1] == before[1].update(cell(p.1 as int, capacity), true));
        if before[0][c] {
            let t = choose|t: int|
                0 <= t < count - 1 && cell(#[trigger] points[t].0 as int, capacity) == c;
            assert(0 <= t < count && cell(points[t].0 as int, capacity) == c);
        }
        if before[1][c] {
            let t = choose|t: int|
                0 <= t < count - 1 && cell(#[trigger] points[t].1 as int, capacity) == c;
            assert(0 <= t < count && cell(points[t].1 as int, capacity) == c);
        }
        if cell(p.0 as int, capacity) == c {
            assert(0 <= count - 1 < count && cell(points[count - 1].0 as int, capacity) == c);
        }
        if cell(p.1 as int, capacity) == c {
            assert(0 <= count - 1 < count && cell(points[count - 1].1 as int, capacity) == c);
        }
    }
}

/// The slice record replayed from a full tier of the Latin square has every
/// mark set, along x and along y.
pub proof fn lemma_full_tier_marks_every_slice(points: Seq<Point>, c: int)
    requires
        all_in_unit(points),
        latin(points, points.len() as int),
        0 <= c < points.len(),
    ensures
        replayed::<HVElementaryElement>(points, points.len(), points.len() as int)[0][c],
        replayed::<HVElementaryElement>(points, points.len(), points.len() as int)[1][c],
{
    HVElementaryElement::lemma_one_point_per_slice(points, c);
    lemma_replayed_slices(points, points.len(), points.len() as int, c);
    let sx = choose|s: int|
        0 <= s < points.len() && cell(points[s].0 as int, points.len() as int) == c;
    assert(0 <= sx < points.len() && cell(points[sx].0 as int, points.len() as int) == c);
    let sy = choose|s: int|
        0 <= s < points.len() && cell(points[s].1 as int, points.len() as int) == c;
    assert(0 <= sy < points.len() && cell(points[sy].1 as int, points.len() as int) == c);
}

/// One placement: the strategy picks a point in the sub-quadrant, which
/// joins the sequence and the record; where it gives up, the stage fails. A
/// failed stage stays as it is.
pub open spec fn place_step<T: ElementaryElement>(
    st: Growth,
    capacity: int,
    i: int,
    j: int,
    xh: int,
    yh: int,
    grid: int,
    script: Seq<u64>,
    tries: nat,
) -> Growth {
    if !st.0 {
        st
    } else {
        let found = T::pick(st.2, capacity, i, j, xh, yh, grid, script, st.3, tries);
        if found.0 is Some {
            (true, st.1.push(found.0->Some_0), T::marked(st.2, capacity, found.0->Some_0), found.1)
        } else {
            (false, st.1, st.2, found.1)
        }
    }
}

/// The diagonal phase after `s` placements: the point beside the one at
/// `s - 1` goes to the sub-quadrant diagonally opposite to it.
pub open spec fn diag_steps<T: ElementaryElement>(
    start: Growth,
    n: int,
    grid: int,
    script: Seq<u64>,
    tries: nat,
    s: nat,
) -> Growth
    decreases s,
{
    if s == 0 {
        start
    } else {
        let st = diag_steps::<T>(start, n, grid, script, tries, (s - 1) as nat);
        let p = st.1[s - 1];
        place_step::<T>(
            st,
            2 * n,
            cell(p.0 as int, grid),
            cell(p.1 as int, grid),
            1 - half(p.0 as int, grid),
            1 - half(p.1 as int, grid),
            grid,
            script,
            tries,
        )
    }
}

/// The first half of the quadrant phase after `s` placements: one draw
/// above one half flips the x half of the point at `s - 1`, else its y half
/// is flipped, and the new point goes there.
pub open spec fn side_steps<T: ElementaryElement>(
    start: Growth,
    n: int,
    grid: int,
    script: Seq<u64>,
    tries: nat,
    s: nat,
) -> Growth
    decreases s,
{
    if s == 0 {
        start
    } else {
        let st = side_steps::<T>(start, n, grid, script, tries, (s - 1) as nat);
        if !st.0 {
            st
        } else {
            let p = st.1[s - 1];
            let flip_x = script_draw(script, st.3) > UNIT / 2;
            let xh = half(p.0 as int, grid);
            let yh = half(p.1 as int, grid);
            place_step::<T>(
                (true, st.1, st.2, script_advance(script, st.3)),
                4 * n,
                cell(p.0 as int, grid),
                cell(p.1 as int, grid),
                if flip_x {
                    1 - xh
                } else {
                    xh
                },
                if flip_x {
                    yh
                } else {
                    1 - yh
                },
                grid,
                script,
                tries,
            )
        }
    }
}

/// The second half of the quadrant phase after `s` placements: the new
/// point goes diagonally opposite to the one at `2 * n + s - 1`, in the cell
/// of the point at `s - 1`.
pub open spec fn opposite_steps<T: ElementaryElement>(
    start: Growth,
    n: int,
    grid: int,
    script: Seq<u64>,
    tries: nat,
    s: nat,
) -> Growth
    decreases s,
{
    if s == 0 {
        start
    } else {
        let st = opposite_steps::<T>(start, n, grid, script, tries, (s - 1) as nat);
        let p = st.1[s - 1];
        let q = st.1[2 * n + s - 1];
        place_step::<T>(
            st,
            4 * n,
            cell(p.0 as int, grid),
            cell(p.1 as int, grid),
            1 - half(q.0 as int, grid),
            1 - half(q.1 as int, grid),
            grid,
            script,
            tries,
        )
    }
}

/// The quadrant phase: both halves, one after the other.
pub open spec fn quadrant_steps<T: ElementaryElement>(
    start: Growth,
    n: int,
    grid: int,
    script: Seq<u64>,
    tries: nat,
) -> Growth {
    opposite_steps::<T>(
        side_steps::<T>(start, n, grid, script, tries, n as nat),
        n,
        grid,
        script,
        tries,
        n as nat,
    )
}

/// Growth of a used-up tier on a script that stands at `cursor`: the
/// diagonal phase on a record replayed at twice the tier's size, then the
/// quadrant phase on a record replayed at four times the size.
pub open spec fn grown<T: ElementaryElement>(
    points: Seq<Point>,
    grid: int,
    script: Seq<u64>,
    cursor: int,
    tries: nat,
) -> Growth {
    let n = points.len() as int;
    let first = diag_steps::<T>(
        (true, points, replayed::<T>(points, n as nat, 2 * n), cursor),
        n,
        grid,
        script,
        tries,
        n as nat,
    );
    if !first.0 {
        first
    } else {
        quadrant_steps::<T>(
            (true, first.1, replayed::<T>(first.1, (2 * n) as nat, 4 * n), first.3),
            n,
            grid,
            script,
            tries,
        )
    }
}

/// A failed stage of the diagonal phase stays as it is.
pub proof fn lemma_diag_failed<T: ElementaryElement>(
    start: Growth,
    n: int,
    grid: int,
    script: Seq<u64>,
    tries: nat,
    s: nat,
    m: nat,
)
    requires
        s <= m,
        !diag_steps::<T>(start, n, grid, script, tries, s).0,
    ensures
        diag_steps::<T>(start, n, grid, script, tries, m) == diag_steps::<T>(
            start,
            n,
            grid,
            script,
            tries,
            s,
        ),
    decreases m,
{
    if s < m {
        lemma_diag_failed::<T>(start, n, grid, script, tries, s, (m - 1) as nat);
    }
}

/// A failed stage of the quadrant phase's first half stays as it is.
pub proof fn lemma_side_failed<T: ElementaryElement>(
    start: Growth,
    n: int,
    grid: int,
    script: Seq<u64>,
    tries: nat,
    s: nat,
    m: nat,
)
    requires
        s <= m,
        !side_steps::<T>(start, n, grid, script, tries, s).0,
    ensures
        side_steps::<T>(start, n, grid, script, tries, m) == side_steps::<T>(
            start,
            n,
            grid,
            script,
            tries,
            s,
        ),
    decreases m,
{
    if s < m {
        lemma_side_failed::<T>(start, n, grid, script, tries, s, (m - 1) as nat);
    }
}

/// A failed stage of the quadrant phase's second half stays as it is.
pub proof fn lemma_opposite_failed<T: ElementaryElement>(
    start: Growth,
    n: int,
    grid: int,
    script: Seq<u64>,
    tries: nat,
    s: nat,
    m: nat,
)
    requires
        s <= m,
        !opposite_steps::<T>(start, n, grid, script, tries, s).0,
    ensures
        opposite_steps::<T>(start, n, grid, script, tries, m) == opposite_steps::<T>(
            start,
            n,
            grid,
            script,
            tries,
            s,
        ),
    decreases m,
{
    if s < m {
        lemma_opposite_failed::<T>(start, n, grid, script, tries, s, (m - 1) as nat);
    }
}

/// The multi-jittered generator over the occupancy strategy `T`.
pub struct MultiJittered<T: ElementaryElement + Default> {
    rng: DrawSource,
    seq: Vec<Point>,
    index: usize,
    grid: u64,
    ee: T,
    tries: u64,
}

impl<T: ElementaryElement + Default> MultiJittered<T> {
    /// The source that the points are drawn from.
    pub closed spec fn source(&self) -> DrawSource {
        self.rng
    }

    /// The whole sequence, the points not yet handed out included.
    pub closed spec fn points(&self) -> Seq<Point> {
        self.seq@
    }

    /// How many points have been handed out.
    pub closed spec fn cursor(&self) -> int {
        self.index as int
    }

    /// The number of cells along each axis of the current tier's grid.
    pub closed spec fn grid(&self) -> int {
        self.grid as int
    }

    /// How many candidates in a row may be turned down before a draw gives up.
    pub closed spec fn retry_limit(&self) -> int {
        self.tries as int
    }

    /// The points handed out so far, in order.
    pub open spec fn emitted(&self) -> Seq<Point> {
        self.points().subrange(0, self.cursor())
    }

    /// The tier is used up.
    pub open spec fn tier_used_up(&self) -> bool {
        self.cursor() > 0 && self.cursor() == self.points().len()
    }

    /// The sequence is a completed tier: nothing handed out means nothing
    /// stored; otherwise it holds `grid * grid` points in the unit square, one
    /// in each cell of the grid, and no two of them collide at that capacity.
    pub open spec fn tier_ok(&self) -> bool {
        &&& 0 <= self.cursor() <= self.points().len()
        &&& self.cursor() == 0 ==> self.points().len() == 0
        &&& self.points().len() > 0 ==> {
            &&& grid_ok(self.grid())
            &&& self.points().len() == self.grid() * self.grid()
            &&& stratified(self.points(), self.grid())
            &&& separated::<T>(self.points(), self.points().len() as int)
        }
    }

    /// What one call of `generate` makes of a generator on a script: the
    /// result `r` and the generator `after` the call, from the one `before`.
    pub open spec fn step_on_script(before: Self, after: Self, r: Option<Point>) -> bool {
        let script = before.source().script();
        let at = before.source().cursor();
        let second = script_advance(script, at);
        let n = before.cursor();
        let g = grown::<T>(
            before.points(),
            before.grid(),
            script,
            at,
            before.retry_limit() as nat,
        );
        &&& after.source().script() == script
        &&& after.retry_limit() == before.retry_limit()
        &&& r is None ==> after.points() == before.points() && after.cursor() == n && after.grid()
            == before.grid()
        &&& r is Some ==> after.emitted() == before.emitted().push(r->Some_0) && after.cursor() == n
            + 1
        &&& n == 0 ==> {
            &&& r is Some
            &&& r->Some_0.0 == script_draw(script, at)
            &&& r->Some_0.1 == script_draw(script, second)
            &&& after.points() == seq![r->Some_0]
            &&& after.grid() == 1
            &&& after.source().cursor() == script_advance(script, second)
        }
        &&& 0 < n < before.points().len() ==> r is Some && after.points() == before.points()
            && after.grid() == before.grid() && after.source().cursor() == at
        &&& before.tier_used_up() && before.grid() > MAX_GRID ==> r is None
            && after.source().cursor() == at
        &&& before.tier_used_up() && before.grid() <= MAX_GRID ==> {
            &&& r is Some <==> g.0
            &&& after.source().cursor() == g.3
            &&& g.0 ==> after.points() == g.1 && after.grid() == 2 * before.grid()
        }
    }

    /// Determinism: two calls of `generate` on generators that hold the same
    /// sequence, allow as many retries and stand at the same place of the same
    /// script hand out the same point, or both none, and leave the same
    /// sequence, at the same place of the script.
    pub proof fn lemma_generate_is_determined(
        a: Self,
        a_after: Self,
        ra: Option<Point>,
        b: Self,
        b_after: Self,
        rb: Option<Point>,
    )
        requires
            a.tier_ok(),
            b.tier_ok(),
            a_after.tier_ok(),
            b_after.tier_ok(),
            a.points() == b.points(),
            a.cursor() == b.cursor(),
            a.grid() == b.grid(),
            a.retry_limit() == b.retry_limit(),
            a.source().script() == b.source().script(),
            a.source().cursor() == b.source().cursor(),
            Self::step_on_script(a, a_after, ra),
            Self::step_on_script(b, b_after, rb),
        ensures
            ra == rb,
            a_after.points() == b_after.points(),
            a_after.cursor() == b_after.cursor(),
            a_after.grid() == b_after.grid(),
            a_after.retry_limit() == b_after.retry_limit(),
            a_after.source().script() == b_after.source().script(),
            a_after.source().cursor() == b_after.source().cursor(),
    {
        let n = a.cursor();
        if ra is Some {
            if n == 0 {
                assert(a_after.points() =~= b_after.points());
            }
            assert(rb is Some);
            assert(a_after.emitted()[n] == ra->Some_0);
            assert(b_after.emitted()[n] == rb->Some_0);
            assert(a_after.emitted()[n] == a_after.points()[n]);
            assert(b_after.emitted()[n] == b_after.points()[n]);
        }
    }

    /// A generator that draws from `source` and records claims in `ee`.
    /// Rejection sampling is as good as unbounded: a draw gives up only after
    /// `u64::MAX` candidates in a row were turned down.
    pub fn with_source(source: DrawSource, ee: T) -> (g: Self)
        ensures
            g.tier_ok(),
            g.source() == source,
            g.cursor() == 0,
            g.points() == Seq::<Point>::empty(),
            g.grid() == 1,
            g.retry_limit() == u64::MAX,
    {
        MultiJittered { rng: source, seq: Vec::new(), index: 0, grid: 1, ee, tries: u64::MAX }
    }

    /// Sets how many candidates in a row may be turned down before a draw
    /// gives up. What was handed out does not change.
    pub fn with_retry_limit(self, tries: u64) -> (g: Self)
        requires
            self.tier_ok(),
        ensures
            g.tier_ok(),
            g.source() == self.source(),
            g.points() == self.points(),
            g.cursor() == self.cursor(),
            g.grid() == self.grid(),
            g.retry_limit() == tries,
    {
        let mut g = self;
        g.tries = tries;
        g
    }

    /// Sizes the record for `capacity` and claims the places of the first
    /// `count` points.
    fn replay(&mut self, count: usize, capacity: usize)
        requires
            count <= old(self).seq.len(),
            capacity_ok(capacity as int),
            all_in_unit(old(self).seq@),
        ensures
            tracks(final(self).ee, final(self).seq@, count as int),
            final(self).ee.capacity() == capacity,
            final(self).ee.record() == replayed::<T>(
                old(self).seq@,
                count as nat,
                capacity as int,
            ),
            final(self).seq == old(self).seq,
            final(self).index == old(self).index,
            final(self).grid == old(self).grid,
            final(self).tries == old(self).tries,
            final(self).rng == old(self).rng,
    {
        self.ee.reinitialize(capacity);
        let mut k: usize = 0;
        while k < count
            invariant
                k <= count <= self.seq.len(),
                all_in_unit(self.seq@),
                tracks(self.ee, self.seq@, k as int),
                self.ee.capacity() == capacity,
                self.ee.record() == replayed::<T>(self.seq@, k as nat, capacity as int),
                self.seq == old(self).seq,
                self.index == old(self).index,
                self.grid == old(self).grid,
                self.tries == old(self).tries,
                self.rng == old(self).rng,
            decreases count - k,
        {
            let ghost before = self.ee;
            let p: Point = self.seq[k];
            self.ee.update(p);
            proof {
                let cap = capacity as int;
                let pts = self.seq@;
                assert forall|q: Point| in_unit(q) implies (#[trigger] self.ee.claimed(q)
                    <==> exists|t: int|
                    0 <= t < k + 1 && #[trigger] T::collide(cap, pts[t], q)) by {
                    if before.claimed(q) {
                        let t = choose|t: int| 0 <= t < k && #[trigger] T::collide(cap, pts[t], q);
                        assert(0 <= t < k + 1 && T::collide(cap, pts[t], q));
                    }
                    if T::collide(cap, p, q) {
                        assert(0 <= k < k + 1 && T::collide(cap, pts[k as int], q));
                    }
                    if exists|t: int| 0 <= t < k + 1 && #[trigger] T::collide(cap, pts[t], q) {
                        let t = choose|t: int|
                            0 <= t < k + 1 && #[trigger] T::collide(cap, pts[t], q);
                        if t < k {
                            assert(before.claimed(q));
                        }
                    }
                }
            }
            k = k + 1;
        }
    }

    /// Draws a point in the sub-quadrant `(xhalf, yhalf)` of the cell `(i, j)`
    /// that takes no claimed place, and claims its places. `None`, with the
    /// record as it was, where the strategy gave up.
    fn generate_point_slice(&mut self, i: u64, j: u64, xhalf: u64, yhalf: u64) -> (r: Option<Point>)
        requires
            old(self).ee.wf(),
            i < old(self).grid,
            j < old(self).grid,
            xhalf <= 1,
            yhalf <= 1,
            old(self).grid <= 32768,
            (UNIT as int) % (2 * old(self).grid) == 0,
        ensures
            final(self).seq == old(self).seq,
            final(self).index == old(self).index,
            final(self).grid == old(self).grid,
            final(self).tries == old(self).tries,
            final(self).rng.is_scripted() == old(self).rng.is_scripted(),
            final(self).rng.script() == old(self).rng.script(),
            final(self).ee.wf(),
            final(self).ee.capacity() == old(self).ee.capacity(),
            r is None ==> final(self).ee == old(self).ee,
            old(self).rng.is_scripted() ==> {
                let found = T::pick(
                    old(self).ee.record(),
                    old(self).ee.capacity(),
                    i as int,
                    j as int,
                    xhalf as int,
                    yhalf as int,
                    old(self).grid as int,
                    old(self).rng.script(),
                    old(self).rng.cursor(),
                    old(self).tries as nat,
                );
                r == found.0 && final(self).rng.cursor() == found.1
            },
            r is Some ==> final(self).ee.record() == T::marked(
                old(self).ee.record(),
                old(self).ee.capacity(),
                r->Some_0,
            ),
            r is Some ==> {
                let q = r->Some_0;
                &&& placed(q, i as int, j as int, xhalf as int, yhalf as int, old(self).grid as int)
                &&& !old(self).ee.claimed(q)
                &&& forall|x: Point|
                    in_unit(x) ==> (#[trigger] final(self).ee.claimed(x)
                        <==> (old(self).ee.claimed(x)
                        || T::collide(old(self).ee.capacity(), q, x)))
            },
    {
        match self.ee.generate(i, j, xhalf, yhalf, self.grid, &mut self.rng, self.tries) {
            None => None,
            Some(q) => {
                self.ee.update(q);
                Some(q)
            },
        }
    }

    /// Draws, claims and appends one point; `None`, with the sequence as it
    /// was, where the strategy gave up.
    fn place(&mut self, i: u64, j: u64, xhalf: u64, yhalf: u64) -> (r: Option<Point>)
        requires
            i < old(self).grid,
            j < old(self).grid,
            xhalf <= 1,
            yhalf <= 1,
            old(self).grid <= 32768,
            (UNIT as int) % (2 * old(self).grid) == 0,
            all_in_unit(old(self).seq@),
            tracks(old(self).ee, old(self).seq@, old(self).seq@.len() as int),
            separated::<T>(old(self).seq@, old(self).ee.capacity()),
        ensures
            final(self).index == old(self).index,
            final(self).grid == old(self).grid,
            final(self).tries == old(self).tries,
            final(self).rng.is_scripted() == old(self).rng.is_scripted(),
            final(self).rng.script() == old(self).rng.script(),
            final(self).ee.capacity() == old(self).ee.capacity(),
            r is None ==> final(self).seq@ == old(self).seq@,
            r is Some && old(self).ee.record() == replayed::<T>(
                old(self).seq@,
                old(self).seq@.len(),
                old(self).ee.capacity(),
            ) ==> final(self).ee.record() == replayed::<T>(
                final(self).seq@,
                final(self).seq@.len(),
                old(self).ee.capacity(),
            ),
            old(self).rng.is_scripted() ==> (
                r is Some,
                final(self).seq@,
                final(self).ee.record(),
                final(self).rng.cursor(),
            ) == place_step::<T>(
                (true, old(self).seq@, old(self).ee.record(), old(self).rng.cursor()),
                old(self).ee.capacity(),
                i as int,
                j as int,
                xhalf as int,
                yhalf as int,
                old(self).grid as int,
                old(self).rng.script(),
                old(self).tries as nat,
            ),
            r is Some ==> {
                let q = r->Some_0;
                &&& final(self).seq@ == old(self).seq@.push(q)
                &&& placed(q, i as int, j as int, xhalf as int, yhalf as int, old(self).grid as int)
                &&& all_in_unit(final(self).seq@)
                &&& tracks(final(self).ee, final(self).seq@, final(self).seq@.len() as int)
                &&& separated::<T>(final(self).seq@, old(self).ee.capacity())
            },
    {
        let ghost before = self.ee;
        let ghost pts = self.seq@;
        let ghost cap = self.ee.capacity();
        match self.generate_point_slice(i, j, xhalf, yhalf) {
            None => None,
            Some(q) => {
                self.seq.push(q);
                proof {
                    let now = self.seq@;
                    let len = pts.len() as int;
                    assert(now[len] == q);
                    lemma_replayed_prefix::<T>(pts, now, len as nat, cap);
                    assert forall|a: int, b: int| 0 <= a < b < now.len() implies !T::collide(
                        cap,
                        #[trigger] now[a],
                        #[trigger] now[b],
                    ) by {
                        if b < len {
                            assert(!T::collide(cap, pts[a], pts[b]));
                        } else {
                            if T::collide(cap, now[a], q) {
                                assert(0 <= a < len && T::collide(cap, pts[a], q));
                                assert(before.claimed(q));
                            }
                        }
                    }
                    assert forall|x: Point| in_unit(x) implies (#[trigger] self.ee.claimed(x)
                        <==> exists|t: int|
                        0 <= t < len + 1 && #[trigger] T::collide(cap, now[t], x)) by {
                        if before.claimed(x) {
                            let t = choose|t: int|
                                0 <= t < len && #[trigger] T::collide(cap, pts[t], x);
                            assert(0 <= t < len + 1 && T::collide(cap, now[t], x));
                        }
                        if T::collide(cap, q, x) {
                            assert(0 <= len < len + 1 && T::collide(cap, now[len], x));
                        }
                        if exists|t: int| 0 <= t < len + 1
                            && #[trigger] T::collide(cap, now[t], x) {
                            let t = choose|t: int|
                                0 <= t < len + 1 && #[trigger] T::collide(cap, now[t], x);
                            if t < len {
                                assert(T::collide(cap, pts[t], x));
                                assert(before.claimed(x));
                            }
                        }
                    }
                }
                Some(q)
            },
        }
    }
    /// The diagonal phase of growth: for each point of the tier, one more in
    /// the sub-quadrant diagonally opposite to it. `false` where the strategy
    /// gave up on the way.
    fn extend_sequence_even(&mut self) -> (ok: bool)
        requires
            old(self).index > 0,
            old(self).seq@.len() == old(self).index,
            old(self).index == old(self).grid * old(self).grid,
            grid_ok(old(self).grid as int),
            old(self).grid <= MAX_GRID,
            all_in_unit(old(self).seq@),
            tracks(old(self).ee, old(self).seq@, old(self).index as int),
            old(self).ee.capacity() == 2 * old(self).index,
            old(self).ee.record() == replayed::<T>(
                old(self).seq@,
                old(self).index as nat,
                2 * old(self).index,
            ),
            separated::<T>(old(self).seq@, 2 * old(self).index),
        ensures
            final(self).index == old(self).index,
            final(self).grid == old(self).grid,
            final(self).tries == old(self).tries,
            final(self).rng.is_scripted() == old(self).rng.is_scripted(),
            final(self).rng.script() == old(self).rng.script(),
            final(self).seq@.len() >= old(self).index,
            final(self).seq@.subrange(0, old(self).index as int) == old(self).seq@,
            old(self).rng.is_scripted() ==> {
                let g = diag_steps::<T>(
                    (true, old(self).seq@, old(self).ee.record(), old(self).rng.cursor()),
                    old(self).index as int,
                    old(self).grid as int,
                    old(self).rng.script(),
                    old(self).tries as nat,
                    old(self).index as nat,
                );
                &&& ok == g.0
                &&& final(self).rng.cursor() == g.3
                &&& ok ==> final(self).seq@ == g.1 && final(self).ee.record() == g.2
            },
            ok ==> {
                &&& final(self).ee.record() == replayed::<T>(
                    final(self).seq@,
                    (2 * old(self).index) as nat,
                    2 * old(self).index,
                )
                &&& tracks(final(self).ee, final(self).seq@, 2 * old(self).index)
                &&& final(self).ee.capacity() == 2 * old(self).index
                &&& final(self).seq@.len() == 2 * old(self).index
                &&& all_in_unit(final(self).seq@)
                &&& separated::<T>(final(self).seq@, 2 * old(self).index)
                &&& forall|t: int|
                    0 <= t < old(self).index ==> #[trigger] diag_placed(
                        final(self).seq@,
                        t,
                        old(self).index as int,
                        old(self).grid as int,
                    )
            },
    {
        let n: usize = self.index;
        let g: u64 = self.grid;
        proof {
            lemma_grid_ok(g as int);
            assert(self.seq@.subrange(0, n as int) =~= self.seq@);
        }
        let ghost script = self.rng.script();
        let ghost tries = self.tries as nat;
        let ghost start: Growth = (true, self.seq@, self.ee.record(), self.rng.cursor());
        let mut s: usize = 0;
        while s < n
            invariant
                script == old(self).rng.script(),
                tries == old(self).tries as nat,
                start == (true, old(self).seq@, old(self).ee.record(), old(self).rng.cursor()),
                self.rng.is_scripted() ==> (
                    true,
                    self.seq@,
                    self.ee.record(),
                    self.rng.cursor(),
                ) == diag_steps::<T>(start, n as int, g as int, script, tries, s as nat),
                s <= n,
                n == g * g,
                1 <= g <= MAX_GRID,
                (UNIT as int) % (2 * g) == 0,
                self.index == n,
                self.grid == g,
                n == old(self).index,
                g == old(self).grid,
                self.tries == old(self).tries,
                self.rng.is_scripted() == old(self).rng.is_scripted(),
                self.rng.script() == old(self).rng.script(),
                self.seq@.len() == n + s,
                self.seq@.subrange(0, n as int) == old(self).seq@,
                all_in_unit(self.seq@),
                tracks(self.ee, self.seq@, n + s),
                self.ee.capacity() == 2 * n,
                self.ee.record() == replayed::<T>(self.seq@, self.seq@.len(), 2 * n),
                separated::<T>(self.seq@, 2 * n),
                forall|t: int| 0 <= t < s
                    ==> #[trigger] diag_placed(self.seq@, t, n as int, g as int),
            decreases n - s,
        {
            let ghost before = self.seq@;
            let ghost stage = diag_steps::<T>(start, n as int, g as int, script, tries, s as nat);
            let ghost next = diag_steps::<T>(
                start,
                n as int,
                g as int,
                script,
                tries,
                (s + 1) as nat,
            );
            let p: Point = self.seq[s];
            let i: u64 = cell_of(p.0, g);
            let j: u64 = cell_of(p.1, g);
            let xh: u64 = 1 - half_of(p.0, g);
            let yh: u64 = 1 - half_of(p.1, g);
            match self.place(i, j, xh, yh) {
                None => {
                    proof {
                        if self.rng.is_scripted() {
                            assert(!next.0 && next.3 == self.rng.cursor());
                            lemma_diag_failed::<T>(
                                start,
                                n as int,
                                g as int,
                                script,
                                tries,
                                (s + 1) as nat,
                                n as nat,
                            );
                        }
                    }
                    return false;
                },
                Some(q) => {
                    proof {
                        assert(self.seq@.subrange(0, n as int) =~= before.subrange(0, n as int));
                        assert forall|t: int| 0 <= t < s + 1 implies #[trigger] diag_placed(
                            self.seq@,
                            t,
                            n as int,
                            g as int,
                        ) by {
                            if t < s {
                                assert(diag_placed(before, t, n as int, g as int));
                            }
                        }
                    }
                },
            }
            s = s + 1;
        }
        true
    }

    /// The quadrant phase of growth: for each point of the tier, one in a
    /// sub-quadrant beside it, picked by a draw, and then one in the
    /// sub-quadrant that is left. `false` where the strategy gave up on the way.
    fn extend_sequence_odd(&mut self) -> (ok: bool)
        requires
            old(self).index > 0,
            old(self).seq@.len() == 2 * old(self).index,
            old(self).index == old(self).grid * old(self).grid,
            grid_ok(old(self).grid as int),
            old(self).grid <= MAX_GRID,
            all_in_unit(old(self).seq@),
            tracks(old(self).ee, old(self).seq@, 2 * old(self).index),
            old(self).ee.capacity() == 4 * old(self).index,
            old(self).ee.record() == replayed::<T>(
                old(self).seq@,
                (2 * old(self).index) as nat,
                4 * old(self).index,
            ),
            separated::<T>(old(self).seq@, 4 * old(self).index),
        ensures
            final(self).index == old(self).index,
            final(self).grid == old(self).grid,
            final(self).tries == old(self).tries,
            final(self).rng.is_scripted() == old(self).rng.is_scripted(),
            final(self).rng.script() == old(self).rng.script(),
            final(self).seq@.len() >= 2 * old(self).index,
            final(self).seq@.subrange(0, 2 * old(self).index) == old(self).seq@,
            old(self).rng.is_scripted() ==> {
                let g = quadrant_steps::<T>(
                    (true, old(self).seq@, old(self).ee.record(), old(self).rng.cursor()),
                    old(self).index as int,
                    old(self).grid as int,
                    old(self).rng.script(),
                    old(self).tries as nat,
                );
                &&& ok == g.0
                &&& final(self).rng.cursor() == g.3
                &&& ok ==> final(self).seq@ == g.1 && final(self).ee.record() == g.2
            },
            ok ==> {
                &&& final(self).ee.record() == replayed::<T>(
                    final(self).seq@,
                    (4 * old(self).index) as nat,
                    4 * old(self).index,
                )
                &&& tracks(final(self).ee, final(self).seq@, 4 * old(self).index)
                &&& final(self).ee.capacity() == 4 * old(self).index
                &&& final(self).seq@.len() == 4 * old(self).index
                &&& all_in_unit(final(self).seq@)
                &&& separated::<T>(final(self).seq@, 4 * old(self).index)
                &&& forall|t: int|
                    0 <= t < old(self).index ==> #[trigger] sides_placed(
                        final(self).seq@,
                        t,
                        old(self).index as int,
                        old(self).grid as int,
                    )
            },
    {
        let n: usize = self.index;
        let g: u64 = self.grid;
        proof {
            lemma_grid_ok(g as int);
            assert(g * g <= 268435456) by (nonlinear_arith)
                requires
                    g <= 16384,
            ;
            assert(self.seq@.subrange(0, 2 * n) =~= self.seq@);
        }
        let ghost script = self.rng.script();
        let ghost tries = self.tries as nat;
        let ghost start: Growth = (true, self.seq@, self.ee.record(), self.rng.cursor());
        let mut halfs: Vec<(u64, u64)> = Vec::new();
        let mut s: usize = 0;
        while s < n
            invariant
                script == old(self).rng.script(),
                tries == old(self).tries as nat,
                start == (true, old(self).seq@, old(self).ee.record(), old(self).rng.cursor()),
                self.rng.is_scripted() ==> (
                    true,
                    self.seq@,
                    self.ee.record(),
                    self.rng.cursor(),
                ) == side_steps::<T>(start, n as int, g as int, script, tries, s as nat),
                s <= n,
                n == g * g,
                n <= 268435456,
                1 <= g <= MAX_GRID,
                (UNIT as int) % (2 * g) == 0,
                self.index == n,
                self.grid == g,
                n == old(self).index,
                g == old(self).grid,
                self.tries == old(self).tries,
                self.rng.is_scripted() == old(self).rng.is_scripted(),
                self.rng.script() == old(self).rng.script(),
                self.seq@.len() == 2 * n + s,
                self.seq@.subrange(0, 2 * n) == old(self).seq@,
                all_in_unit(self.seq@),
                tracks(self.ee, self.seq@, 2 * n + s),
                self.ee.capacity() == 4 * n,
                self.ee.record() == replayed::<T>(self.seq@, self.seq@.len(), 4 * n),
                separated::<T>(self.seq@, 4 * n),
                halfs@.len() == s,
                forall|t: int| 0 <= t < s ==> (#[trigger] halfs@[t]).0 <= 1 && halfs@[t].1 <= 1,
                forall|t: int|
                    0 <= t < s ==> #[trigger] side_placed(
                        self.seq@,
                        t,
                        n as int,
                        g as int,
                        halfs@[t].0 as int,
                        halfs@[t].1 as int,
                    ),
            decreases n - s,
        {
            let ghost before = self.seq@;
            let ghost halfs_before = halfs@;
            let ghost next = side_steps::<T>(
                start,
                n as int,
                g as int,
                script,
                tries,
                (s + 1) as nat,
            );
            let p: Point = self.seq[s];
            let i: u64 = cell_of(p.0, g);
            let j: u64 = cell_of(p.1, g);
            let mut xh: u64 = half_of(p.0, g);
            let mut yh: u64 = half_of(p.1, g);
            let coin: u64 = self.rng.next();
            if coin > UNIT / 2 {
                xh = 1 - xh;
            } else {
                yh = 1 - yh;
            }
            match self.place(i, j, xh, yh) {
                None => {
                    proof {
                        if self.rng.is_scripted() {
                            assert(!next.0 && next.3 == self.rng.cursor());
                            lemma_side_failed::<T>(
                                start,
                                n as int,
                                g as int,
                                script,
                                tries,
                                (s + 1) as nat,
                                n as nat,
                            );
                            lemma_opposite_failed::<T>(
                                next,
                                n as int,
                                g as int,
                                script,
                                tries,
                                0,
                                n as nat,
                            );
                        }
                    }
                    return false;
                },
                Some(q) => {
                    halfs.push((xh, yh));
                    proof {
                        assert(self.seq@.subrange(0, 2 * n) =~= before.subrange(0, 2 * n));
                        assert forall|t: int| 0 <= t < s + 1 implies #[trigger] side_placed(
                            self.seq@,
                            t,
                            n as int,
                            g as int,
                            halfs@[t].0 as int,
                            halfs@[t].1 as int,
                        ) by {
                            if t < s {
                                assert(side_placed(
                                    before,
                                    t,
                                    n as int,
                                    g as int,
                                    halfs_before[t].0 as int,
                                    halfs_before[t].1 as int,
                                ));
                            }
                        }
                    }
                },
            }
            s = s + 1;
        }
        let ghost mid: Growth = (true, self.seq@, self.ee.record(), self.rng.cursor());
        let mut r: usize = 0;
        while r < n
            invariant
                script == old(self).rng.script(),
                tries == old(self).tries as nat,
                start == (true, old(self).seq@, old(self).ee.record(), old(self).rng.cursor()),
                self.rng.is_scripted() ==> mid == side_steps::<T>(
                    start,
                    n as int,
                    g as int,
                    script,
                    tries,
                    n as nat,
                ),
                self.rng.is_scripted() ==> (
                    true,
                    self.seq@,
                    self.ee.record(),
                    self.rng.cursor(),
                ) == opposite_steps::<T>(mid, n as int, g as int, script, tries, r as nat),
                r <= n,
                n == g * g,
                n <= 268435456,
                1 <= g <= MAX_GRID,
                (UNIT as int) % (2 * g) == 0,
                self.index == n,
                self.grid == g,
                n == old(self).index,
                g == old(self).grid,
                self.tries == old(self).tries,
                self.rng.is_scripted() == old(self).rng.is_scripted(),
                self.rng.script() == old(self).rng.script(),
                self.seq@.len() == 3 * n + r,
                self.seq@.subrange(0, 2 * n) == old(self).seq@,
                all_in_unit(self.seq@),
                tracks(self.ee, self.seq@, 3 * n + r),
                self.ee.capacity() == 4 * n,
                self.ee.record() == replayed::<T>(self.seq@, self.seq@.len(), 4 * n),
                separated::<T>(self.seq@, 4 * n),
                halfs@.len() == n,
                forall|t: int| 0 <= t < n ==> (#[trigger] halfs@[t]).0 <= 1 && halfs@[t].1 <= 1,
                forall|t: int|
                    0 <= t < n ==> #[trigger] side_placed(
                        self.seq@,
                        t,
                        n as int,
                        g as int,
                        halfs@[t].0 as int,
                        halfs@[t].1 as int,
                    ),
                forall|t: int|
                    0 <= t < r ==> #[trigger] opposite_placed(
                        self.seq@,
                        t,
                        n as int,
                        g as int,
                        halfs@[t].0 as int,
                        halfs@[t].1 as int,
                    ),
            decreases n - r,
        {
            let ghost before = self.seq@;
            let p: Point = self.seq[r];
            let i: u64 = cell_of(p.0, g);
            let j: u64 = cell_of(p.1, g);
            let ghost next = opposite_steps::<T>(
                mid,
                n as int,
                g as int,
                script,
                tries,
                (r + 1) as nat,
            );
            let h: (u64, u64) = halfs[r];
            assert(side_placed(before, r as int, n as int, g as int, h.0 as int, h.1 as int));
            proof {
                lemma_cell_coarser(before[2 * n + r].0 as int, g as int);
                lemma_cell_coarser(before[2 * n + r].1 as int, g as int);
                lemma_cell_coarser(p.0 as int, g as int);
                lemma_cell_coarser(p.1 as int, g as int);
            }
            let xh: u64 = 1 - h.0;
            let yh: u64 = 1 - h.1;
            match self.place(i, j, xh, yh) {
                None => {
                    proof {
                        if self.rng.is_scripted() {
                            assert(!next.0 && next.3 == self.rng.cursor());
                            lemma_opposite_failed::<T>(
                                mid,
                                n as int,
                                g as int,
                                script,
                                tries,
                                (r + 1) as nat,
                                n as nat,
                            );
                        }
                    }
                    return false;
                },
                Some(q) => {
                    proof {
                        assert(self.seq@.subrange(0, 2 * n) =~= before.subrange(0, 2 * n));
                        assert forall|t: int| 0 <= t < n implies #[trigger] side_placed(
                            self.seq@,
                            t,
                            n as int,
                            g as int,
                            halfs@[t].0 as int,
                            halfs@[t].1 as int,
                        ) by {
                            assert(side_placed(
                                before,
                                t,
                                n as int,
                                g as int,
                                halfs@[t].0 as int,
                                halfs@[t].1 as int,
                            ));
                        }
                        assert forall|t: int| 0 <= t < r + 1 implies #[trigger] opposite_placed(
                            self.seq@,
                            t,
                            n as int,
                            g as int,
                            halfs@[t].0 as int,
                            halfs@[t].1 as int,
                        ) by {
                            if t < r {
                                assert(opposite_placed(
                                    before,
                                    t,
                                    n as int,
                                    g as int,
                                    halfs@[t].0 as int,
                                    halfs@[t].1 as int,
                                ));
                            }
                        }
                    }
                },
            }
            r = r + 1;
        }
        proof {
            assert forall|t: int| 0 <= t < n implies #[trigger] sides_placed(
                self.seq@,
                t,
                n as int,
                g as int,
            ) by {
                assert(side_placed(
                    self.seq@,
                    t,
                    n as int,
                    g as int,
                    halfs@[t].0 as int,
                    halfs@[t].1 as int,
                ));
                assert(opposite_placed(
                    self.seq@,
                    t,
                    n as int,
                    g as int,
                    halfs@[t].0 as int,
                    halfs@[t].1 as int,
                ));
            }
        }
        true
    }

    /// Quadruples a used-up tier in two phases, each on a record rebuilt for
    /// its capacity. `false`, with the sequence as it was, where the strategy
    /// gave up on the way.
    fn grow(&mut self) -> (ok: bool)
        requires
            old(self).tier_ok(),
            old(self).tier_used_up(),
            old(self).grid <= MAX_GRID,
        ensures
            final(self).tier_ok(),
            final(self).index == old(self).index,
            final(self).tries == old(self).tries,
            final(self).rng.is_scripted() == old(self).rng.is_scripted(),
            final(self).rng.script() == old(self).rng.script(),
            !ok ==> final(self).seq@ == old(self).seq@ && final(self).grid == old(self).grid,
            old(self).rng.is_scripted() ==> {
                let g = grown::<T>(
                    old(self).seq@,
                    old(self).grid as int,
                    old(self).rng.script(),
                    old(self).rng.cursor(),
                    old(self).tries as nat,
                );
                &&& ok == g.0
                &&& final(self).rng.cursor() == g.3
                &&& ok ==> final(self).seq@ == g.1
            },
            ok ==> {
                &&& final(self).ee.record() == replayed::<T>(
                    final(self).seq@,
                    final(self).seq@.len(),
                    final(self).seq@.len() as int,
                )
                &&& final(self).grid == 2 * old(self).grid
                &&& final(self).seq@.len() == 4 * old(self).seq@.len()
                &&& final(self).seq@.subrange(0, old(self).index as int) == old(self).seq@
                &&& forall|t: int|
                    0 <= t < old(self).index ==> #[trigger] quad_placed(
                        final(self).seq@,
                        t,
                        old(self).index as int,
                        old(self).grid as int,
                    )
            },
    {
        let n: usize = self.index;
        let g: u64 = self.grid;
        proof {
            lemma_grid_ok(g as int);
            lemma_growth_capacities(g as int);
            assert(g * g <= 268435456) by (nonlinear_arith)
                requires
                    g <= 16384,
            ;
        }
        self.replay(n, 2 * n);
        proof {
            assert forall|a: int, b: int| 0 <= a < b < self.seq@.len() implies !T::collide(
                2 * n,
                #[trigger] self.seq@[a],
                #[trigger] self.seq@[b],
            ) by {
                if T::collide(2 * n, self.seq@[a], self.seq@[b]) {
                    T::lemma_collide_coarser(n as int, self.seq@[a], self.seq@[b]);
                }
            }
        }
        if !self.extend_sequence_even() {
            self.seq.truncate(n);
            return false;
        }
        let ghost mid = self.seq@;
        self.replay(2 * n, 4 * n);
        proof {
            assert forall|a: int, b: int| 0 <= a < b < self.seq@.len() implies !T::collide(
                4 * n,
                #[trigger] self.seq@[a],
                #[trigger] self.seq@[b],
            ) by {
                if T::collide(4 * n, self.seq@[a], self.seq@[b]) {
                    T::lemma_collide_coarser(2 * n, self.seq@[a], self.seq@[b]);
                }
            }
        }
        if !self.extend_sequence_odd() {
            proof {
                assert(self.seq@.subrange(0, n as int) =~= mid.subrange(0, n as int));
            }
            self.seq.truncate(n);
            return false;
        }
        self.grid = 2 * g;
        proof {
            let now = self.seq@;
            assert(now.subrange(0, n as int) =~= mid.subrange(0, n as int));
            assert forall|t: int| 0 <= t < n implies #[trigger] quad_placed(
                now,
                t,
                n as int,
                g as int,
            ) by {
                assert(diag_placed(mid, t, n as int, g as int));
                assert(sides_placed(now, t, n as int, g as int));
                assert(now.subrange(0, 2 * n)[t] == now[t]);
                assert(now.subrange(0, 2 * n)[n + t] == now[n + t]);
            }
            lemma_quads_stratified(now, n as int, g as int);
            assert((2 * g) * (2 * g) == 4 * (g * g)) by (nonlinear_arith);
        }
        true
    }
}

impl<T: ElementaryElement + Default> MultiJittered<T> {
    /// At every completed tier, every cell of the tier's grid holds exactly
    /// one point of the sequence, whatever the strategy.
    pub proof fn lemma_one_point_per_cell(self, cx: int, cy: int)
        requires
            self.wf(),
            self.cursor() > 0,
            0 <= cx < self.grid(),
            0 <= cy < self.grid(),
        ensures
            exists|s: int|
                0 <= s < self.points().len() && cell(self.points()[s].0 as int, self.grid()) == cx
                    && cell(self.points()[s].1 as int, self.grid()) == cy,
            forall|a: int, b: int|
                0 <= a < self.points().len() && 0 <= b < self.points().len() && same_cell(
                    self.points()[a],
                    self.points()[b],
                    self.grid(),
                ) ==> a == b,
    {
        lemma_stratified_fills_grid(self.points(), self.grid(), cx, cy);
    }
}

impl MultiJittered<HVElementaryElement> {
    /// The Latin square: at every completed tier of `m` points, each of the
    /// `m` slices along x holds exactly one point, and so does each of the `m`
    /// slices along y.
    pub proof fn lemma_one_point_per_slice(self, c: int)
        requires
            self.wf(),
            0 <= c < self.points().len(),
        ensures
            exists|s: int|
                0 <= s < self.points().len() && cell(
                    self.points()[s].0 as int,
                    self.points().len() as int,
                ) == c,
            exists|s: int|
                0 <= s < self.points().len() && cell(
                    self.points()[s].1 as int,
                    self.points().len() as int,
                ) == c,
            forall|a: int, b: int|
                0 <= a < self.points().len() && 0 <= b < self.points().len() && a != b ==> cell(
                    self.points()[a].0 as int,
                    self.points().len() as int,
                ) != cell(self.points()[b].0 as int, self.points().len() as int) && cell(
                    self.points()[a].1 as int,
                    self.points().len() as int,
                ) != cell(self.points()[b].1 as int, self.points().len() as int),
    {
        assert(latin(self.points(), self.points().len() as int));
        HVElementaryElement::lemma_one_point_per_slice(self.points(), c);
    }
}

impl MultiJittered<ElementaryElement02> {
    /// The elementary intervals: at every completed tier of `2^bits` points,
    /// for every shape of `2^(bits - a)` columns and `2^a` rows, every box
    /// holds exactly one point.
    pub proof fn lemma_one_point_per_box(self, bits: nat, a: nat, cx: int, cy: int)
        requires
            self.wf(),
            bits <= 30,
            self.points().len() == two_pow(bits),
            a <= bits,
            0 <= cx < two_pow((bits - a) as nat),
            0 <= cy < two_pow(a),
        ensures
            exists|s: int|
                0 <= s < self.points().len() && cell(
                    self.points()[s].0 as int,
                    two_pow((bits - a) as nat),
                ) == cx && cell(self.points()[s].1 as int, two_pow(a)) == cy,
            forall|s: int, t: int|
                0 <= s < self.points().len() && 0 <= t < self.points().len() && same_box(
                    self.points()[s],
                    self.points()[t],
                    two_pow((bits - a) as nat),
                    two_pow(a),
                ) ==> s == t,
    {
        lemma_two_pow_mono(0, bits);
        assert(boxed(self.points(), self.points().len() as int));
        ElementaryElement02::lemma_one_point_per_box(self.points(), bits, a, cx, cy);
    }
}

impl<T: ElementaryElement + Default> Default for MultiJittered<T> {
    /// A generator on the thread-local random source, with an empty record.
    fn default() -> (g: Self)
        ensures
            g.wf(),
            !g.source().is_scripted(),
            g.cursor() == 0,
            g.points() == Seq::<Point>::empty(),
            g.grid() == 1,
            g.retry_limit() == u64::MAX,
    {
        MultiJittered {
            rng: DrawSource::thread(),
            seq: Vec::new(),
            index: 0,
            grid: 1,
            ee: T::default(),
            tries: u64::MAX,
        }
    }
}

impl<T: ElementaryElement + Default> Generator for MultiJittered<T> {
    open spec fn wf(&self) -> bool {
        self.tier_ok()
    }

    /// The next point of the sequence. The first call draws it; a later
    /// call reads it from the tier, which is quadrupled first where it is used
    /// up. `None` comes only where the tier is used up, and then nothing that
    /// was stored changes: always where the next tier would pass the largest
    /// grid, else where the strategy gave up. What was handed out before stays
    /// as it was.
    fn generate(&mut self) -> (r: Option<Point>)
        ensures
            r is None ==> old(self).tier_used_up() && final(self).points() == old(self).points()
                && final(self).cursor() == old(self).cursor()
                    && final(self).grid() == old(self).grid(),
            !old(self).tier_used_up() ==> r is Some,
            old(self).tier_used_up() && old(self).grid() > MAX_GRID ==> r is None
                && final(self).source() == old(self).source(),
            r is Some ==> final(self).emitted() == old(self).emitted().push(r->Some_0),
            r is Some ==> final(self).cursor() == old(self).cursor() + 1,
            old(self).source().is_scripted() ==> Self::step_on_script(*old(self), *final(self), r),
            final(self).retry_limit() == old(self).retry_limit(),
            final(self).source().is_scripted() == old(self).source().is_scripted(),
            final(self).source().script() == old(self).source().script(),
            old(self).cursor() == 0 ==> final(self).points() == seq![r->Some_0]
                && final(self).grid() == 1,
            0 < old(self).cursor() < old(self).points().len()
                ==> final(self).points() == old(self).points()
                && final(self).grid() == old(self).grid()
                && final(self).source() == old(self).source(),
            r is Some && old(self).tier_used_up() ==> {
                &&& final(self).grid() == 2 * old(self).grid()
                &&& final(self).points().len() == 4 * old(self).points().len()
                &&& final(self).points().subrange(0, old(self).cursor()) == old(self).points()
                &&& forall|t: int|
                    0 <= t < old(self).cursor() ==> #[trigger] quad_placed(
                        final(self).points(),
                        t,
                        old(self).cursor(),
                        old(self).grid(),
                    )
            },
    {
        if self.index == 0 {
            let x: u64 = self.rng.next();
            let y: u64 = self.rng.next();
            self.seq.push((x, y));
            self.index = 1;
            self.grid = 1;
            proof {
                assert(self.seq@ =~= seq![(x, y)]);
                assert(grid_ok(1)) by {
                    assert(crate::fixed::two_pow(0) == 1);
                }
                assert(self.emitted() =~= old(self).emitted().push((x, y)));
            }
            Some((x, y))
        } else {
            if self.index == self.seq.len() {
                if self.grid > MAX_GRID {
                    return None;
                }
                if !self.grow() {
                    return None;
                }
            }
            proof {
                lemma_grid_ok(self.grid as int);
            }
            let p: Point = self.seq[self.index];
            self.index = self.index + 1;
            proof {
                assert(in_unit(self.seq@[self.index - 1]));
                assert(self.emitted() =~= old(self).emitted().push(p)) by {
                    assert(self.seq@.subrange(0, old(self).index as int) =~= old(self).seq@.subrange(0, old(self).index as int));
                }
            }
            Some(p)
        }
    }
}

} // verus!
