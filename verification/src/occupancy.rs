//! Occupancy strategies: which places of a growing grid are already claimed.
use vstd::prelude::*;
use crate::counting::lemma_injective_is_onto;
use crate::fixed::{
    capacity_ok, cell, cell_of, in_unit, jitter_coord, lemma_capacity_ok, lemma_cell_bound,
    lemma_cell_coarser, placed, Point, UNIT,
};
use crate::fixed::jitter;
use crate::jittered::generate_point;
use crate::source::{script_advance, script_draw, DrawSource};

verus! {

/// A strategy that records the places claimed by the points of a sequence
/// and draws new points away from them.
pub trait ElementaryElement {
    /// The record is consistent and sized for a capacity.
    spec fn wf(&self) -> bool;

    /// The number of points that the record is sized for.
    spec fn capacity(&self) -> int;

    /// A place that `p` would take is already claimed.
    spec fn claimed(&self, p: Point) -> bool;

    /// At `capacity`, `p` and `q` would take a common place.
    spec fn collide(capacity: int, p: Point, q: Point) -> bool;

    /// The record as plain values: rows of marks.
    spec fn record(&self) -> Seq<Seq<bool>>;

    /// The record without a claim, sized for `capacity`.
    spec fn fresh(capacity: int) -> Seq<Seq<bool>>;

    /// The record after `p` has claimed its places.
    spec fn marked(record: Seq<Seq<bool>>, capacity: int, p: Point) -> Seq<Seq<bool>>;

    /// What `generate` yields on a script that stands at `cursor`, and where
    /// it leaves the script.
    spec fn pick(
        record: Seq<Seq<bool>>,
        capacity: int,
        i: int,
        j: int,
        xhalf: int,
        yhalf: int,
        grid: int,
        script: Seq<u64>,
        cursor: int,
        tries: nat,
    ) -> (Option<Point>, int);

    /// Empties the record and sizes it for `expected_size` points.
    fn reinitialize(&mut self, expected_size: usize)
        requires
            capacity_ok(expected_size as int),
        ensures
            final(self).wf(),
            final(self).capacity() == expected_size,
            final(self).record() == Self::fresh(expected_size as int),
            forall|q: Point| in_unit(q) ==> !#[trigger] final(self).claimed(q),
    ;

    /// Claims the places of `p`.
    fn update(&mut self, p: Point)
        requires
            old(self).wf(),
            in_unit(p),
        ensures
            final(self).wf(),
            final(self).capacity() == old(self).capacity(),
            final(self).record() == Self::marked(old(self).record(), old(self).capacity(), p),
            forall|q: Point|
                in_unit(q) ==> (#[trigger] final(self).claimed(q) <==> (old(self).claimed(q)
                    || Self::collide(old(self).capacity(), p, q))),
    ;

    /// Draws candidates in the sub-quadrant `(xhalf, yhalf)` of the cell
    /// `(i, j)` of a `grid` by `grid` grid until one takes no claimed place,
    /// and returns it; `None` once `tries` candidates in a row were turned
    /// down. The record does not change.
    fn generate(
        &self,
        i: u64,
        j: u64,
        xhalf: u64,
        yhalf: u64,
        grid: u64,
        rng: &mut DrawSource,
        tries: u64,
    ) -> (r: Option<Point>)
        requires
            self.wf(),
            i < grid,
            j < grid,
            xhalf <= 1,
            yhalf <= 1,
            grid <= 32768,
            (UNIT as int) % (2 * grid) == 0,
        ensures
            tries == 0 ==> r is None,
            r is Some ==> placed(
                r->Some_0,
                i as int,
                j as int,
                xhalf as int,
                yhalf as int,
                grid as int,
            ) && !self.claimed(r->Some_0),
            final(rng).is_scripted() == old(rng).is_scripted(),
            final(rng).script() == old(rng).script(),
            old(rng).is_scripted() ==> {
                let found = Self::pick(
                    self.record(),
                    self.capacity(),
                    i as int,
                    j as int,
                    xhalf as int,
                    yhalf as int,
                    grid as int,
                    old(rng).script(),
                    old(rng).cursor(),
                    tries as nat,
                );
                r == found.0 && final(rng).cursor() == found.1
            },
    ;

    /// Points that collide at twice a capacity collide at the capacity.
    proof fn lemma_collide_coarser(capacity: int, p: Point, q: Point)
        requires
            capacity_ok(capacity),
            capacity_ok(2 * capacity),
            in_unit(p),
            in_unit(q),
            Self::collide(2 * capacity, p, q),
        ensures
            Self::collide(capacity, p, q),
    ;
}

/// Tracks the slices of each axis: `capacity` slices along x and as many
/// along y. A point claims the x slice and the y slice that hold it.
pub struct HVElementaryElement {
    x_slice: Vec<bool>,
    y_slice: Vec<bool>,
    nn: usize,
}

/// What rejection sampling along one axis yields on a script, and where it
/// leaves the script: the first of at most `tries` candidates, one draw
/// each, whose slice is not marked in `slices`.
pub open spec fn first_free_slice(
    slices: Seq<bool>,
    capacity: int,
    i: int,
    h: int,
    grid: int,
    script: Seq<u64>,
    cursor: int,
    tries: nat,
) -> (Option<int>, int)
    decreases tries,
{
    if tries == 0 {
        (None, cursor)
    } else {
        let v = jitter(i, h, script_draw(script, cursor), grid);
        if !slices[cell(v, capacity)] {
            (Some(v), script_advance(script, cursor))
        } else {
            first_free_slice(
                slices,
                capacity,
                i,
                h,
                grid,
                script,
                script_advance(script, cursor),
                (tries - 1) as nat,
            )
        }
    }
}

/// What rejection sampling of points yields on a script, and where it leaves
/// the script: the first of at most `tries` candidates, two draws each, x
/// then y, of which neither the x slice nor the y slice is marked. A
/// candidate is turned down as a whole: both of its draws are dropped.
pub open spec fn first_free_pair(
    record: Seq<Seq<bool>>,
    capacity: int,
    i: int,
    j: int,
    xh: int,
    yh: int,
    grid: int,
    script: Seq<u64>,
    cursor: int,
    tries: nat,
) -> (Option<Point>, int)
    decreases tries,
{
    if tries == 0 {
        (None, cursor)
    } else {
        let second = script_advance(script, cursor);
        let x = jitter(i, xh, script_draw(script, cursor), grid);
        let y = jitter(j, yh, script_draw(script, second), grid);
        if !record[0][cell(x, capacity)] && !record[1][cell(y, capacity)] {
            (Some((x as u64, y as u64)), script_advance(script, second))
        } else {
            first_free_pair(
                record,
                capacity,
                i,
                j,
                xh,
                yh,
                grid,
                script,
                script_advance(script, second),
                (tries - 1) as nat,
            )
        }
    }
}

/// No two of `points` share an x slice or a y slice among `m` slices.
pub open spec fn latin(points: Seq<Point>, m: int) -> bool {
    forall|a: int, b: int|
        0 <= a < b < points.len() ==> !HVElementaryElement::collide(
            m,
            #[trigger] points[a],
            #[trigger] points[b],
        )
}

impl HVElementaryElement {
    /// The x slice `c` is claimed.
    pub open spec fn x_taken(&self, c: int) -> bool {
        self.record()[0][c]
    }

    /// The y slice `c` is claimed.
    pub open spec fn y_taken(&self, c: int) -> bool {
        self.record()[1][c]
    }

    /// What a consistent record looks like: its capacity is a power of two,
    /// and it holds one row of marks for x and one for y, each as long as the
    /// capacity.
    pub proof fn lemma_record_shape(&self)
        requires
            self.wf(),
        ensures
            capacity_ok(self.capacity()),
            self.capacity() >= 1,
            self.record().len() == 2,
            self.record()[0].len() == self.capacity(),
            self.record()[1].len() == self.capacity(),
    {
        lemma_capacity_ok(self.capacity());
    }

    /// Whether the x slice of the coordinate `v` is claimed.
    pub fn valid_x(&self, v: u64) -> (r: bool)
        requires
            self.wf(),
            v < UNIT,
        ensures
            r == self.x_taken(cell(v as int, self.capacity())),
    {
        proof {
            lemma_capacity_ok(self.nn as int);
        }
        let c: u64 = cell_of(v, self.nn as u64);
        self.x_slice[c as usize]
    }

    /// Whether the y slice of the coordinate `v` is claimed.
    pub fn valid_y(&self, v: u64) -> (r: bool)
        requires
            self.wf(),
            v < UNIT,
        ensures
            r == self.y_taken(cell(v as int, self.capacity())),
    {
        proof {
            lemma_capacity_ok(self.nn as int);
        }
        let c: u64 = cell_of(v, self.nn as u64);
        self.y_slice[c as usize]
    }

    /// Draws x coordinates in half `xhalf` of column `i` until one lies in a
    /// free x slice; `None` once `tries` draws were turned down. This looks at
    /// one axis alone; `generate` turns down whole points instead.
    pub fn generate_x(&self, i: u64, xhalf: u64, grid: u64, rng: &mut DrawSource, tries: u64) -> (r:
        Option<u64>)
        requires
            self.wf(),
            i < grid,
            xhalf <= 1,
            grid <= 32768,
            (UNIT as int) % (2 * grid) == 0,
        ensures
            tries == 0 ==> r is None,
            r is Some ==> r->Some_0 < UNIT && cell(r->Some_0 as int, 2 * grid) == 2 * i + xhalf
                && !self.x_taken(cell(r->Some_0 as int, self.capacity())),
            final(rng).is_scripted() == old(rng).is_scripted(),
            final(rng).script() == old(rng).script(),
            old(rng).is_scripted() ==> {
                let found = first_free_slice(
                    self.record()[0],
                    self.capacity(),
                    i as int,
                    xhalf as int,
                    grid as int,
                    old(rng).script(),
                    old(rng).cursor(),
                    tries as nat,
                );
                &&& final(rng).cursor() == found.1
                &&& r is Some <==> found.0 is Some
                &&& r is Some ==> r->Some_0 == found.0->Some_0
            },
    {
        let mut left: u64 = tries;
        while left > 0
            invariant
                left <= tries,
                rng.is_scripted() ==> first_free_slice(
                    self.record()[0],
                    self.capacity(),
                    i as int,
                    xhalf as int,
                    grid as int,
                    old(rng).script(),
                    old(rng).cursor(),
                    tries as nat,
                ) == first_free_slice(
                    self.record()[0],
                    self.capacity(),
                    i as int,
                    xhalf as int,
                    grid as int,
                    rng.script(),
                    rng.cursor(),
                    left as nat,
                ),
                self.wf(),
                i < grid,
                xhalf <= 1,
                grid <= 32768,
                (UNIT as int) % (2 * grid) == 0,
                rng.is_scripted() == old(rng).is_scripted(),
                rng.script() == old(rng).script(),
            decreases left,
        {
            let d: u64 = rng.next();
            let v: u64 = jitter_coord(i, xhalf, d, grid);
            if !self.valid_x(v) {
                return Some(v);
            }
            left = left - 1;
        }
        None
    }

    /// Draws y coordinates in half `yhalf` of row `j` until one lies in a
    /// free y slice; `None` once `tries` draws were turned down. This looks at
    /// one axis alone; `generate` turns down whole points instead.
    pub fn generate_y(&self, j: u64, yhalf: u64, grid: u64, rng: &mut DrawSource, tries: u64) -> (r:
        Option<u64>)
        requires
            self.wf(),
            j < grid,
            yhalf <= 1,
            grid <= 32768,
            (UNIT as int) % (2 * grid) == 0,
        ensures
            tries == 0 ==> r is None,
            r is Some ==> r->Some_0 < UNIT && cell(r->Some_0 as int, 2 * grid) == 2 * j + yhalf
                && !self.y_taken(cell(r->Some_0 as int, self.capacity())),
            final(rng).is_scripted() == old(rng).is_scripted(),
            final(rng).script() == old(rng).script(),
            old(rng).is_scripted() ==> {
                let found = first_free_slice(
                    self.record()[1],
                    self.capacity(),
                    j as int,
                    yhalf as int,
                    grid as int,
                    old(rng).script(),
                    old(rng).cursor(),
                    tries as nat,
                );
                &&& final(rng).cursor() == found.1
                &&& r is Some <==> found.0 is Some
                &&& r is Some ==> r->Some_0 == found.0->Some_0
            },
    {
        let mut left: u64 = tries;
        while left > 0
            invariant
                left <= tries,
                rng.is_scripted() ==> first_free_slice(
                    self.record()[1],
                    self.capacity(),
                    j as int,
                    yhalf as int,
                    grid as int,
                    old(rng).script(),
                    old(rng).cursor(),
                    tries as nat,
                ) == first_free_slice(
                    self.record()[1],
                    self.capacity(),
                    j as int,
                    yhalf as int,
                    grid as int,
                    rng.script(),
                    rng.cursor(),
                    left as nat,
                ),
                self.wf(),
                j < grid,
                yhalf <= 1,
                grid <= 32768,
                (UNIT as int) % (2 * grid) == 0,
                rng.is_scripted() == old(rng).is_scripted(),
                rng.script() == old(rng).script(),
            decreases left,
        {
            let d: u64 = rng.next();
            let v: u64 = jitter_coord(j, yhalf, d, grid);
            if !self.valid_y(v) {
                return Some(v);
            }
            left = left - 1;
        }
        None
    }

    /// Among `m` points of which no two share a slice, every x slice and
    /// every y slice of the `m` holds exactly one point.
    pub proof fn lemma_one_point_per_slice(points: Seq<Point>, c: int)
        requires
            points.len() > 0,
            forall|s: int| 0 <= s < points.len() ==> in_unit(#[trigger] points[s]),
            latin(points, points.len() as int),
            0 <= c < points.len(),
        ensures
            exists|s: int| 0 <= s < points.len()
                && cell(points[s].0 as int, points.len() as int) == c,
            exists|s: int| 0 <= s < points.len()
                && cell(points[s].1 as int, points.len() as int) == c,
            forall|a: int, b: int|
                0 <= a < points.len() && 0 <= b < points.len() && a != b ==> cell(
                    points[a].0 as int,
                    points.len() as int,
                ) != cell(points[b].0 as int, points.len() as int) && cell(
                    points[a].1 as int,
                    points.len() as int,
                ) != cell(points[b].1 as int, points.len() as int),
    {
        let m = points.len() as int;
        let fx = Seq::new(points.len(), |s: int| cell(points[s].0 as int, m));
        let fy = Seq::new(points.len(), |s: int| cell(points[s].1 as int, m));
        assert forall|s: int| 0 <= s < m implies 0 <= #[trigger] fx[s] < m by {
            assert(in_unit(points[s]));
            lemma_cell_bound(points[s].0 as int, m);
        }
        assert forall|s: int| 0 <= s < m implies 0 <= #[trigger] fy[s] < m by {
            assert(in_unit(points[s]));
            lemma_cell_bound(points[s].1 as int, m);
        }
        assert forall|a: int, b: int| 0 <= a < b < m implies fx[a] != fx[b] && fy[a] != fy[b] by {
            assert(!HVElementaryElement::collide(m, points[a], points[b]));
        }
        lemma_injective_is_onto(fx, c);
        lemma_injective_is_onto(fy, c);
        let sx = choose|i: int| 0 <= i < fx.len() && fx[i] == c;
        assert(cell(points[sx].0 as int, m) == c);
        let sy = choose|i: int| 0 <= i < fy.len() && fy[i] == c;
        assert(cell(points[sy].1 as int, m) == c);
        assert forall|a: int, b: int| 0 <= a < m && 0 <= b < m && a != b implies cell(
            points[a].0 as int,
            m,
        ) != cell(points[b].0 as int, m) && cell(points[a].1 as int, m) != cell(
            points[b].1 as int,
            m,
        ) by {
            if a < b {
                assert(!HVElementaryElement::collide(m, points[a], points[b]));
            } else {
                assert(!HVElementaryElement::collide(m, points[b], points[a]));
            }
        }
    }
}

impl Default for HVElementaryElement {
    /// An empty record, to be sized by `reinitialize`.
    fn default() -> (e: HVElementaryElement)
        ensures
            e.capacity() == 0,
    {
        HVElementaryElement { x_slice: Vec::new(), y_slice: Vec::new(), nn: 0 }
    }
}

impl ElementaryElement for HVElementaryElement {
    closed spec fn wf(&self) -> bool {
        &&& capacity_ok(self.nn as int)
        &&& self.x_slice@.len() == self.nn
        &&& self.y_slice@.len() == self.nn
    }

    closed spec fn capacity(&self) -> int {
        self.nn as int
    }

    open spec fn claimed(&self, p: Point) -> bool {
        self.x_taken(cell(p.0 as int, self.capacity())) || self.y_taken(
            cell(p.1 as int, self.capacity()),
        )
    }

    open spec fn collide(capacity: int, p: Point, q: Point) -> bool {
        cell(p.0 as int, capacity) == cell(q.0 as int, capacity) || cell(p.1 as int, capacity)
            == cell(q.1 as int, capacity)
    }

    closed spec fn record(&self) -> Seq<Seq<bool>> {
        seq![self.x_slice@, self.y_slice@]
    }

    open spec fn fresh(capacity: int) -> Seq<Seq<bool>> {
        seq![Seq::new(capacity as nat, |c: int| false), Seq::new(capacity as nat, |c: int| false)]
    }

    open spec fn marked(record: Seq<Seq<bool>>, capacity: int, p: Point) -> Seq<Seq<bool>> {
        seq![
            record[0].update(cell(p.0 as int, capacity), true),
            record[1].update(cell(p.1 as int, capacity), true),
        ]
    }

    open spec fn pick(
        record: Seq<Seq<bool>>,
        capacity: int,
        i: int,
        j: int,
        xhalf: int,
        yhalf: int,
        grid: int,
        script: Seq<u64>,
        cursor: int,
        tries: nat,
    ) -> (Option<Point>, int) {
        first_free_pair(record, capacity, i, j, xhalf, yhalf, grid, script, cursor, tries)
    }

    fn reinitialize(&mut self, expected_size: usize) {
        self.nn = expected_size;
        self.x_slice = vec![false; expected_size];
        self.y_slice = vec![false; expected_size];
        proof {
            lemma_capacity_ok(expected_size as int);
            assert(self.record() =~~= Self::fresh(expected_size as int));
            assert forall|q: Point| in_unit(q) implies !#[trigger] self.claimed(q) by {
                lemma_cell_bound(q.0 as int, expected_size as int);
                lemma_cell_bound(q.1 as int, expected_size as int);
            }
        }
    }

    fn update(&mut self, p: Point) {
        proof {
            lemma_capacity_ok(self.nn as int);
            lemma_cell_bound(p.0 as int, self.nn as int);
            lemma_cell_bound(p.1 as int, self.nn as int);
        }
        let cx: u64 = cell_of(p.0, self.nn as u64);
        let cy: u64 = cell_of(p.1, self.nn as u64);
        self.x_slice.set(cx as usize, true);
        self.y_slice.set(cy as usize, true);
        proof {
            assert(self.record() =~~= Self::marked(old(self).record(), old(self).capacity(), p));
            assert forall|q: Point| in_unit(q) implies (#[trigger] self.claimed(q)
                <==> (old(self).claimed(q) || Self::collide(old(self).capacity(), p, q))) by {
                lemma_cell_bound(q.0 as int, self.nn as int);
                lemma_cell_bound(q.1 as int, self.nn as int);
            }
        }
    }

    fn generate(
        &self,
        i: u64,
        j: u64,
        xhalf: u64,
        yhalf: u64,
        grid: u64,
        rng: &mut DrawSource,
        tries: u64,
    ) -> (r: Option<Point>) {
        let mut left: u64 = tries;
        while left > 0
            invariant
                left <= tries,
                rng.is_scripted() ==> first_free_pair(
                    self.record(),
                    self.capacity(),
                    i as int,
                    j as int,
                    xhalf as int,
                    yhalf as int,
                    grid as int,
                    old(rng).script(),
                    old(rng).cursor(),
                    tries as nat,
                ) == first_free_pair(
                    self.record(),
                    self.capacity(),
                    i as int,
                    j as int,
                    xhalf as int,
                    yhalf as int,
                    grid as int,
                    rng.script(),
                    rng.cursor(),
                    left as nat,
                ),
                self.wf(),
                i < grid,
                j < grid,
                xhalf <= 1,
                yhalf <= 1,
                grid <= 32768,
                (UNIT as int) % (2 * grid) == 0,
                rng.is_scripted() == old(rng).is_scripted(),
                rng.script() == old(rng).script(),
            decreases left,
        {
            let q: Point = generate_point(rng, i, j, xhalf, yhalf, grid);
            if !self.valid_x(q.0) && !self.valid_y(q.1) {
                return Some(q);
            }
            left = left - 1;
        }
        None
    }

    proof fn lemma_collide_coarser(capacity: int, p: Point, q: Point) {
        lemma_capacity_ok(capacity);
        lemma_cell_coarser(p.0 as int, capacity);
        lemma_cell_coarser(p.1 as int, capacity);
        lemma_cell_coarser(q.0 as int, capacity);
        lemma_cell_coarser(q.1 as int, capacity);
    }
}

} // verus!
