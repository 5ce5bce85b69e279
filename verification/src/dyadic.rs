//! The occupancy strategy of the (0,2)-sequence: one grid for every way of
//! cutting the unit square into boxes by powers of two.
use vstd::prelude::*;
use crate::counting::{lemma_injective_is_onto, lemma_row_index, lemma_row_index_bound};
use crate::fixed::{
    capacity_ok, cell, cell_of, in_unit, lemma_capacity_ok, lemma_cell_bound, lemma_cell_coarser,
    lemma_two_pow_add, lemma_two_pow_mono, lemma_two_pow_values, two_pow, Point, UNIT,
};
use crate::jittered::generate_point;
use crate::occupancy::ElementaryElement;
use crate::fixed::jitter;
use crate::source::{script_advance, script_draw, DrawSource};

verus! {

/// The number of times `c` can be halved before it reaches 1.
pub open spec fn log2(c: int) -> nat
    decreases c,
{
    if c <= 1 {
        0
    } else {
        1 + log2(c / 2)
    }
}

/// `p` and `q` lie in the same box when the unit square is cut into `xs`
/// columns and `ys` rows.
pub open spec fn same_box(p: Point, q: Point, xs: int, ys: int) -> bool {
    cell(p.0 as int, xs) == cell(q.0 as int, xs) && cell(p.1 as int, ys) == cell(q.1 as int, ys)
}

/// `p` and `q` lie in the same box of shape `a` at `capacity`: the shape
/// with `2^a` rows and `capacity / 2^a` columns.
pub open spec fn collide_at(capacity: int, p: Point, q: Point, a: int) -> bool {
    same_box(p, q, two_pow((log2(capacity) - a) as nat), two_pow(a as nat))
}

/// The index of the box of `q` in shape `a`, row after row, at capacity `2^bits`.
pub open spec fn shape_index(q: Point, bits: int, a: int) -> int {
    cell(q.1 as int, two_pow(a as nat)) * two_pow((bits - a) as nat) + cell(
        q.0 as int,
        two_pow((bits - a) as nat),
    )
}

/// The box of `q` in shape `a` is marked in `record`.
pub open spec fn taken_in(record: Seq<Seq<bool>>, capacity: int, q: Point, a: int) -> bool {
    record[a][shape_index(q, log2(capacity) as int, a)]
}

/// A box of `q` is marked in `record` in some shape.
pub open spec fn claimed_in(record: Seq<Seq<bool>>, capacity: int, q: Point) -> bool {
    exists|a: int| 0 <= a <= log2(capacity) && #[trigger] taken_in(record, capacity, q, a)
}

/// What rejection sampling yields on a script, and where it leaves the
/// script: the first of at most `tries` candidates, two draws each, of
/// which no box is marked in `record`.
pub open spec fn first_free_box(
    record: Seq<Seq<bool>>,
    capacity: int,
    i: int,
    j: int,
    xh: int,
    yh: int,
    grid: int,
    script: Seq<u64>,
    cursor: int,
    tries: nat,
) -> (Option<Point>, int)
    decreases tries,
{
    if tries == 0 {
        (None, cursor)
    } else {
        let second = script_advance(script, cursor);
        let q = (
            jitter(i, xh, script_draw(script, cursor), grid) as u64,
            jitter(j, yh, script_draw(script, second), grid) as u64,
        );
        if !claimed_in(record, capacity, q) {
            (Some(q), script_advance(script, second))
        } else {
            first_free_box(
                record,
                capacity,
                i,
                j,
                xh,
                yh,
                grid,
                script,
                script_advance(script, second),
                (tries - 1) as nat,
            )
        }
    }
}

/// No two of `points` share a box of any shape at `capacity`.
pub open spec fn boxed(points: Seq<Point>, capacity: int) -> bool {
    forall|s: int, t: int|
        0 <= s < t < points.len() ==> !ElementaryElement02::collide(
            capacity,
            #[trigger] points[s],
            #[trigger] points[t],
        )
}

/// The logarithm of two to the power `k` is `k`.
pub proof fn lemma_log2_two_pow(k: nat)
    ensures
        log2(two_pow(k)) == k,
    decreases k,
{
    if k > 0 {
        lemma_log2_two_pow((k - 1) as nat);
        lemma_two_pow_add((k - 1) as nat, 0);
    }
}

/// A capacity is two to the power of its logarithm, which is at most 30.
pub proof fn lemma_capacity_log(capacity: int)
    requires
        capacity_ok(capacity),
    ensures
        two_pow(log2(capacity)) == capacity,
        log2(capacity) <= 30,
        1 <= capacity <= 1073741824,
        capacity_ok(2 * capacity) ==> log2(2 * capacity) == log2(capacity) + 1,
{
    let k = choose|k: nat| k <= 30 && capacity == #[trigger] two_pow(k);
    lemma_log2_two_pow(k);
    lemma_capacity_ok(capacity);
}

/// The sizes of shape `a` at capacity `2^bits`.
pub proof fn lemma_shape(bits: nat, a: nat)
    requires
        a <= bits <= 30,
    ensures
        two_pow(a) * two_pow((bits - a) as nat) == two_pow(bits),
        1 <= two_pow(a) <= 1073741824,
        1 <= two_pow((bits - a) as nat) <= 1073741824,
        two_pow(bits) <= 1073741824,
        two_pow(a + 1) == 2 * two_pow(a),
        a < bits ==> two_pow((bits - a) as nat) == 2 * two_pow((bits - a - 1) as nat),
{
    lemma_two_pow_add(a, (bits - a) as nat);
    lemma_two_pow_add((bits - a) as nat, 0);
    lemma_two_pow_mono(a, 30);
    lemma_two_pow_mono((bits - a) as nat, 30);
    lemma_two_pow_mono(bits, 30);
    lemma_two_pow_values();
}

/// In one shape, two points in the unit square have the same box index
/// exactly when they lie in the same box; and a box index is below the capacity.
pub proof fn lemma_shape_index(p: Point, q: Point, bits: nat, a: nat)
    requires
        a <= bits <= 30,
        in_unit(p),
        in_unit(q),
    ensures
        0 <= shape_index(p, bits as int, a as int) < two_pow(bits),
        shape_index(p, bits as int, a as int) == shape_index(q, bits as int, a as int)
            <==> same_box(p, q, two_pow((bits - a) as nat), two_pow(a)),
{
    lemma_shape(bits, a);
    let xs = two_pow((bits - a) as nat);
    let ys = two_pow(a);
    lemma_cell_bound(p.0 as int, xs);
    lemma_cell_bound(p.1 as int, ys);
    lemma_cell_bound(q.0 as int, xs);
    lemma_cell_bound(q.1 as int, ys);
    lemma_row_index_bound(cell(p.0 as int, xs), cell(p.1 as int, ys), xs, ys);
    assert(xs * ys == ys * xs) by (nonlinear_arith);
    if shape_index(p, bits as int, a as int) == shape_index(q, bits as int, a as int) {
        lemma_row_index(
            cell(p.0 as int, xs),
            cell(p.1 as int, ys),
            cell(q.0 as int, xs),
            cell(q.1 as int, ys),
            xs,
        );
    }
}

/// Tracks every shape of box that a capacity allows: `capacity` columns in
/// one row, half as many columns in two rows, and so on down to one column.
/// A point claims its box in each shape.
pub struct ElementaryElement02 {
    ee: Vec<Vec<bool>>,
    nn: usize,
}

impl ElementaryElement02 {
    /// The box with index `idx` of shape `a` is claimed.
    pub closed spec fn box_taken(&self, a: int, idx: int) -> bool {
        self.ee@[a]@[idx]
    }

    /// The box of `q` in shape `a` is claimed.
    pub open spec fn claimed_at(&self, q: Point, a: int) -> bool {
        self.box_taken(a, shape_index(q, log2(self.capacity()) as int, a))
    }

    /// A box of `q` is claimed in the record exactly when its mark is set in
    /// the record's plain values.
    pub proof fn lemma_claimed_in(&self, q: Point)
        requires
            self.wf(),
        ensures
            self.claimed(q) == claimed_in(self.record(), self.capacity(), q),
    {
        let cap = self.capacity();
        if self.claimed(q) {
            let a = choose|a: int| 0 <= a <= log2(cap) && #[trigger] self.claimed_at(q, a);
            assert(taken_in(self.record(), cap, q, a));
        }
        if claimed_in(self.record(), cap, q) {
            let a = choose|a: int| 0 <= a <= log2(cap)
                && #[trigger] taken_in(self.record(), cap, q, a);
            assert(self.claimed_at(q, a));
        }
    }

    /// What a consistent record looks like: its capacity is a power of two,
    /// and it holds one row of marks for each shape, each as long as the
    /// capacity.
    pub proof fn lemma_record_shape(&self)
        requires
            self.wf(),
        ensures
            capacity_ok(self.capacity()),
            self.capacity() >= 1,
            self.record().len() == log2(self.capacity()) + 1,
            forall|a: int|
                0 <= a < self.record().len() ==> (#[trigger] self.record()[a]).len()
                    == self.capacity(),
    {
        lemma_capacity_ok(self.capacity());
    }

    /// Whether a box of `q` is claimed in any shape.
    pub fn valid(&self, q: Point) -> (r: bool)
        requires
            self.wf(),
            in_unit(q),
        ensures
            r == self.claimed(q),
    {
        let ghost bits = log2(self.nn as int);
        proof {
            lemma_capacity_log(self.nn as int);
        }
        let count: usize = self.ee.len();
        let mut x_size: u64 = self.nn as u64;
        let mut y_size: u64 = 1;
        let mut a: usize = 0;
        while a < count
            invariant
                self.wf(),
                in_unit(q),
                bits == log2(self.nn as int),
                bits <= 30,
                two_pow(bits) == self.nn,
                a <= count,
                count == bits + 1,
                count == self.ee@.len(),
                a <= bits ==> x_size == two_pow((bits - a) as nat),
                y_size == two_pow(a as nat),
                forall|b: int| 0 <= b < a ==> !#[trigger] self.claimed_at(q, b),
            decreases count - a,
        {
            proof {
                lemma_shape(bits, a as nat);
                lemma_shape_index(q, q, bits, a as nat);
                lemma_cell_bound(q.1 as int, y_size as int);
            }
            let ix: u64 = cell_of(q.0, x_size);
            let iy: u64 = cell_of(q.1, y_size);
            assert(iy * x_size + ix == shape_index(q, bits as int, a as int));
            assert(0 <= iy * x_size <= iy * x_size + ix) by (nonlinear_arith)
                requires
                    0 <= iy,
                    0 <= x_size,
                    0 <= ix,
            ;
            let idx: u64 = iy * x_size + ix;
            if self.ee[a][idx as usize] {
                assert(self.claimed_at(q, a as int));
                return true;
            }
            x_size = x_size / 2;
            y_size = y_size * 2;
            a = a + 1;
        }
        false
    }

    /// Among `2^bits` points of which no two share a box of any shape, every
    /// box of every shape holds exactly one point.
    pub proof fn lemma_one_point_per_box(points: Seq<Point>, bits: nat, a: nat, cx: int, cy: int)
        requires
            bits <= 30,
            points.len() == two_pow(bits),
            forall|s: int| 0 <= s < points.len() ==> in_unit(#[trigger] points[s]),
            boxed(points, points.len() as int),
            a <= bits,
            0 <= cx < two_pow((bits - a) as nat),
            0 <= cy < two_pow(a),
        ensures
            exists|s: int|
                0 <= s < points.len() && cell(points[s].0 as int, two_pow((bits - a) as nat)) == cx
                    && cell(points[s].1 as int, two_pow(a)) == cy,
            forall|s: int, t: int|
                0 <= s < points.len() && 0 <= t < points.len() && same_box(
                    points[s],
                    points[t],
                    two_pow((bits - a) as nat),
                    two_pow(a),
                ) ==> s == t,
    {
        let m = points.len() as int;
        let xs = two_pow((bits - a) as nat);
        let ys = two_pow(a);
        lemma_log2_two_pow(bits);
        lemma_shape(bits, a);
        assert forall|s: int, t: int| 0 <= s < m && 0 <= t < m && s != t implies !same_box(
            points[s],
            points[t],
            xs,
            ys,
        ) by {
            if same_box(points[s], points[t], xs, ys) {
                assert(collide_at(m, points[s], points[t], a as int));
                assert(collide_at(m, points[t], points[s], a as int));
                if s < t {
                    assert(ElementaryElement02::collide(m, points[s], points[t]));
                } else {
                    assert(ElementaryElement02::collide(m, points[t], points[s]));
                }
            }
        }
        let f = Seq::new(points.len(), |s: int| shape_index(points[s], bits as int, a as int));
        assert forall|s: int| 0 <= s < f.len() implies 0 <= #[trigger] f[s] < f.len() by {
            lemma_shape_index(points[s], points[s], bits, a);
        }
        assert forall|s: int, t: int| 0 <= s < t < f.len() implies f[s] != f[t] by {
            lemma_shape_index(points[s], points[t], bits, a);
        }
        lemma_row_index_bound(cx, cy, xs, ys);
        assert(xs * ys == ys * xs) by (nonlinear_arith);
        lemma_injective_is_onto(f, cy * xs + cx);
        let s = choose|s: int| 0 <= s < f.len() && f[s] == cy * xs + cx;
        lemma_cell_bound(points[s].0 as int, xs);
        lemma_cell_bound(points[s].1 as int, ys);
        lemma_row_index(cell(points[s].0 as int, xs), cell(points[s].1 as int, ys), cx, cy, xs);
    }
}

impl Default for ElementaryElement02 {
    /// An empty record, to be sized by `reinitialize`.
    fn default() -> (e: ElementaryElement02)
        ensures
            e.capacity() == 0,
    {
        ElementaryElement02 { ee: Vec::new(), nn: 0 }
    }
}

impl ElementaryElement for ElementaryElement02 {
    closed spec fn wf(&self) -> bool {
        &&& capacity_ok(self.nn as int)
        &&& self.ee@.len() == log2(self.nn as int) + 1
        &&& forall|a: int| 0 <= a < self.ee@.len() ==> (#[trigger] self.ee@[a])@.len() == self.nn
    }

    closed spec fn capacity(&self) -> int {
        self.nn as int
    }

    open spec fn claimed(&self, p: Point) -> bool {
        exists|a: int| 0 <= a <= log2(self.capacity()) && #[trigger] self.claimed_at(p, a)
    }

    open spec fn collide(capacity: int, p: Point, q: Point) -> bool {
        exists|a: int| 0 <= a <= log2(capacity) && #[trigger] collide_at(capacity, p, q, a)
    }

    closed spec fn record(&self) -> Seq<Seq<bool>> {
        Seq::new(self.ee@.len(), |a: int| self.ee@[a]@)
    }

    open spec fn fresh(capacity: int) -> Seq<Seq<bool>> {
        Seq::new((log2(capacity) + 1) as nat, |a: int| Seq::new(capacity as nat, |c: int| false))
    }

    open spec fn marked(record: Seq<Seq<bool>>, capacity: int, p: Point) -> Seq<Seq<bool>> {
        Seq::new(
            record.len(),
            |a: int| record[a].update(shape_index(p, log2(capacity) as int, a), true),
        )
    }

    open spec fn pick(
        record: Seq<Seq<bool>>,
        capacity: int,
        i: int,
        j: int,
        xhalf: int,
        yhalf: int,
        grid: int,
        script: Seq<u64>,
        cursor: int,
        tries: nat,
    ) -> (Option<Point>, int) {
        first_free_box(record, capacity, i, j, xhalf, yhalf, grid, script, cursor, tries)
    }

    fn reinitialize(&mut self, expected_size: usize) {
        self.nn = expected_size;
        let ghost bits = log2(expected_size as int);
        proof {
            lemma_capacity_log(expected_size as int);
        }
        let mut x_size: usize = expected_size;
        let mut count: usize = 0;
        while x_size != 0
            invariant
                bits <= 30,
                x_size > 0 ==> count + log2(x_size as int) == bits,
                x_size == 0 ==> count == bits + 1,
            decreases x_size,
        {
            count = count + 1;
            x_size = x_size / 2;
        }
        let mut grids: Vec<Vec<bool>> = Vec::new();
        let mut a: usize = 0;
        while a < count
            invariant
                a <= count,
                grids@.len() == a,
                forall|b: int| 0 <= b < a ==> (#[trigger] grids@[b])@.len() == expected_size,
                forall|b: int, idx: int|
                    0 <= b < a && 0 <= idx < expected_size ==> !(#[trigger] grids@[b]@[idx]),
            decreases count - a,
        {
            let row: Vec<bool> = vec![false; expected_size];
            grids.push(row);
            a = a + 1;
        }
        self.ee = grids;
        proof {
            assert(self.record() =~~= Self::fresh(expected_size as int));
            assert forall|q: Point| in_unit(q) implies !#[trigger] self.claimed(q) by {
                assert forall|b: int| 0 <= b <= bits implies !#[trigger] self.claimed_at(q, b) by {
                    lemma_shape_index(q, q, bits, b as nat);
                }
            }
        }
    }

    fn update(&mut self, p: Point) {
        let ghost bits = log2(self.nn as int);
        let ghost before = self.ee@;
        proof {
            lemma_capacity_log(self.nn as int);
        }
        let count: usize = self.ee.len();
        let mut x_size: u64 = self.nn as u64;
        let mut y_size: u64 = 1;
        let mut a: usize = 0;
        while a < count
            invariant
                in_unit(p),
                self.nn == old(self).nn,
                bits == log2(self.nn as int),
                bits <= 30,
                two_pow(bits) == self.nn,
                a <= count,
                count == bits + 1,
                count == self.ee@.len(),
                before.len() == count,
                a <= bits ==> x_size == two_pow((bits - a) as nat),
                y_size == two_pow(a as nat),
                forall|b: int| 0 <= b < count ==> (#[trigger] before[b])@.len() == self.nn,
                forall|b: int|
                    0 <= b < a ==> (#[trigger] self.ee@[b])@ == before[b]@.update(
                        shape_index(p, bits as int, b),
                        true,
                    ),
                forall|b: int| a <= b < count ==> #[trigger] self.ee@[b] == before[b],
            decreases count - a,
        {
            proof {
                lemma_shape(bits, a as nat);
                lemma_shape_index(p, p, bits, a as nat);
                lemma_cell_bound(p.1 as int, y_size as int);
            }
            let ix: u64 = cell_of(p.0, x_size);
            let iy: u64 = cell_of(p.1, y_size);
            assert(iy * x_size + ix == shape_index(p, bits as int, a as int));
            assert(0 <= iy * x_size <= iy * x_size + ix) by (nonlinear_arith)
                requires
                    0 <= iy,
                    0 <= x_size,
                    0 <= ix,
            ;
            let idx: u64 = iy * x_size + ix;
            let ghost cur = self.ee@;
            let mut row: Vec<bool> = self.ee.remove(a);
            row.set(idx as usize, true);
            let ghost marked = row;
            self.ee.insert(a, row);
            proof {
                assert(self.ee@ =~= cur.update(a as int, marked));
            }
            x_size = x_size / 2;
            y_size = y_size * 2;
            a = a + 1;
        }
        proof {
            let cap = self.nn as int;
            assert(self.record() =~~= Self::marked(old(self).record(), cap, p));
            assert forall|b: int| 0 <= b < self.ee@.len() implies (#[trigger] self.ee@[b])@.len()
                == self.nn by {
                assert(before[b]@.len() == self.nn);
                lemma_shape_index(p, p, bits, b as nat);
                assert(self.ee@[b]@ == before[b]@.update(shape_index(p, bits as int, b), true));
            }
            assert forall|q: Point| in_unit(q) implies (#[trigger] self.claimed(q)
                <==> (old(self).claimed(q) || Self::collide(cap, p, q))) by {
                assert forall|b: int| 0 <= b <= bits implies (#[trigger] self.claimed_at(q, b)
                    <==> (old(self).claimed_at(q, b) || collide_at(cap, p, q, b))) by {
                    lemma_shape_index(p, q, bits, b as nat);
                    lemma_shape_index(q, q, bits, b as nat);
                    assert(self.ee@[b]@ == before[b]@.update(shape_index(p, bits as int, b), true));
                }
                if self.claimed(q) {
                    let b = choose|b: int| 0 <= b <= bits && #[trigger] self.claimed_at(q, b);
                    if old(self).claimed_at(q, b) {
                    } else {
                        assert(collide_at(cap, p, q, b));
                    }
                }
                if old(self).claimed(q) {
                    let b = choose|b: int| 0 <= b <= bits && #[trigger] old(self).claimed_at(q, b);
                    assert(self.claimed_at(q, b));
                }
                if Self::collide(cap, p, q) {
                    let b = choose|b: int| 0 <= b <= bits && #[trigger] collide_at(cap, p, q, b);
                    assert(self.claimed_at(q, b));
                }
            }
        }
    }

    fn generate(
        &self,
        i: u64,
        j: u64,
        xhalf: u64,
        yhalf: u64,
        grid: u64,
        rng: &mut DrawSource,
        tries: u64,
    ) -> (r: Option<Point>) {
        let mut left: u64 = tries;
        while left > 0
            invariant
                left <= tries,
                rng.is_scripted() ==> first_free_box(
                    self.record(),
                    self.capacity(),
                    i as int,
                    j as int,
                    xhalf as int,
                    yhalf as int,
                    grid as int,
                    old(rng).script(),
                    old(rng).cursor(),
                    tries as nat,
                ) == first_free_box(
                    self.record(),
                    self.capacity(),
                    i as int,
                    j as int,
                    xhalf as int,
                    yhalf as int,
                    grid as int,
                    rng.script(),
                    rng.cursor(),
                    left as nat,
                ),
                self.wf(),
                i < grid,
                j < grid,
                xhalf <= 1,
                yhalf <= 1,
                grid <= 32768,
                (UNIT as int) % (2 * grid) == 0,
                rng.is_scripted() == old(rng).is_scripted(),
                rng.script() == old(rng).script(),
            decreases left,
        {
            let q: Point = generate_point(rng, i, j, xhalf, yhalf, grid);
            proof {
                self.lemma_claimed_in(q);
            }
            if !self.valid(q) {
                return Some(q);
            }
            left = left - 1;
        }
        None
    }

    proof fn lemma_collide_coarser(capacity: int, p: Point, q: Point) {
        lemma_capacity_log(capacity);
        let bits = log2(capacity);
        let a = choose|a: int| 0 <= a <= bits + 1 && #[trigger] collide_at(2 * capacity, p, q, a);
        if a == 0 {
            lemma_shape(bits, 0);
            assert(two_pow((bits + 1) as nat) == 2 * two_pow(bits));
            lemma_cell_coarser(p.0 as int, two_pow(bits));
            lemma_cell_coarser(q.0 as int, two_pow(bits));
            assert(collide_at(capacity, p, q, 0));
        } else {
            lemma_shape(bits, (a - 1) as nat);
            assert(two_pow(a as nat) == 2 * two_pow((a - 1) as nat));
            lemma_cell_coarser(p.1 as int, two_pow((a - 1) as nat));
            lemma_cell_coarser(q.1 as int, two_pow((a - 1) as nat));
            assert(collide_at(capacity, p, q, a - 1));
        }
    }
}

} // verus!
