//! Fixed-point coordinates, grid cells and the jitter formula.
use vstd::prelude::*;
use crate::counting::{lemma_injective_is_onto, lemma_row_index, lemma_row_index_bound};

verus! {

/// The fixed-point representation of 1: coordinates are fractions of `UNIT` (2^53).
pub const UNIT: u64 = 9007199254740992;

/// The largest grid resolution (cells per axis) a sequence may still grow from.
pub const MAX_GRID: u64 = 16384;

/// A sample: two fixed-point coordinates.
pub type Point = (u64, u64);

/// Both coordinates of `p` stand for numbers in `[0, 1)`.
pub open spec fn in_unit(p: Point) -> bool {
    p.0 < UNIT && p.1 < UNIT
}

/// Two to the power `k`.
pub open spec fn two_pow(k: nat) -> int
    decreases k,
{
    if k == 0 {
        1
    } else {
        2 * two_pow((k - 1) as nat)
    }
}

/// The index of the slice that holds `x` when `[0, 1)` is cut into `size`
/// equal slices: the floor of `x / UNIT * size`.
pub open spec fn cell(x: int, size: int) -> int {
    (x * size) / (UNIT as int)
}

/// Which half of its slice (at resolution `size`) holds `x`: 0 or 1.
pub open spec fn half(x: int, size: int) -> int {
    cell(x, 2 * size) - 2 * cell(x, size)
}

/// The coordinate at offset `draw` inside the half `h` of slice `i`, at
/// resolution `grid`: `(i + (h + draw / UNIT) / 2) / grid`, rounded down.
pub open spec fn jitter(i: int, h: int, draw: int, grid: int) -> int {
    ((2 * i + h) * (UNIT as int) + draw) / (2 * grid)
}

/// `grid` is a power of two, at most 2^15.
pub open spec fn grid_ok(grid: int) -> bool {
    exists|k: nat| k <= 15 && grid == #[trigger] two_pow(k)
}

/// `capacity` is a power of two, at most 2^30.
pub open spec fn capacity_ok(capacity: int) -> bool {
    exists|k: nat| k <= 30 && capacity == #[trigger] two_pow(k)
}

/// `p` and `q` lie in the same cell of a `size` by `size` grid.
pub open spec fn same_cell(p: Point, q: Point, size: int) -> bool {
    cell(p.0 as int, size) == cell(q.0 as int, size) && cell(p.1 as int, size) == cell(
        q.1 as int,
        size,
    )
}

/// All of `points` lie in the unit square, and no two in the same cell of
/// a `grid` by `grid` grid.
pub open spec fn stratified(points: Seq<Point>, grid: int) -> bool {
    &&& forall|s: int| 0 <= s < points.len() ==> in_unit(#[trigger] points[s])
    &&& forall|a: int, b: int|
        0 <= a < b < points.len() ==> !same_cell(#[trigger] points[a], #[trigger] points[b], grid)
}

/// `q` lies in the unit square, in the sub-quadrant `(xh, yh)` of the cell
/// `(i, j)` of a `grid` by `grid` grid.
pub open spec fn placed(q: Point, i: int, j: int, xh: int, yh: int, grid: int) -> bool {
    &&& in_unit(q)
    &&& cell(q.0 as int, 2 * grid) == 2 * i + xh
    &&& cell(q.1 as int, 2 * grid) == 2 * j + yh
}

/// The position in the first quarter that a position among `4 * n` belongs to.
pub open spec fn base(idx: int, n: int) -> int {
    if idx < n {
        idx
    } else if idx < 2 * n {
        idx - n
    } else if idx < 3 * n {
        idx - 2 * n
    } else {
        idx - 3 * n
    }
}

/// The point at `n + t` lies in the sub-quadrant diagonally opposite to the
/// point at `t`, in the same cell.
pub open spec fn diag_placed(points: Seq<Point>, t: int, n: int, grid: int) -> bool {
    let p = points[t];
    placed(
        points[n + t],
        cell(p.0 as int, grid),
        cell(p.1 as int, grid),
        1 - half(p.0 as int, grid),
        1 - half(p.1 as int, grid),
        grid,
    )
}

/// The points at `2 * n + t` and `3 * n + t` lie in the two sub-quadrants
/// beside that of the point at `t`, one in each, in the same cell.
pub open spec fn sides_placed(points: Seq<Point>, t: int, n: int, grid: int) -> bool {
    let p = points[t];
    let i = cell(p.0 as int, grid);
    let j = cell(p.1 as int, grid);
    let xh = half(p.0 as int, grid);
    let yh = half(p.1 as int, grid);
    ||| placed(points[2 * n + t], i, j, xh, 1 - yh, grid) && placed(
        points[3 * n + t],
        i,
        j,
        1 - xh,
        yh,
        grid,
    )
    ||| placed(points[2 * n + t], i, j, 1 - xh, yh, grid) && placed(
        points[3 * n + t],
        i,
        j,
        xh,
        1 - yh,
        grid,
    )
}

/// The three points that growth adds for the point at position `t` fill,
/// with it, the four sub-quadrants of its cell: the one at `n + t` lies
/// diagonally opposite to it, the one at `2 * n + t` beside it along one
/// axis, and the one at `3 * n + t` diagonally opposite to that.
pub open spec fn quad_placed(points: Seq<Point>, t: int, n: int, grid: int) -> bool {
    diag_placed(points, t, n, grid) && sides_placed(points, t, n, grid)
}

/// Powers of two multiply by adding their exponents, and are positive.
pub proof fn lemma_two_pow_add(a: nat, b: nat)
    ensures
        two_pow(a + b) == two_pow(a) * two_pow(b),
        two_pow(a) >= 1,
    decreases a,
{
    if a > 0 {
        lemma_two_pow_add((a - 1) as nat, b);
        assert(two_pow(a + b) == 2 * two_pow((a - 1 + b) as nat));
        assert(2 * (two_pow((a - 1) as nat) * two_pow(b)) == (2 * two_pow((a - 1) as nat))
            * two_pow(b)) by (nonlinear_arith);
    } else {
        assert(two_pow(0 + b) == 1 * two_pow(b));
    }
}

/// The powers of two that the limits of this library are made of.
pub proof fn lemma_two_pow_values()
    ensures
        two_pow(14) == 16384,
        two_pow(30) == 1073741824,
        two_pow(53) == UNIT,
{
    assert(two_pow(0) == 1);
    assert(two_pow(1) == 2);
    lemma_two_pow_add(1, 1);
    assert(two_pow(2) == 4);
    lemma_two_pow_add(2, 2);
    assert(two_pow(4) == 16);
    lemma_two_pow_add(4, 4);
    assert(two_pow(8) == 256);
    lemma_two_pow_add(8, 8);
    assert(two_pow(16) == 65536);
    lemma_two_pow_add(16, 16);
    assert(two_pow(32) == 4294967296);
    lemma_two_pow_add(8, 4);
    assert(two_pow(12) == 4096);
    lemma_two_pow_add(12, 2);
    assert(two_pow(14) == 16384);
    lemma_two_pow_add(16, 14);
    lemma_two_pow_add(32, 16);
    assert(two_pow(48) == 281474976710656);
    lemma_two_pow_add(48, 4);
    assert(two_pow(52) == 4503599627370496);
    lemma_two_pow_add(52, 1);
}

/// A larger exponent gives a power of two that is no smaller.
pub proof fn lemma_two_pow_mono(a: nat, b: nat)
    requires
        a <= b,
    ensures
        two_pow(a) <= two_pow(b),
    decreases b,
{
    if a < b {
        lemma_two_pow_mono(a, (b - 1) as nat);
        lemma_two_pow_add((b - 1) as nat, 0);
    }
}

/// A power of two up to 2^53 divides `UNIT`.
pub proof fn lemma_two_pow_divides_unit(k: nat)
    requires
        k <= 53,
    ensures
        1 <= two_pow(k) <= UNIT,
        (UNIT as int) % two_pow(k) == 0,
{
    lemma_two_pow_add(k, (53 - k) as nat);
    lemma_two_pow_add((53 - k) as nat, 0);
    lemma_two_pow_values();
    let a = two_pow(k);
    let b = two_pow((53 - k) as nat);
    assert(a * b == UNIT as int);
    assert(a >= 1 && b >= 1 && a * b == UNIT as int ==> a <= UNIT as int && (UNIT as int) % a == 0)
        by (nonlinear_arith);
}

/// What `grid_ok` gives: bounds, that twice the grid divides `UNIT`, and
/// that the doubled grid is a grid again unless the limit is reached.
pub proof fn lemma_grid_ok(grid: int)
    requires
        grid_ok(grid),
    ensures
        1 <= grid <= 32768,
        (UNIT as int) % (2 * grid) == 0,
        1 <= grid * grid <= 1073741824,
        grid <= MAX_GRID ==> grid_ok(2 * grid),
{
    let k = choose|k: nat| k <= 15 && grid == #[trigger] two_pow(k);
    lemma_two_pow_mono(k, 15);
    lemma_two_pow_values();
    assert(two_pow(15) == 2 * two_pow(14));
    lemma_two_pow_divides_unit(k + 1);
    assert(two_pow(k + 1) == 2 * two_pow(k));
    assert(1 <= grid <= 32768 ==> 1 <= grid * grid <= 1073741824) by (nonlinear_arith);
    if grid <= MAX_GRID {
        assert(k <= 14);
        assert(2 * grid == two_pow(k + 1));
    }
}

/// A capacity is between 1 and 2^30.
pub proof fn lemma_capacity_ok(capacity: int)
    requires
        capacity_ok(capacity),
    ensures
        1 <= capacity <= 1073741824,
{
    let k = choose|k: nat| k <= 30 && capacity == #[trigger] two_pow(k);
    lemma_two_pow_mono(k, 30);
    lemma_two_pow_mono(0, k);
    lemma_two_pow_values();
}

/// A tier of `grid * grid` points that may still grow has capacities for
/// both phases of its growth.
pub proof fn lemma_growth_capacities(grid: int)
    requires
        grid_ok(grid),
        grid <= MAX_GRID,
    ensures
        capacity_ok(grid * grid),
        capacity_ok(2 * (grid * grid)),
        capacity_ok(4 * (grid * grid)),
{
    let k = choose|k: nat| k <= 15 && grid == #[trigger] two_pow(k);
    lemma_grid_ok(grid);
    lemma_two_pow_values();
    if k == 15 {
        assert(two_pow(15) == 2 * two_pow(14));
    }
    lemma_two_pow_add(k, k);
    assert(two_pow(2 * k + 1) == 2 * two_pow(2 * k));
    assert(two_pow(2 * k + 2) == 2 * two_pow(2 * k + 1));
}

/// The slice index of a coordinate in `[0, 1)` is below the number of slices.
pub proof fn lemma_cell_bound(x: int, size: int)
    requires
        0 <= x < UNIT,
        0 < size,
    ensures
        0 <= cell(x, size) < size,
{
    assert(0 <= x * size < (UNIT as int) * size) by (nonlinear_arith)
        requires
            0 <= x < UNIT,
            0 < size,
    ;
}

/// Halving the resolution halves the slice index.
pub proof fn lemma_cell_coarser(x: int, size: int)
    requires
        0 <= x,
        0 <= size,
    ensures
        cell(x, 2 * size) / 2 == cell(x, size),
        0 <= half(x, size) <= 1,
{
    let a = x * size;
    assert(x * (2 * size) == 2 * a) by (nonlinear_arith)
        requires
            a == x * size,
    ;
    assert(a >= 0) by (nonlinear_arith)
        requires
            a == x * size,
            0 <= x,
            0 <= size,
    ;
    assert((2 * a) / (UNIT as int) / 2 == a / (UNIT as int));
}

/// The jitter formula stays in `[0, 1)` and lands in half `h` of slice `i`.
pub proof fn lemma_jitter_lands(i: int, h: int, draw: int, grid: int)
    requires
        0 <= i < grid,
        0 <= h <= 1,
        0 <= draw < UNIT,
        (UNIT as int) % (2 * grid) == 0,
    ensures
        0 <= jitter(i, h, draw, grid) < UNIT,
        cell(jitter(i, h, draw, grid), 2 * grid) == 2 * i + h,
        cell(jitter(i, h, draw, grid), grid) == i,
        half(jitter(i, h, draw, grid), grid) == h,
{
    let f = 2 * grid;
    let c = 2 * i + h;
    let u = UNIT as int;
    let w = u / f;
    let v = jitter(i, h, draw, grid);
    assert(u == w * f) by (nonlinear_arith)
        requires
            w == u / f,
            u % f == 0,
            f > 0,
    ;
    assert(c * u == (c * w) * f) by (nonlinear_arith)
        requires
            u == w * f,
    ;
    vstd::arithmetic::div_mod::lemma_hoist_over_denominator(draw, c * w, f as nat);
    assert(v == draw / f + c * w);
    let e = draw / f;
    assert(0 <= e * f <= draw) by (nonlinear_arith)
        requires
            e == draw / f,
            f > 0,
            draw >= 0,
    ;
    assert(v * f == c * u + e * f) by (nonlinear_arith)
        requires
            v == e + c * w,
            c * u == (c * w) * f,
    ;
    assert(cell(v, f) == c);
    assert(0 <= c < f);
    assert(0 <= v);
    assert(v < u) by (nonlinear_arith)
        requires
            v * f == c * u + e * f,
            e * f < u,
            0 <= c < f,
            f > 0,
            u > 0,
    ;
    lemma_cell_coarser(v, grid);
}

/// Whether `c` is a capacity that an occupancy record can be sized for.
pub fn is_capacity(c: usize) -> (b: bool)
    ensures
        b == capacity_ok(c as int),
{
    let mut power: u64 = 1;
    let mut k: u64 = 0;
    while k <= 30
        invariant
            k <= 31,
            power == two_pow(k as nat),
            1 <= power <= 2147483648,
            forall|e: nat| e < k ==> #[trigger] two_pow(e) != c,
        decreases 31 - k,
    {
        if c as u64 == power {
            return true;
        }
        proof {
            lemma_two_pow_values();
            lemma_two_pow_mono(k as nat, 30);
        }
        power = power * 2;
        k = k + 1;
    }
    false
}

/// Computes the slice index of `x` among `size` slices.
pub fn cell_of(x: u64, size: u64) -> (c: u64)
    requires
        x < UNIT,
        0 < size <= 0x1_0000_0000,
    ensures
        c == cell(x as int, size as int),
        c < size,
{
    proof {
        lemma_cell_bound(x as int, size as int);
        assert(0 <= (x as int) * (size as int) < 0x20_0000_0000_0000 * 0x1_0000_0000)
            by (nonlinear_arith)
            requires
                0 <= x < 0x20_0000_0000_0000,
                0 < size <= 0x1_0000_0000,
        ;
    }
    let wide: u128 = (x as u128) * (size as u128);
    (wide / (UNIT as u128)) as u64
}

/// Computes the half selector of `x` relative to its slice at resolution `size`.
pub fn half_of(x: u64, size: u64) -> (h: u64)
    requires
        x < UNIT,
        0 < size <= 0x8000_0000,
    ensures
        h == half(x as int, size as int),
        h <= 1,
{
    proof {
        lemma_cell_coarser(x as int, size as int);
    }
    let fine: u64 = cell_of(x, 2 * size);
    let coarse: u64 = cell_of(x, size);
    fine - 2 * coarse
}

/// Computes the jitter formula.
pub fn jitter_coord(i: u64, h: u64, draw: u64, grid: u64) -> (v: u64)
    requires
        i < grid,
        h <= 1,
        draw < UNIT,
        grid <= 32768,
        (UNIT as int) % (2 * grid) == 0,
    ensures
        v == jitter(i as int, h as int, draw as int, grid as int),
        v < UNIT,
        cell(v as int, 2 * grid) == 2 * i + h,
        cell(v as int, grid as int) == i,
        half(v as int, grid as int) == h,
{
    proof {
        lemma_jitter_lands(i as int, h as int, draw as int, grid as int);
        assert((2 * i + h) * (UNIT as int) <= 65536 * (UNIT as int)) by (nonlinear_arith)
            requires
                2 * i + h <= 65536,
        ;
    }
    let c: u128 = (2 * i + h) as u128;
    let num: u128 = c * (UNIT as u128) + (draw as u128);
    (num / ((2 * grid) as u128)) as u64
}

/// After growth no two of the `4 * n` points share a cell of the finer grid.
pub proof fn lemma_quads_stratified(points: Seq<Point>, n: int, grid: int)
    requires
        n > 0,
        grid > 0,
        points.len() == 4 * n,
        stratified(points.subrange(0, n), grid),
        forall|t: int| 0 <= t < n ==> #[trigger] quad_placed(points, t, n, grid),
    ensures
        stratified(points, 2 * grid),
{
    let first = points.subrange(0, n);
    assert forall|s: int| 0 <= s < points.len() implies in_unit(#[trigger] points[s]) by {
        let t = base(s, n);
        assert(quad_placed(points, t, n, grid));
        assert(first[t] == points[t]);
    }
    assert forall|a: int, b: int| 0 <= a < b < points.len() implies !same_cell(
        #[trigger] points[a],
        #[trigger] points[b],
        2 * grid,
    ) by {
        let ta = base(a, n);
        let tb = base(b, n);
        assert(quad_placed(points, ta, n, grid));
        assert(quad_placed(points, tb, n, grid));
        assert(first[ta] == points[ta]);
        assert(first[tb] == points[tb]);
        lemma_cell_coarser(points[a].0 as int, grid);
        lemma_cell_coarser(points[a].1 as int, grid);
        lemma_cell_coarser(points[b].0 as int, grid);
        lemma_cell_coarser(points[b].1 as int, grid);
        lemma_cell_coarser(points[ta].0 as int, grid);
        lemma_cell_coarser(points[ta].1 as int, grid);
        lemma_cell_coarser(points[tb].0 as int, grid);
        lemma_cell_coarser(points[tb].1 as int, grid);
        assert(same_cell(points[a], points[ta], grid));
        assert(same_cell(points[b], points[tb], grid));
        if ta < tb {
            assert(!same_cell(first[ta], first[tb], grid));
        } else if tb < ta {
            assert(!same_cell(first[tb], first[ta], grid));
        } else {
        }
    }
}

/// Where `grid * grid` points are stratified on a `grid` by `grid` grid,
/// every cell of the grid holds exactly one of them.
pub proof fn lemma_stratified_fills_grid(points: Seq<Point>, grid: int, cx: int, cy: int)
    requires
        grid > 0,
        points.len() == grid * grid,
        stratified(points, grid),
        0 <= cx < grid,
        0 <= cy < grid,
    ensures
        exists|s: int|
            0 <= s < points.len() && cell(points[s].0 as int, grid) == cx && cell(
                points[s].1 as int,
                grid,
            ) == cy,
        forall|a: int, b: int|
            0 <= a < points.len() && 0 <= b < points.len() && same_cell(
                points[a],
                points[b],
                grid,
            ) ==> a == b,
{
    let f = Seq::new(
        points.len(),
        |s: int| cell(points[s].1 as int, grid) * grid + cell(points[s].0 as int, grid),
    );
    assert forall|s: int| 0 <= s < f.len() implies 0 <= #[trigger] f[s] < f.len() by {
        assert(in_unit(points[s]));
        lemma_cell_bound(points[s].0 as int, grid);
        lemma_cell_bound(points[s].1 as int, grid);
        lemma_row_index_bound(
            cell(points[s].0 as int, grid),
            cell(points[s].1 as int, grid),
            grid,
            grid,
        );
    }
    assert forall|a: int, b: int| 0 <= a < b < f.len() implies f[a] != f[b] by {
        assert(in_unit(points[a]) && in_unit(points[b]));
        lemma_cell_bound(points[a].0 as int, grid);
        lemma_cell_bound(points[b].0 as int, grid);
        lemma_cell_bound(points[a].1 as int, grid);
        lemma_cell_bound(points[b].1 as int, grid);
        assert(!same_cell(points[a], points[b], grid));
        if f[a] == f[b] {
            lemma_row_index(
                cell(points[a].0 as int, grid),
                cell(points[a].1 as int, grid),
                cell(points[b].0 as int, grid),
                cell(points[b].1 as int, grid),
                grid,
            );
        }
    }
    lemma_row_index_bound(cx, cy, grid, grid);
    lemma_injective_is_onto(f, cy * grid + cx);
    let s = choose|s: int| 0 <= s < f.len() && f[s] == cy * grid + cx;
    assert(in_unit(points[s]));
    lemma_cell_bound(points[s].0 as int, grid);
    lemma_cell_bound(points[s].1 as int, grid);
    lemma_row_index(
        cell(points[s].0 as int, grid),
        cell(points[s].1 as int, grid),
        cx,
        cy,
        grid,
    );
    assert forall|a: int, b: int|
        0 <= a < points.len() && 0 <= b < points.len() && same_cell(
            points[a],
            points[b],
            grid,
        ) implies a == b by {
        if a < b {
            assert(!same_cell(points[a], points[b], grid));
        } else if b < a {
            assert(!same_cell(points[b], points[a], grid));
        }
    }
}

} // verus!
