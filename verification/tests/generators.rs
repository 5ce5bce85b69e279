use stratified::fixed::{cell_of, UNIT};
use stratified::{
    DrawSource, ElementaryElement02, Generator, HVElementaryElement, Jittered, MultiJittered,
    Point, Uniform,
};

const HALF: u64 = UNIT / 2;

fn as_float(p: Point) -> (f64, f64) {
    (p.0 as f64 / UNIT as f64, p.1 as f64 / UNIT as f64)
}

/// A fixed script of draws that looks random enough for rejection sampling.
fn script(len: usize, seed: u64) -> Vec<u64> {
    let mut state: u64 = seed;
    let mut out: Vec<u64> = Vec::new();
    for _ in 0..len {
        state = state.wrapping_mul(6364136223846793005).wrapping_add(1442695040888963407);
        out.push(state >> 11);
    }
    out
}

fn take(g: &mut dyn FnMut() -> Option<Point>, n: usize) -> Vec<Point> {
    (0..n).map(|_| g().expect("a point")).collect()
}

fn one_per_cell(points: &[Point], grid: u64) -> bool {
    let mut seen: Vec<bool> = vec![false; (grid * grid) as usize];
    for p in points {
        let idx = (cell_of(p.1, grid) * grid + cell_of(p.0, grid)) as usize;
        if seen[idx] {
            return false;
        }
        seen[idx] = true;
    }
    points.len() as u64 == grid * grid
}

fn one_per_box(points: &[Point], xs: u64, ys: u64) -> bool {
    let mut seen: Vec<bool> = vec![false; (xs * ys) as usize];
    for p in points {
        let idx = (cell_of(p.1, ys) * xs + cell_of(p.0, xs)) as usize;
        if seen[idx] {
            return false;
        }
        seen[idx] = true;
    }
    points.len() as u64 == xs * ys
}

#[test]
fn uniform_with_constant_half_returns_the_centre() {
    let mut g = Uniform::with_source(DrawSource::replay(vec![HALF]));
    for _ in 0..10 {
        assert_eq!(as_float(g.generate().unwrap()), (0.5, 0.5));
    }
}

#[test]
fn uniform_pairs_successive_draws() {
    let mut g = Uniform::with_source(DrawSource::replay(vec![1, 2, 3]));
    assert_eq!(g.generate(), Some((1, 2)));
    assert_eq!(g.generate(), Some((3, 1)));
    assert_eq!(g.generate(), Some((2, 3)));
}

#[test]
fn uniform_points_lie_in_the_unit_square() {
    let mut g = Uniform::default();
    for _ in 0..1000 {
        let p = g.generate().unwrap();
        assert!(p.0 < UNIT && p.1 < UNIT);
        let (x, y) = as_float(p);
        assert!(0.0 <= x && x < 1.0 && 0.0 <= y && y < 1.0);
    }
}

#[test]
fn jittered_with_constant_half_first_two_points() {
    let mut g = Jittered::with_source(DrawSource::replay(vec![HALF]));
    assert_eq!(as_float(g.generate().unwrap()), (0.5, 0.5));
    // The point lies in the upper half of the only cell on both axes, so the
    // next one goes to the lower halves: (0 + 0.5 * (0 + 0.5)) / 1 = 0.25.
    assert_eq!(as_float(g.generate().unwrap()), (0.25, 0.25));
}

#[test]
fn jittered_with_constant_half_first_tier_of_four() {
    let mut g = Jittered::with_source(DrawSource::replay(vec![HALF])).reserve(4);
    let pts: Vec<(f64, f64)> = (0..4).map(|_| as_float(g.generate().unwrap())).collect();
    // The coin 0.5 is not above 0.5, so the y half flips back: (0, 1), then (1, 0).
    assert_eq!(pts, vec![(0.5, 0.5), (0.25, 0.25), (0.25, 0.75), (0.75, 0.25)]);
}

#[test]
fn jittered_coin_above_half_flips_x() {
    let mut draws: Vec<u64> = vec![HALF, HALF, HALF, HALF, HALF + 1, HALF, HALF, HALF, HALF];
    draws.push(0);
    let mut g = Jittered::with_source(DrawSource::replay(draws));
    let pts: Vec<(f64, f64)> = (0..4).map(|_| as_float(g.generate().unwrap())).collect();
    assert_eq!(pts, vec![(0.5, 0.5), (0.25, 0.25), (0.75, 0.25), (0.25, 0.75)]);
}

#[test]
fn jittered_tiers_have_one_point_per_cell() {
    let mut g = Jittered::default();
    let pts = take(&mut || g.generate(), 1024);
    let mut grid: u64 = 1;
    while grid * grid <= 1024 {
        assert!(one_per_cell(&pts[..(grid * grid) as usize], grid));
        grid *= 2;
    }
}

#[test]
fn jittered_points_lie_in_the_unit_square() {
    let mut g = Jittered::default();
    for p in take(&mut || g.generate(), 300) {
        assert!(p.0 < UNIT && p.1 < UNIT);
    }
}

#[test]
fn jittered_is_a_function_of_the_draws() {
    let draws = script(4099, 7);
    let mut a = Jittered::with_source(DrawSource::replay(draws.clone()));
    let mut b = Jittered::with_source(DrawSource::replay(draws));
    let first = take(&mut || a.generate(), 70);
    let second = take(&mut || b.generate(), 300);
    assert_eq!(first[..], second[..70]);
    assert!(one_per_cell(&second[..256], 16));
}

#[test]
fn reserve_does_not_change_the_output() {
    let draws = script(997, 3);
    let mut a = Jittered::with_source(DrawSource::replay(draws.clone()));
    let mut b = Jittered::with_source(DrawSource::replay(draws)).reserve(64);
    assert_eq!(take(&mut || a.generate(), 64), take(&mut || b.generate(), 64));
}

#[test]
fn multi_jittered_slices_first_point_is_two_draws() {
    let mut g = MultiJittered::with_source(
        DrawSource::replay(vec![HALF, 7]),
        HVElementaryElement::default(),
    );
    assert_eq!(g.generate(), Some((HALF, 7)));
}

#[test]
fn multi_jittered_slices_first_tier_on_a_script() {
    let q: u64 = UNIT / 4;
    // Two draws for the first point, two for the diagonal one, the coin.
    // Then the candidate (0.125, ..) whose x slice is taken, and (0.25, 0.75);
    // then the candidate (0.625, ..) whose x slice is taken, and, with the
    // script started over, (0.75, 0.125).
    let draws: Vec<u64> = vec![HALF, HALF, q, 3 * q, UNIT - 1, q, 3 * q, HALF, HALF, q];
    let mut g = MultiJittered::with_source(DrawSource::replay(draws), HVElementaryElement::default());
    let pts: Vec<(f64, f64)> = (0..4).map(|_| as_float(g.generate().unwrap())).collect();
    assert_eq!(pts, vec![(0.5, 0.5), (0.125, 0.375), (0.25, 0.75), (0.75, 0.125)]);
}

#[test]
fn multi_jittered_slices_quadrant_phase_on_a_script() {
    let q: u64 = UNIT / 4;
    // After (0.5, 0.5) and (0.25, 0.25): the coin 0.25 flips the y half, and
    // the four draws that follow are all accepted.
    let draws: Vec<u64> = vec![HALF, HALF, HALF, HALF, q, HALF, q, q, HALF, 7];
    let mut g = MultiJittered::with_source(DrawSource::replay(draws), HVElementaryElement::default());
    let pts: Vec<(f64, f64)> = (0..4).map(|_| as_float(g.generate().unwrap())).collect();
    assert_eq!(pts, vec![(0.5, 0.5), (0.25, 0.25), (0.75, 0.125), (0.125, 0.75)]);
    // Nine draws were used; the fifth point asks for growth, which starts
    // with the tenth entry.
}

#[test]
fn multi_jittered_02_first_tier_on_a_script() {
    let q: u64 = UNIT / 4;
    // The coin is not above one half, so the y half is flipped first. The
    // first candidate for the last point, (0.125, 0.875), shares a column of
    // four with the second point; the script starts over and gives (0.25, 0.75).
    let draws: Vec<u64> = vec![HALF, HALF, q, 3 * q, 0, 3 * q, q, q, 3 * q];
    let mut g = MultiJittered::with_source(DrawSource::replay(draws), ElementaryElement02::default());
    let pts: Vec<(f64, f64)> = (0..4).map(|_| as_float(g.generate().unwrap())).collect();
    assert_eq!(pts, vec![(0.5, 0.5), (0.125, 0.375), (0.875, 0.125), (0.25, 0.75)]);
}

#[test]
fn multi_jittered_slices_is_a_latin_square_at_each_tier() {
    let mut g = MultiJittered::<HVElementaryElement>::default();
    let pts = take(&mut || g.generate(), 256);
    for m in [1u64, 4, 16, 64, 256] {
        let tier = &pts[..m as usize];
        assert!(one_per_box(tier, m, 1));
        assert!(one_per_box(tier, 1, m));
    }
}

#[test]
fn multi_jittered_slices_is_jittered_too() {
    let mut g = MultiJittered::<HVElementaryElement>::default();
    let pts = take(&mut || g.generate(), 64);
    assert!(one_per_cell(&pts[..4], 2));
    assert!(one_per_cell(&pts[..16], 4));
    assert!(one_per_cell(&pts, 8));
}

#[test]
fn multi_jittered_02_fills_every_dyadic_box() {
    let mut g = MultiJittered::<ElementaryElement02>::default();
    let pts = take(&mut || g.generate(), 64);
    for m in [1u64, 4, 16, 64] {
        let tier = &pts[..m as usize];
        let mut ys: u64 = 1;
        while ys <= m {
            assert!(one_per_box(tier, m / ys, ys));
            ys *= 2;
        }
    }
}

#[test]
fn multi_jittered_points_lie_in_the_unit_square() {
    let mut g = MultiJittered::<ElementaryElement02>::default();
    for p in take(&mut || g.generate(), 64) {
        assert!(p.0 < UNIT && p.1 < UNIT);
    }
    let mut h = MultiJittered::<HVElementaryElement>::default();
    for p in take(&mut || h.generate(), 64) {
        assert!(p.0 < UNIT && p.1 < UNIT);
    }
}

#[test]
fn multi_jittered_gives_up_on_a_constant_source() {
    let mut g = MultiJittered::with_source(
        DrawSource::replay(vec![HALF]),
        HVElementaryElement::default(),
    )
    .with_retry_limit(10);
    assert_eq!(as_float(g.generate().unwrap()), (0.5, 0.5));
    // Every later candidate repeats a slice that is taken, so growth never ends.
    assert_eq!(g.generate(), None);
    assert_eq!(g.generate(), None);
}

#[test]
fn multi_jittered_02_gives_up_on_a_constant_source() {
    let mut g = MultiJittered::with_source(
        DrawSource::replay(vec![HALF]),
        ElementaryElement02::default(),
    )
    .with_retry_limit(10);
    assert_eq!(as_float(g.generate().unwrap()), (0.5, 0.5));
    assert_eq!(g.generate(), None);
}

#[test]
fn multi_jittered_with_no_retries_never_grows() {
    let mut g = MultiJittered::<HVElementaryElement>::default().with_retry_limit(0);
    assert!(g.generate().is_some());
    assert_eq!(g.generate(), None);
}

#[test]
fn multi_jittered_is_a_function_of_the_draws() {
    let draws = script(10007, 11);
    let run = |n: usize| -> Vec<Option<Point>> {
        let mut g = MultiJittered::with_source(
            DrawSource::replay(draws.clone()),
            HVElementaryElement::default(),
        )
        .with_retry_limit(100000);
        (0..n).map(|_| g.generate()).collect()
    };
    let first = run(16);
    let second = run(64);
    assert_eq!(first[..], second[..16]);
    assert!(second.iter().all(|p| p.is_some()));
    let run02 = |n: usize| -> Vec<Option<Point>> {
        let mut g = MultiJittered::with_source(
            DrawSource::replay(draws.clone()),
            ElementaryElement02::default(),
        )
        .with_retry_limit(100000);
        (0..n).map(|_| g.generate()).collect()
    };
    assert_eq!(run02(16), run02(16));
    assert_eq!(run02(5)[..], run02(16)[..5]);
}

#[test]
fn earlier_points_stay_when_the_sequence_grows() {
    let draws = script(4099, 5);
    let mut shorter = Jittered::with_source(DrawSource::replay(draws.clone()));
    let early = take(&mut || shorter.generate(), 4);
    let mut longer = Jittered::with_source(DrawSource::replay(draws));
    let all = take(&mut || longer.generate(), 100);
    assert_eq!(early[..], all[..4]);
}
