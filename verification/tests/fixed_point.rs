use stratified::fixed::{cell_of, half_of, is_capacity, jitter_coord, MAX_GRID, UNIT};
use stratified::jittered::generate_point;
use stratified::source::DrawSource;

const HALF: u64 = UNIT / 2;

fn as_float(x: u64) -> f64 {
    x as f64 / UNIT as f64
}

#[test]
fn unit_is_two_to_the_53() {
    assert_eq!(UNIT, 1u64 << 53);
    assert_eq!(MAX_GRID, 1u64 << 14);
}

#[test]
fn cell_of_is_floor_of_scaled_coordinate() {
    assert_eq!(cell_of(0, 1), 0);
    assert_eq!(cell_of(UNIT - 1, 1), 0);
    assert_eq!(cell_of(HALF, 2), 1);
    assert_eq!(cell_of(HALF - 1, 2), 0);
    assert_eq!(cell_of(UNIT - 1, 4), 3);
    assert_eq!(cell_of(3 * (UNIT / 8), 4), 1);
    assert_eq!(cell_of(UNIT / 3, 3), 0);
    assert_eq!(cell_of(UNIT / 3 + 1, 3), 1);
    assert_eq!(cell_of(UNIT - 1, 1u64 << 30), (1u64 << 30) - 1);
}

#[test]
fn half_of_tells_the_sub_slice() {
    assert_eq!(half_of(HALF, 1), 1);
    assert_eq!(half_of(HALF - 1, 1), 0);
    assert_eq!(half_of(3 * (UNIT / 8), 2), 1);
    assert_eq!(half_of(UNIT / 8, 2), 0);
    assert_eq!(half_of(5 * (UNIT / 8), 2), 0);
}

#[test]
fn jitter_coord_matches_the_formula() {
    // (0 + 0.5 * (1 + 0.5)) / 2 = 0.375
    let v: u64 = jitter_coord(0, 1, HALF, 2);
    assert_eq!(v, 3 * (UNIT / 8));
    assert_eq!(as_float(v), 0.375);
    // (0 + 0.5 * (1 + 0.5)) / 1 = 0.75
    assert_eq!(as_float(jitter_coord(0, 1, HALF, 1)), 0.75);
    // (3 + 0.5 * (0 + 0.25)) / 4 = 0.78125
    assert_eq!(as_float(jitter_coord(3, 0, UNIT / 4, 4)), 0.78125);
    assert_eq!(jitter_coord(0, 0, 0, 1), 0);
    assert_eq!(jitter_coord(0, 1, UNIT - 1, 1), UNIT - 1);
}

#[test]
fn jitter_coord_lands_in_the_requested_half() {
    let grid: u64 = 8;
    let draws: [u64; 4] = [0, 1, HALF, UNIT - 1];
    for i in 0..grid {
        for h in 0..2u64 {
            for d in draws {
                let v: u64 = jitter_coord(i, h, d, grid);
                assert!(v < UNIT);
                assert_eq!(cell_of(v, grid), i);
                assert_eq!(half_of(v, grid), h);
                assert_eq!(cell_of(v, 2 * grid), 2 * i + h);
            }
        }
    }
}

#[test]
fn generate_point_draws_x_then_y() {
    let mut rng = DrawSource::replay(vec![0, HALF]);
    let q = generate_point(&mut rng, 1, 0, 0, 1, 2);
    assert_eq!(q, (jitter_coord(1, 0, 0, 2), jitter_coord(0, 1, HALF, 2)));
    assert_eq!((as_float(q.0), as_float(q.1)), (0.5, 0.375));
}

#[test]
fn replay_cycles_through_the_script() {
    let mut rng = DrawSource::replay(vec![1, 2, 3]);
    let got: Vec<u64> = (0..7).map(|_| rng.next()).collect();
    assert_eq!(got, vec![1, 2, 3, 1, 2, 3, 1]);
}

#[test]
fn a_script_must_hold_draws_only() {
    assert!(DrawSource::accepts(&vec![0]));
    assert!(DrawSource::accepts(&vec![1, HALF, UNIT - 1]));
    assert!(!DrawSource::accepts(&Vec::new()));
    assert!(!DrawSource::accepts(&vec![UNIT]));
    assert!(!DrawSource::accepts(&vec![1, 2, u64::MAX]));
}

#[test]
fn replay_hands_out_entries_as_they_are() {
    let mut rng = DrawSource::replay(vec![1, UNIT - 1]);
    assert_eq!(rng.next(), 1);
    assert_eq!(rng.next(), UNIT - 1);
    assert_eq!(rng.next(), 1);
}

#[test]
fn thread_draws_are_below_unit_and_vary() {
    let mut rng = DrawSource::thread();
    let first: u64 = rng.next();
    let mut varied = false;
    for _ in 0..1000 {
        let d: u64 = rng.next();
        assert!(d < UNIT);
        if d != first {
            varied = true;
        }
    }
    assert!(varied);
}

#[test]
fn capacities_are_the_powers_of_two_up_to_two_to_the_30() {
    assert!(is_capacity(1));
    assert!(is_capacity(2));
    assert!(is_capacity(1024));
    assert!(is_capacity(1 << 30));
    assert!(!is_capacity(0));
    assert!(!is_capacity(3));
    assert!(!is_capacity(1000));
    assert!(!is_capacity(1 << 31));
}
