use stratified::fixed::{cell_of, UNIT};
use stratified::{DrawSource, ElementaryElement, ElementaryElement02, HVElementaryElement};

const EIGHTH: u64 = UNIT / 8;

#[test]
fn slices_are_free_after_reinitialize() {
    let mut e = HVElementaryElement::default();
    e.reinitialize(4);
    for c in 0..4u64 {
        assert!(!e.valid_x(c * 2 * EIGHTH));
        assert!(!e.valid_y(c * 2 * EIGHTH));
    }
}

#[test]
fn update_claims_one_slice_on_each_axis() {
    let mut e = HVElementaryElement::default();
    e.reinitialize(4);
    e.update((3 * EIGHTH, 6 * EIGHTH));
    assert!(e.valid_x(2 * EIGHTH));
    assert!(e.valid_x(4 * EIGHTH - 1));
    assert!(!e.valid_x(4 * EIGHTH));
    assert!(!e.valid_x(EIGHTH));
    assert!(e.valid_y(7 * EIGHTH));
    assert!(!e.valid_y(3 * EIGHTH));
    e.reinitialize(4);
    assert!(!e.valid_x(3 * EIGHTH));
}

#[test]
fn slices_generate_skips_claimed_slices() {
    let mut e = HVElementaryElement::default();
    e.reinitialize(4);
    // Claims x slice 0 and y slice 0.
    e.update((EIGHTH, EIGHTH));
    // In the cell (0, 0) of the 1 by 1 grid, half 0 holds slices 0 and 1.
    // Draw 0.25 gives 0.125 (slice 0, taken), draw 0.75 gives 0.375 (slice 1).
    // The first candidate has a taken x slice, the second a taken y slice.
    let mut rng = DrawSource::replay(vec![UNIT / 4, 3 * (UNIT / 4), 3 * (UNIT / 4)]);
    let p = e.generate(0, 0, 0, 0, 1, &mut rng, 10).unwrap();
    assert_eq!(p, (3 * EIGHTH, 3 * EIGHTH));
    assert_eq!(rng.next(), UNIT / 4);
}

#[test]
fn slices_generate_turns_down_a_candidate_as_a_whole() {
    let mut e = HVElementaryElement::default();
    e.reinitialize(4);
    // Claims x slice 0 and y slice 2.
    e.update((EIGHTH / 2, 5 * EIGHTH));
    let q: u64 = UNIT / 4;
    // The first candidate, (0.625, 0.625), has a free x slice and a taken y
    // slice: its x is not kept. The second is (0.875, 0.875).
    let mut rng = DrawSource::replay(vec![q, q, 3 * q, 3 * q, 0]);
    let p = e.generate(0, 0, 1, 1, 1, &mut rng, 10).unwrap();
    assert_eq!(p, (7 * EIGHTH, 7 * EIGHTH));
    // Four draws were used.
    assert_eq!(rng.next(), 0);
}

#[test]
fn slices_generate_gives_up_after_the_limit() {
    let mut e = HVElementaryElement::default();
    e.reinitialize(2);
    e.update((EIGHTH, EIGHTH));
    let mut rng = DrawSource::replay(vec![UNIT / 4]);
    assert_eq!(e.generate(0, 0, 0, 0, 1, &mut rng, 5), None);
    assert_eq!(e.generate(0, 0, 0, 0, 1, &mut rng, 0), None);
    assert_eq!(e.generate_x(0, 0, 1, &mut rng, 3), None);
    assert_eq!(e.generate_y(0, 1, 1, &mut rng, 3), Some(5 * EIGHTH));
}

#[test]
fn boxes_of_every_shape_are_claimed() {
    let mut e = ElementaryElement02::default();
    e.reinitialize(4);
    assert!(!e.valid((EIGHTH, EIGHTH)));
    // x in [0.25, 0.5), y in [0.75, 1).
    e.update((3 * EIGHTH, 7 * EIGHTH));
    // Same column of four.
    assert!(e.valid((2 * EIGHTH, 0)));
    // Same row of four.
    assert!(e.valid((7 * EIGHTH, 6 * EIGHTH)));
    // Same quadrant of the two by two shape.
    assert!(e.valid((0, 4 * EIGHTH)));
    // Other column, other row, other quadrant.
    assert!(!e.valid((5 * EIGHTH, EIGHTH)));
    assert!(!e.valid((0, 2 * EIGHTH)));
}

#[test]
fn boxes_generate_skips_claimed_boxes() {
    let mut e = ElementaryElement02::default();
    e.reinitialize(2);
    e.update((5 * EIGHTH, 5 * EIGHTH));
    // Cell (0, 0) of the 1 by 1 grid, sub-quadrant (0, 0): any point there
    // shares neither half with the claimed point.
    let mut rng = DrawSource::replay(vec![UNIT / 2, UNIT / 4]);
    let p = e.generate(0, 0, 0, 0, 1, &mut rng, 4).unwrap();
    assert_eq!(p, (2 * EIGHTH, EIGHTH));
    assert_eq!(cell_of(p.0, 2), 0);
    // Sub-quadrant (1, 0) shares the x half with the claimed point.
    assert_eq!(e.generate(0, 0, 1, 0, 1, &mut rng, 4), None);
}

#[test]
fn capacity_one_has_one_shape() {
    let mut e = ElementaryElement02::default();
    e.reinitialize(1);
    assert!(!e.valid((0, 0)));
    e.update((UNIT - 1, UNIT - 1));
    assert!(e.valid((0, 0)));
}
