use textcore::{GutterMark, GutterMarkShape};

const GREEN: (u8, u8, u8) = (0, 255, 0);
const RED: (u8, u8, u8) = (255, 0, 0);

#[test]
fn a_bar_covers_its_rows_and_a_boundary_covers_one() {
    let bar = GutterMark::bar(2..5, GREEN);
    assert!(!bar.covers(1));
    assert!(bar.covers(2));
    assert!(bar.covers(4));
    assert!(!bar.covers(5));

    let boundary = GutterMark::boundary(3, RED);
    assert!(boundary.covers(3));
    assert!(!boundary.covers(2));
    assert!(!boundary.covers(4));
}

#[test]
fn a_mark_overlaps_the_rows_in_view_it_draws_on() {
    let bar = GutterMark::bar(2..5, GREEN);
    assert_eq!(bar.shape, GutterMarkShape::Bar);
    assert!(bar.overlaps(0, 2));
    assert!(bar.overlaps(4, 9));
    assert!(!bar.overlaps(5, 9));
    assert!(!bar.overlaps(0, 1));

    let boundary = GutterMark::boundary(3, RED);
    assert_eq!(boundary.shape, GutterMarkShape::Boundary);
    assert_eq!(boundary.rows, 3..3);
    assert!(boundary.overlaps(3, 3));
    assert!(boundary.overlaps(0, 3));
    assert!(!boundary.overlaps(4, 8));
    assert!(!boundary.overlaps(0, 2));
}

#[test]
fn a_cloned_mark_is_the_same_mark() {
    let bar = GutterMark::bar(1..4, GREEN);
    assert_eq!(bar.clone(), bar);
}
