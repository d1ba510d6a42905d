use textcore::{DisplayMap, FoldRange, GutterMark, InputBaseState, LineLayout, PhantomLines};

fn block(row: usize, rows: usize) -> PhantomLines<u8> {
    PhantomLines::new(row, vec!["gone".into(); rows], 0)
}

fn shown(display_row: usize) -> LineLayout {
    LineLayout { hidden: false, display_row }
}

fn folded(display_row: usize) -> LineLayout {
    LineLayout { hidden: true, display_row }
}

/// Ten lines, each on its own display row.
fn plain_map() -> DisplayMap {
    DisplayMap::new((0..10).map(shown).collect(), 10)
}

#[test]
fn blocks_are_kept_in_row_order_and_same_row_blocks_in_the_order_given() {
    let mut state: InputBaseState<u8> = InputBaseState::new(plain_map());
    let blocks = vec![
        PhantomLines::new(5, vec!["e".into()], 1),
        PhantomLines::new(2, vec!["b".into()], 2),
        PhantomLines::new(5, vec!["f".into()], 3),
        PhantomLines::new(0, vec!["a".into()], 4),
        PhantomLines::new(2, vec!["c".into()], 5),
    ];
    state.set_phantom_lines(blocks);
    let rows: Vec<(usize, u8)> = state.phantom_lines().iter().map(|b| (b.row, b.color)).collect();
    assert_eq!(rows, vec![(0, 4), (2, 2), (2, 5), (5, 1), (5, 3)]);

    state.clear_phantom_lines();
    assert!(state.phantom_lines().is_empty());
}

#[test]
fn a_block_above_a_folded_line_is_hidden_with_it() {
    // Line 3 is folded away; lines 4.. move up one display row.
    let lines = vec![shown(0), shown(1), shown(2), folded(2), shown(3), shown(4)];
    let mut state: InputBaseState<u8> = InputBaseState::new(DisplayMap::new(lines, 5));
    state.set_phantom_lines(vec![block(3, 2), block(4, 1)]);

    assert!(!state.phantom_row_on_screen(3));
    assert!(state.phantom_row_on_screen(4));
    assert_eq!(state.phantom_rows_at(3), 0);
    assert!(state.phantom_block_at(3).is_none());
    assert_eq!(state.phantom_rows_at(4), 1);
    assert_eq!(state.phantom_rows_before(5), 1);
    assert_eq!(state.phantom_rows_total(), 1);

    // Line 4 is drawn at display row 3, under its one phantom row.
    assert_eq!(state.phantom_display_row(4), 3);
    assert_eq!(state.display_row_at_visual_row(2), 2);
    assert_eq!(state.display_row_at_visual_row(3), 3);
    assert_eq!(state.display_row_at_visual_row(4), 3);
    assert_eq!(state.display_row_at_visual_row(5), 4);
}

#[test]
fn a_block_past_the_last_line_is_always_drawn_below_everything() {
    let mut state: InputBaseState<u8> = InputBaseState::new(DisplayMap::new(vec![shown(0), shown(1)], 2));
    state.set_phantom_lines(vec![block(2, 3)]);
    assert!(state.phantom_row_on_screen(2));
    assert!(state.phantom_row_on_screen(40));
    assert_eq!(state.phantom_display_row(2), 2);
    assert_eq!(state.phantom_rows_total(), 3);
    assert_eq!(state.phantom_rows_before(2), 0);
    assert_eq!(state.phantom_rows_at(2), 3);
    // Rows past the buffer clamp to its last display row.
    assert_eq!(state.display_row_at_visual_row(1), 1);
    assert_eq!(state.display_row_at_visual_row(3), 1);
    assert_eq!(state.display_row_at_visual_row(9), 1);
}

#[test]
fn gutter_marks_read_back_as_they_were_set() {
    let mut state: InputBaseState<u8> = InputBaseState::new(plain_map());
    assert!(state.gutter_marks().is_empty());
    let marks = vec![GutterMark::bar(1..3, 7), GutterMark::boundary(5, 8)];
    state.set_gutter_marks(marks.clone());
    assert_eq!(state.gutter_marks(), marks.as_slice());
    state.clear_gutter_marks();
    assert!(state.gutter_marks().is_empty());
}

#[test]
fn a_display_map_answers_what_it_was_given() {
    let map = DisplayMap::new(vec![shown(0), folded(0), shown(1)], 2);
    assert_eq!(map.buffer_line_count(), 3);
    assert!(map.is_buffer_line_hidden(1));
    assert!(!map.is_buffer_line_hidden(2));
    assert_eq!(map.buffer_line_to_display_row(2), 1);
    assert_eq!(map.display_row_count(), 2);
    let state: InputBaseState<u8> = InputBaseState::new(map);
    assert_eq!(state.display_map().buffer_line_count(), 3);
}

#[test]
fn a_pinned_fold_hides_only_the_lines_between_its_ends() {
    let fold = FoldRange { start: 2, end: 5 };
    assert!(!fold.hides(2));
    assert!(fold.hides(3));
    assert!(fold.hides(4));
    assert!(!fold.hides(5));
    // Fewer than three lines hide nothing.
    let short = FoldRange { start: 4, end: 5 };
    assert!((0..10).all(|line| !short.hides(line)));
}

#[test]
fn pinned_folds_hide_phantom_blocks_and_clearing_them_keeps_the_readers_folds() {
    let lines = vec![shown(0), shown(1), folded(1), shown(2), shown(3), shown(4), shown(5)];
    let mut state: InputBaseState<u8> = InputBaseState::new(DisplayMap::new(lines, 6));
    state.set_phantom_lines(vec![block(4, 2), block(2, 1)]);
    assert_eq!(state.phantom_rows_total(), 2);

    // Lines 3 and 4 gone: ask for 2 to 5.
    state.set_folded_ranges(vec![FoldRange { start: 2, end: 5 }]);
    assert!(state.display_map().is_buffer_line_hidden(3));
    assert!(state.display_map().is_buffer_line_hidden(4));
    assert!(!state.display_map().is_buffer_line_hidden(5));
    assert!(!state.phantom_row_on_screen(4));
    assert_eq!(state.phantom_rows_total(), 0);
    assert_eq!(state.display_map().pinned_folds(), &[FoldRange { start: 2, end: 5 }]);

    state.clear_folded_ranges();
    assert!(state.display_map().pinned_folds().is_empty());
    // Line 2 stays folded by the reader; line 4 is back.
    assert!(state.display_map().is_buffer_line_hidden(2));
    assert!(!state.display_map().is_buffer_line_hidden(4));
    assert_eq!(state.phantom_rows_total(), 2);
}
