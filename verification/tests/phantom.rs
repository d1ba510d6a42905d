use textcore::{block_at, display_row_at_visual_row, rows_at, rows_before, rows_total, PhantomLines};

const RED: (u8, u8, u8) = (255, 0, 0);

fn block(row: usize, rows: usize) -> PhantomLines<(u8, u8, u8)> {
    PhantomLines::new(row, vec!["gone".into(); rows], RED)
}

/// A block sits above the row it names, so its rows count as "above" that
/// row and as "before" every row under it.
#[test]
fn a_block_counts_above_its_own_row_and_before_the_rows_under_it() {
    let blocks = vec![block(3, 2), block(8, 1)];
    let shown = |_: usize| true;

    assert_eq!(rows_before(&blocks, 3, shown), 0);
    assert_eq!(rows_at(&blocks, 3, shown), 2);
    assert_eq!(rows_before(&blocks, 4, shown), 2);
    assert_eq!(rows_before(&blocks, 8, shown), 2);
    assert_eq!(rows_at(&blocks, 8, shown), 1);
    assert_eq!(rows_before(&blocks, 9, shown), 3);
    assert_eq!(rows_total(&blocks, shown), 3);
}

/// A block whose row a fold has hidden is hidden with it.
#[test]
fn a_block_on_a_folded_row_is_not_counted() {
    let blocks = vec![block(3, 2), block(8, 1)];
    let shown = |row: usize| row != 3;

    assert_eq!(rows_at(&blocks, 3, shown), 0);
    assert_eq!(rows_before(&blocks, 9, shown), 1);
    assert_eq!(rows_total(&blocks, shown), 1);
    assert!(block_at(&blocks, 3, shown).is_none());
    assert!(block_at(&blocks, 8, shown).is_some());
}

/// The reader's row and the buffer's row are the same until a block is
/// passed, and a row inside a block belongs to the row the block sits above.
#[test]
fn a_visual_row_maps_back_to_the_display_row_drawn_there() {
    let blocks = vec![block(3, 2)];
    let same = |row: usize| row;
    let shown = |_: usize| true;

    assert_eq!(display_row_at_visual_row(&blocks, 0, same, shown, 10), 0);
    assert_eq!(display_row_at_visual_row(&blocks, 2, same, shown, 10), 2);
    assert_eq!(display_row_at_visual_row(&blocks, 3, same, shown, 10), 3);
    assert_eq!(display_row_at_visual_row(&blocks, 4, same, shown, 10), 3);
    assert_eq!(display_row_at_visual_row(&blocks, 5, same, shown, 10), 3);
    assert_eq!(display_row_at_visual_row(&blocks, 6, same, shown, 10), 4);
    assert_eq!(display_row_at_visual_row(&blocks, 99, same, shown, 10), 9);
}

/// Two blocks stack, and the second one's rows are found past the first.
#[test]
fn two_blocks_each_shift_what_is_under_them() {
    let blocks = vec![block(1, 1), block(4, 2)];
    let same = |row: usize| row;
    let shown = |_: usize| true;

    assert_eq!(display_row_at_visual_row(&blocks, 1, same, shown, 20), 1);
    assert_eq!(display_row_at_visual_row(&blocks, 2, same, shown, 20), 1);
    assert_eq!(display_row_at_visual_row(&blocks, 3, same, shown, 20), 2);
    assert_eq!(display_row_at_visual_row(&blocks, 5, same, shown, 20), 4);
    assert_eq!(display_row_at_visual_row(&blocks, 6, same, shown, 20), 4);
    assert_eq!(display_row_at_visual_row(&blocks, 7, same, shown, 20), 4);
    assert_eq!(display_row_at_visual_row(&blocks, 8, same, shown, 20), 5);
}

/// An empty list is the common case, and must change nothing.
#[test]
fn no_blocks_leaves_every_row_where_it_was() {
    let none: Vec<PhantomLines<(u8, u8, u8)>> = Vec::new();
    let same = |row: usize| row;
    let shown = |_: usize| true;

    assert_eq!(rows_total(&none, shown), 0);
    assert_eq!(rows_before(&none, 5, shown), 0);
    assert_eq!(display_row_at_visual_row(&none, 7, same, shown, 10), 7);
}

#[test]
fn a_block_on_a_folded_row_leaves_the_visual_rows_alone() {
    let blocks = vec![block(3, 2), block(6, 1)];
    let same = |row: usize| row;
    let hidden_three = |row: usize| row != 3;
    assert_eq!(display_row_at_visual_row(&blocks, 3, same, hidden_three, 10), 3);
    assert_eq!(display_row_at_visual_row(&blocks, 5, same, hidden_three, 10), 5);
    assert_eq!(display_row_at_visual_row(&blocks, 6, same, hidden_three, 10), 6);
    assert_eq!(display_row_at_visual_row(&blocks, 7, same, hidden_three, 10), 6);
    assert_eq!(display_row_at_visual_row(&blocks, 8, same, hidden_three, 10), 7);
}

#[test]
fn an_empty_display_clamps_to_row_zero() {
    let blocks = vec![block(0, 3)];
    let same = |row: usize| row;
    let shown = |_: usize| true;
    assert_eq!(display_row_at_visual_row(&blocks, 2, same, shown, 0), 0);
    assert_eq!(display_row_at_visual_row(&blocks, 50, same, shown, 0), 0);
}

#[test]
fn each_visual_row_of_a_line_maps_back_to_it() {
    // Every visual row a line takes (its block's rows, then its own) maps
    // back to that line, wherever the blocks are.
    let blocks = vec![block(0, 1), block(2, 3), block(5, 2)];
    let same = |row: usize| row;
    let shown = |_: usize| true;
    for line in 0..9usize {
        let first = line + rows_before(&blocks, line, shown);
        for offset in 0..=rows_at(&blocks, line, shown) {
            assert_eq!(display_row_at_visual_row(&blocks, first + offset, same, shown, 9), line);
        }
    }
}

#[test]
fn only_the_first_block_on_a_row_is_found() {
    let blocks = vec![block(2, 1), block(2, 4)];
    let shown = |_: usize| true;
    assert_eq!(rows_at(&blocks, 2, shown), 1);
    assert_eq!(block_at(&blocks, 2, shown).map(|b| b.lines.len()), Some(1));
    assert_eq!(rows_before(&blocks, 3, shown), 5);
}

#[test]
fn a_block_is_built_with_its_colours() {
    let b = PhantomLines::new(4, vec!["a".to_string(), "b".to_string()], 1u8)
        .background(2)
        .mark(3);
    assert_eq!(b.row, 4);
    assert_eq!(b.rows(), 2);
    assert_eq!(b.color, 1);
    assert_eq!(b.background, Some(2));
    assert_eq!(b.mark, Some(3));
    let plain = PhantomLines::new(0, Vec::new(), 1u8);
    assert_eq!(plain.background, None);
    assert_eq!(plain.mark, None);
    assert_eq!(plain.rows(), 0);
}

#[test]
fn visual_rows_further_down_never_show_an_earlier_line() {
    let blocks = vec![block(1, 2), block(1, 1), block(4, 3)];
    let same = |row: usize| row;
    let hide_four = |row: usize| row != 4;
    let mut previous = 0;
    for visual in 0..20 {
        let row = display_row_at_visual_row(&blocks, visual, same, hide_four, 12);
        assert!(row >= previous && row <= 11);
        previous = row;
    }
    for row in 0..8 {
        assert!(rows_before(&blocks, row, hide_four) <= rows_total(&blocks, hide_four));
    }
}
