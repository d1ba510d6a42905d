//! What holds across the phantom-row functions: how counting rows above a
//! line and mapping a visual row back to a display row fit together.

use crate::phantom::{insert_by_row, sorted_by_row, 
    block_rows, first_at, lemma_first_at, minus_or_zero, rows_at_spec, rows_before_spec,
    rows_total_spec, smaller, visual_walk, display_row_at_visual_row_spec, last_row, PhantomLines,
};
use vstd::prelude::*;

verus! {

/// Every block sits above a different row, and they come in row order.
pub open spec fn rows_strictly_increase<C>(blocks: Seq<PhantomLines<C>>) -> bool {
    forall|i: int, j: int| 0 <= i < j < blocks.len() ==> #[trigger] blocks[i].row < #[trigger] blocks[j].row
}

/// No two blocks sit above the same row.
pub open spec fn rows_distinct<C>(blocks: Seq<PhantomLines<C>>) -> bool {
    forall|i: int, j: int| 0 <= i < j < blocks.len() ==> #[trigger] blocks[i].row != #[trigger] blocks[j].row
}

/// Of two drawn buffer lines, the later one is drawn on a later display row.
pub open spec fn places_increase(shown: spec_fn(usize) -> bool, place: spec_fn(usize) -> usize) -> bool {
    forall|r1: usize, r2: usize|
        #![trigger place(r1), place(r2)]
        shown(r1) && shown(r2) && r1 < r2 ==> place(r1) < place(r2)
}

/// `rows_before_spec` read from the front: the first block's rows, if it is
/// drawn above an earlier row, and then the rest.
proof fn lemma_rows_before_front<C>(t: Seq<PhantomLines<C>>, row: usize, shown: spec_fn(usize) -> bool)
    requires
        t.len() > 0,
    ensures
        rows_before_spec(t, row, shown) == (if t[0].row < row && shown(t[0].row) {
            block_rows(t[0])
        } else {
            0
        }) + rows_before_spec(t.drop_first(), row, shown),
    decreases t.len(),
{
    if t.len() > 1 {
        let a = t.drop_last();
        let d = t.drop_first();
        lemma_rows_before_front(a, row, shown);
        assert(a[0] == t[0]);
        assert(a.drop_first() =~= d.drop_last());
        assert(d.last() == t.last());
        assert(rows_before_spec(t, row, shown) == rows_before_spec(a, row, shown) + (if t.last().row
            < row && shown(t.last().row) {
            block_rows(t.last())
        } else {
            0
        }));
        assert(rows_before_spec(d, row, shown) == rows_before_spec(d.drop_last(), row, shown) + (
        if d.last().row < row && shown(d.last().row) {
            block_rows(d.last())
        } else {
            0
        }));
    } else {
        assert(t.drop_first().len() == 0);
        assert(t.drop_last().len() == 0);
        assert(t.last() == t[0]);
        assert(rows_before_spec(t.drop_first(), row, shown) == 0);
        assert(rows_before_spec(t.drop_last(), row, shown) == 0);
    }
}

/// With every block above a row before `row`, counting the rows before `row`
/// counts every drawn row.
pub proof fn lemma_rows_before_past_every_block_is_the_total<C>(
    blocks: Seq<PhantomLines<C>>,
    row: usize,
    shown: spec_fn(usize) -> bool,
)
    requires
        forall|i: int| 0 <= i < blocks.len() ==> #[trigger] blocks[i].row < row,
    ensures
        rows_before_spec(blocks, row, shown) == rows_total_spec(blocks, shown),
    decreases blocks.len(),
{
    if blocks.len() > 0 {
        lemma_rows_before_past_every_block_is_the_total(blocks.drop_last(), row, shown);
        assert(blocks.last().row < row);
    }
}

/// The rows before any row are at most every drawn row.
pub proof fn lemma_rows_before_are_at_most_the_total<C>(
    blocks: Seq<PhantomLines<C>>,
    row: usize,
    shown: spec_fn(usize) -> bool,
)
    ensures
        rows_before_spec(blocks, row, shown) <= rows_total_spec(blocks, shown),
    decreases blocks.len(),
{
    if blocks.len() > 0 {
        lemma_rows_before_are_at_most_the_total(blocks.drop_last(), row, shown);
    }
}

/// A block on a row that is not drawn is not drawn either: it adds no rows
/// above its own row.
pub proof fn lemma_a_block_on_a_hidden_row_takes_no_rows<C>(
    blocks: Seq<PhantomLines<C>>,
    row: usize,
    shown: spec_fn(usize) -> bool,
)
    requires
        !shown(row),
    ensures
        rows_at_spec(blocks, row, shown) == 0,
{
}

/// The rows of a block count above its own row and before every row under
/// it: the rows before the next row are the rows before this one and the rows
/// of the block sitting on it.
pub proof fn lemma_a_block_counts_before_the_next_row<C>(
    blocks: Seq<PhantomLines<C>>,
    row: usize,
    shown: spec_fn(usize) -> bool,
)
    requires
        rows_distinct(blocks),
        row < usize::MAX,
    ensures
        rows_before_spec(blocks, (row + 1) as usize, shown) == rows_before_spec(blocks, row, shown)
            + rows_at_spec(blocks, row, shown),
    decreases blocks.len(),
{
    if blocks.len() > 0 {
        let t = blocks.drop_first();
        assert(rows_distinct(t)) by {
            assert forall|i: int, j: int| 0 <= i < j < t.len() implies #[trigger] t[i].row
                != #[trigger] t[j].row by {
                assert(t[i] == blocks[i + 1]);
                assert(t[j] == blocks[j + 1]);
            }
        }
        lemma_a_block_counts_before_the_next_row(t, row, shown);
        lemma_rows_before_front(blocks, (row + 1) as usize, shown);
        lemma_rows_before_front(blocks, row, shown);
        lemma_first_at(blocks, row);
        lemma_first_at(t, row);
        if blocks[0].row == row {
            assert(first_at(blocks, row) == 0);
            assert(first_at(t, row) == t.len()) by {
                if first_at(t, row) < t.len() {
                    assert(t[first_at(t, row)] == blocks[first_at(t, row) + 1]);
                }
            }
        } else {
            assert(first_at(blocks, row) == 1 + first_at(t, row));
            if first_at(t, row) < t.len() {
                assert(t[first_at(t, row)] == blocks[first_at(t, row) + 1]);
            }
        }
    }
}

/// Walking blocks that all start below `visual` answers with the row that
/// many phantom rows up.
proof fn lemma_walk_before_every_block<C>(
    t: Seq<PhantomLines<C>>,
    visual: int,
    above: int,
    shown: spec_fn(usize) -> bool,
    place: spec_fn(usize) -> usize,
    last: int,
)
    requires
        forall|i: int| 0 <= i < t.len() && shown(t[i].row) ==> visual < place(#[trigger] t[i].row) + above,
    ensures
        visual_walk(t, visual, above, shown, place, last) == smaller(minus_or_zero(visual, above), last),
    decreases t.len(),
{
    if t.len() > 0 && !shown(t[0].row) {
        let u = t.drop_first();
        assert forall|i: int| 0 <= i < u.len() && shown(u[i].row) implies visual < place(
            #[trigger] u[i].row,
        ) + above by {
            assert(u[i] == t[i + 1]);
        }
        lemma_walk_before_every_block(u, visual, above, shown, place, last);
    }
}

proof fn lemma_walk_finds_the_line<C>(
    t: Seq<PhantomLines<C>>,
    r: usize,
    k: int,
    above: int,
    visual: int,
    shown: spec_fn(usize) -> bool,
    place: spec_fn(usize) -> usize,
    last: int,
)
    requires
        rows_strictly_increase(t),
        places_increase(shown, place),
        shown(r),
        0 <= k <= rows_at_spec(t, r, shown),
        0 <= above,
        visual == place(r) + above + rows_before_spec(t, r, shown) + k,
    ensures
        visual_walk(t, visual, above, shown, place, last) == smaller(place(r) as int, last),
    decreases t.len(),
{
    lemma_first_at(t, r);
    if t.len() == 0 {
    } else {
        let b = t[0];
        let u = t.drop_first();
        assert(rows_strictly_increase(u)) by {
            assert forall|i: int, j: int| 0 <= i < j < u.len() implies #[trigger] u[i].row
                < #[trigger] u[j].row by {
                assert(u[i] == t[i + 1]);
                assert(u[j] == t[j + 1]);
            }
        }
        lemma_rows_before_front(t, r, shown);
        lemma_first_at(u, r);
        if b.row < r || (b.row > r) || !shown(b.row) {
            if b.row != r {
                assert(first_at(t, r) == 1 + first_at(u, r));
                if first_at(u, r) < u.len() {
                    assert(u[first_at(u, r)] == t[first_at(u, r) + 1]);
                }
                assert(rows_at_spec(t, r, shown) == rows_at_spec(u, r, shown));
            }
        }
        if !shown(b.row) {
            assert(b.row != r);
            lemma_walk_finds_the_line(u, r, k, above, visual, shown, place, last);
        } else if b.row < r {
            assert(place(b.row) < place(r));
            lemma_walk_finds_the_line(u, r, k, above + block_rows(b), visual, shown, place, last);
        } else {
            // Every block from here on sits below `r`, so none of them counts
            // before it.
            assert forall|i: int| 0 <= i < u.len() implies #[trigger] u[i].row > r by {
                assert(u[i] == t[i + 1]);
            }
            lemma_rows_before_nothing_earlier(u, r, shown);
            if b.row == r {
                assert(first_at(t, r) == 0);
                if k < block_rows(b) {
                } else {
                    assert forall|i: int| 0 <= i < u.len() && shown(u[i].row) implies visual < place(
                        #[trigger] u[i].row,
                    ) + above + block_rows(b) by {
                        assert(u[i] == t[i + 1]);
                        assert(place(r) < place(u[i].row));
                    }
                    lemma_walk_before_every_block(u, visual, above + block_rows(b), shown, place, last);
                }
            } else {
                assert(place(r) < place(b.row));
                assert(first_at(u, r) == u.len()) by {
                    if first_at(u, r) < u.len() {
                        assert(u[first_at(u, r)].row > r);
                    }
                }
                assert(k == 0);
            }
        }
    }
}

proof fn lemma_rows_before_nothing_earlier<C>(t: Seq<PhantomLines<C>>, r: usize, shown: spec_fn(usize) -> bool)
    requires
        forall|i: int| 0 <= i < t.len() ==> #[trigger] t[i].row > r,
    ensures
        rows_before_spec(t, r, shown) == 0,
    decreases t.len(),
{
    if t.len() > 0 {
        lemma_rows_before_nothing_earlier(t.drop_last(), r, shown);
        assert(t.last().row > r);
    }
}

/// The reader's row and the buffer's row agree: every visual row a drawn line
/// takes, the rows of the block above it and the line's own row after them,
/// maps back to the display row of that line (clamped to the last row).
///
/// A line's own text is drawn at its display row plus every phantom row
/// before it plus the rows of its own block. This holds when no two blocks sit
/// above the same row, the blocks come in row order, and later drawn lines are
/// on later display rows.
pub proof fn lemma_visual_rows_of_a_line_map_back_to_it<C>(
    blocks: Seq<PhantomLines<C>>,
    row: usize,
    offset: nat,
    visual_row: usize,
    shown: spec_fn(usize) -> bool,
    place: spec_fn(usize) -> usize,
    display_count: usize,
)
    requires
        rows_strictly_increase(blocks),
        places_increase(shown, place),
        shown(row),
        offset <= rows_at_spec(blocks, row, shown),
        visual_row == place(row) + rows_before_spec(blocks, row, shown) + offset,
    ensures
        display_row_at_visual_row_spec(blocks, visual_row, shown, place, display_count) == smaller(
            place(row) as int,
            last_row(display_count),
        ),
{
    lemma_walk_finds_the_line(
        blocks,
        row,
        offset as int,
        0,
        visual_row as int,
        shown,
        place,
        last_row(display_count),
    );
}

proof fn lemma_walk_at_most_last<C>(
    t: Seq<PhantomLines<C>>,
    visual: int,
    above: int,
    shown: spec_fn(usize) -> bool,
    place: spec_fn(usize) -> usize,
    last: int,
)
    ensures
        visual_walk(t, visual, above, shown, place, last) <= last,
        0 <= last ==> 0 <= visual_walk(t, visual, above, shown, place, last),
    decreases t.len(),
{
    if t.len() > 0 {
        let b = t[0];
        lemma_walk_at_most_last(t.drop_first(), visual, above, shown, place, last);
        lemma_walk_at_most_last(t.drop_first(), visual, above + block_rows(b), shown, place, last);
    }
}

/// The display row a visual row maps to is never past the last display row
/// (row zero when there are none).
pub proof fn lemma_visual_row_maps_within_the_display<C>(
    blocks: Seq<PhantomLines<C>>,
    visual_row: usize,
    shown: spec_fn(usize) -> bool,
    place: spec_fn(usize) -> usize,
    display_count: usize,
)
    ensures
        0 <= display_row_at_visual_row_spec(blocks, visual_row, shown, place, display_count)
            <= last_row(display_count),
{
    lemma_walk_at_most_last(blocks, visual_row as int, 0, shown, place, last_row(display_count));
}

/// The blocks of `blocks` that are drawn, in order.
pub open spec fn drawn_blocks<C>(blocks: Seq<PhantomLines<C>>, shown: spec_fn(usize) -> bool) -> Seq<
    PhantomLines<C>,
>
    decreases blocks.len(),
{
    if blocks.len() == 0 {
        blocks
    } else if shown(blocks[0].row) {
        seq![blocks[0]] + drawn_blocks(blocks.drop_first(), shown)
    } else {
        drawn_blocks(blocks.drop_first(), shown)
    }
}

proof fn lemma_walk_drawn_only<C>(
    t: Seq<PhantomLines<C>>,
    visual: int,
    above: int,
    shown: spec_fn(usize) -> bool,
    place: spec_fn(usize) -> usize,
    last: int,
)
    ensures
        visual_walk(t, visual, above, shown, place, last) == visual_walk(
            drawn_blocks(t, shown),
            visual,
            above,
            shown,
            place,
            last,
        ),
    decreases t.len(),
{
    if t.len() > 0 {
        let d = drawn_blocks(t, shown);
        lemma_walk_drawn_only(t.drop_first(), visual, above, shown, place, last);
        lemma_walk_drawn_only(t.drop_first(), visual, above + block_rows(t[0]), shown, place, last);
        if shown(t[0].row) {
            assert(d[0] == t[0]);
            assert(d.drop_first() =~= drawn_blocks(t.drop_first(), shown));
        }
    }
}

/// A block on a row that is not drawn shifts nothing: the visual rows map as
/// if only the drawn blocks were there, and with none drawn every visual row
/// is the display row of the same number, clamped to the last row.
pub proof fn lemma_hidden_blocks_shift_nothing<C>(
    blocks: Seq<PhantomLines<C>>,
    visual_row: usize,
    shown: spec_fn(usize) -> bool,
    place: spec_fn(usize) -> usize,
    display_count: usize,
)
    ensures
        display_row_at_visual_row_spec(blocks, visual_row, shown, place, display_count)
            == display_row_at_visual_row_spec(drawn_blocks(blocks, shown), visual_row, shown, place, display_count),
        drawn_blocks(blocks, shown).len() == 0 ==> display_row_at_visual_row_spec(
            blocks,
            visual_row,
            shown,
            place,
            display_count,
        ) == smaller(visual_row as int, last_row(display_count)),
{
    lemma_walk_drawn_only(blocks, visual_row as int, 0, shown, place, last_row(display_count));
}

/// Of two drawn buffer lines, the later one is drawn on the same display row
/// or a later one.
pub open spec fn places_nondecreasing(shown: spec_fn(usize) -> bool, place: spec_fn(usize) -> usize) -> bool {
    forall|r1: usize, r2: usize|
        #![trigger place(r1), place(r2)]
        shown(r1) && shown(r2) && r1 <= r2 ==> place(r1) <= place(r2)
}

/// Walking blocks whose drawn rows all start at `floor` or later, from a
/// visual row at or past `floor + above`, never answers a row before `floor`
/// (clamped to the last row).
proof fn lemma_walk_at_least<C>(
    t: Seq<PhantomLines<C>>,
    visual: int,
    above: int,
    floor: int,
    shown: spec_fn(usize) -> bool,
    place: spec_fn(usize) -> usize,
    last: int,
)
    requires
        rows_nondecreasing(t),
        forall|i: int| 0 <= i < t.len() && shown(t[i].row) ==> floor <= place(#[trigger] t[i].row),
        visual >= floor + above,
        0 <= floor,
        0 <= above,
    ensures
        visual_walk(t, visual, above, shown, place, last) >= smaller(floor, last),
    decreases t.len(),
{
    if t.len() > 0 {
        let b = t[0];
        let u = t.drop_first();
        assert(rows_nondecreasing(u)) by {
            assert forall|i: int, j: int| 0 <= i <= j < u.len() implies #[trigger] u[i].row
                <= #[trigger] u[j].row by {
                assert(u[i] == t[i + 1]);
                assert(u[j] == t[j + 1]);
            }
        }
        assert forall|i: int| 0 <= i < u.len() && shown(u[i].row) implies floor <= place(
            #[trigger] u[i].row,
        ) by {
            assert(u[i] == t[i + 1]);
        }
        if !shown(b.row) {
            lemma_walk_at_least(u, visual, above, floor, shown, place, last);
        } else {
            assert(floor <= place(b.row));
            let top = place(b.row) + above;
            if visual >= top + block_rows(b) {
                lemma_walk_at_least(u, visual, above + block_rows(b), floor, shown, place, last);
            }
        }
    }
}

/// A visual row further down never shows an earlier display row: the map
/// from visual rows to display rows is non-decreasing, when the blocks come in
/// row order and later drawn lines are drawn no higher.
pub proof fn lemma_visual_rows_map_in_order<C>(
    blocks: Seq<PhantomLines<C>>,
    v1: usize,
    v2: usize,
    shown: spec_fn(usize) -> bool,
    place: spec_fn(usize) -> usize,
    display_count: usize,
)
    requires
        rows_nondecreasing(blocks),
        places_nondecreasing(shown, place),
        v1 <= v2,
    ensures
        display_row_at_visual_row_spec(blocks, v1, shown, place, display_count)
            <= display_row_at_visual_row_spec(blocks, v2, shown, place, display_count),
{
    lemma_walk_in_order(blocks, v1 as int, v2 as int, 0, shown, place, last_row(display_count));
}

proof fn lemma_walk_in_order<C>(
    t: Seq<PhantomLines<C>>,
    v1: int,
    v2: int,
    above: int,
    shown: spec_fn(usize) -> bool,
    place: spec_fn(usize) -> usize,
    last: int,
)
    requires
        rows_nondecreasing(t),
        places_nondecreasing(shown, place),
        v1 <= v2,
        0 <= above,
    ensures
        visual_walk(t, v1, above, shown, place, last) <= visual_walk(t, v2, above, shown, place, last),
    decreases t.len(),
{
    if t.len() > 0 {
        let b = t[0];
        let u = t.drop_first();
        assert(rows_nondecreasing(u)) by {
            assert forall|i: int, j: int| 0 <= i <= j < u.len() implies #[trigger] u[i].row
                <= #[trigger] u[j].row by {
                assert(u[i] == t[i + 1]);
                assert(u[j] == t[j + 1]);
            }
        }
        if !shown(b.row) {
            lemma_walk_in_order(u, v1, v2, above, shown, place, last);
        } else {
            let top = place(b.row) + above;
            let rows = block_rows(b);
            if v1 >= top + rows {
                lemma_walk_in_order(u, v1, v2, above + rows, shown, place, last);
            } else if v2 >= top + rows {
                assert forall|i: int| 0 <= i < u.len() && shown(u[i].row) implies place(b.row)
                    <= place(#[trigger] u[i].row) by {
                    assert(u[i] == t[i + 1]);
                    assert(b.row <= t[i + 1].row);
                }
                lemma_walk_at_least(u, v2, above + rows, place(b.row) as int, shown, place, last);
            }
        }
    }
}

/// With no blocks every visual row is the display row of the same number,
/// clamped to the last row.
pub proof fn lemma_no_blocks_leave_every_row_in_place<C>(
    blocks: Seq<PhantomLines<C>>,
    visual_row: usize,
    shown: spec_fn(usize) -> bool,
    place: spec_fn(usize) -> usize,
    display_count: usize,
)
    requires
        blocks.len() == 0,
    ensures
        display_row_at_visual_row_spec(blocks, visual_row, shown, place, display_count) == smaller(
            visual_row as int,
            last_row(display_count),
        ),
        rows_total_spec(blocks, shown) == 0,
{
}

/// The blocks come in row order (two may share a row).
pub open spec fn rows_nondecreasing<C>(blocks: Seq<PhantomLines<C>>) -> bool {
    forall|i: int, j: int| 0 <= i <= j < blocks.len() ==> #[trigger] blocks[i].row <= #[trigger] blocks[j].row
}

/// The blocks of `blocks` that sit above row `row`, in the order they come.
pub open spec fn blocks_on_row<C>(blocks: Seq<PhantomLines<C>>, row: usize) -> Seq<PhantomLines<C>>
    decreases blocks.len(),
{
    if blocks.len() == 0 {
        blocks
    } else if blocks[0].row == row {
        seq![blocks[0]] + blocks_on_row(blocks.drop_first(), row)
    } else {
        blocks_on_row(blocks.drop_first(), row)
    }
}

proof fn lemma_insert_keeps_row_order<C>(blocks: Seq<PhantomLines<C>>, block: PhantomLines<C>)
    requires
        rows_nondecreasing(blocks),
    ensures
        rows_nondecreasing(insert_by_row(blocks, block)),
        insert_by_row(blocks, block).len() == blocks.len() + 1,
        insert_by_row(blocks, block)[0].row == block.row || (blocks.len() > 0
            && insert_by_row(blocks, block)[0] == blocks[0]),
    decreases blocks.len(),
{
    let out = insert_by_row(blocks, block);
    if blocks.len() == 0 || block.row <= blocks[0].row {
        assert forall|i: int, j: int| 0 <= i <= j < out.len() implies #[trigger] out[i].row
            <= #[trigger] out[j].row by {
            if i > 0 {
                assert(out[i] == blocks[i - 1]);
                assert(out[j] == blocks[j - 1]);
            } else if j > 0 {
                assert(out[j] == blocks[j - 1]);
                assert(blocks[0].row <= blocks[j - 1].row);
            }
        }
    } else {
        let rest = blocks.drop_first();
        assert(rows_nondecreasing(rest)) by {
            assert forall|i: int, j: int| 0 <= i <= j < rest.len() implies #[trigger] rest[i].row
                <= #[trigger] rest[j].row by {
                assert(rest[i] == blocks[i + 1]);
                assert(rest[j] == blocks[j + 1]);
            }
        }
        lemma_insert_keeps_row_order(rest, block);
        let tail = insert_by_row(rest, block);
        assert forall|i: int, j: int| 0 <= i <= j < out.len() implies #[trigger] out[i].row
            <= #[trigger] out[j].row by {
            if i > 0 {
                assert(out[i] == tail[i - 1]);
                assert(out[j] == tail[j - 1]);
            } else if j > 0 {
                assert(out[j] == tail[j - 1]);
                assert(tail[0].row <= tail[j - 1].row);
                if tail[0].row == block.row {
                } else {
                    assert(tail[0] == rest[0]);
                    assert(rest[0] == blocks[1]);
                }
            }
        }
    }
}

/// Setting phantom blocks puts them in row order.
pub proof fn lemma_sorted_blocks_come_in_row_order<C>(blocks: Seq<PhantomLines<C>>)
    ensures
        rows_nondecreasing(sorted_by_row(blocks)),
        sorted_by_row(blocks).len() == blocks.len(),
    decreases blocks.len(),
{
    if blocks.len() > 0 {
        lemma_sorted_blocks_come_in_row_order(blocks.drop_first());
        lemma_insert_keeps_row_order(sorted_by_row(blocks.drop_first()), blocks[0]);
    }
}

proof fn lemma_insert_on_row<C>(blocks: Seq<PhantomLines<C>>, block: PhantomLines<C>, row: usize)
    ensures
        blocks_on_row(insert_by_row(blocks, block), row) == if block.row == row {
            seq![block] + blocks_on_row(blocks, row)
        } else {
            blocks_on_row(blocks, row)
        },
    decreases blocks.len(),
{
    let out = insert_by_row(blocks, block);
    if blocks.len() == 0 || block.row <= blocks[0].row {
        assert(out.drop_first() =~= blocks);
    } else {
        let rest = blocks.drop_first();
        lemma_insert_on_row(rest, block, row);
        assert(out.drop_first() =~= insert_by_row(rest, block));
        if blocks[0].row == row {
            assert(block.row != row);
        }
    }
}

/// Sorting keeps the blocks on each row, in the order they were given: it
/// only moves blocks on different rows past each other.
pub proof fn lemma_sorting_keeps_each_rows_blocks_in_order<C>(blocks: Seq<PhantomLines<C>>, row: usize)
    ensures
        blocks_on_row(sorted_by_row(blocks), row) == blocks_on_row(blocks, row),
    decreases blocks.len(),
{
    if blocks.len() > 0 {
        lemma_sorting_keeps_each_rows_blocks_in_order(blocks.drop_first(), row);
        lemma_insert_on_row(sorted_by_row(blocks.drop_first()), blocks[0], row);
    }
}

} // verus!
