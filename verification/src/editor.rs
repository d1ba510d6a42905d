//! An editor's rows: the buffer lines a display map draws, the phantom blocks
//! drawn above them, and the gutter marks beside them.

use crate::gutter::GutterMark;
use crate::phantom::{
    display_row_at_visual_row, display_row_at_visual_row_spec, rows_at, rows_at_spec, rows_before,
    rows_before_spec, rows_total, rows_total_spec, sort_by_row, sorted_by_row, total_rows, block_at,
    first_at, PhantomLines, drawn_rows, lemma_drawn_rows_at_most_total,
};
use vstd::prelude::*;

verus! {

/// Where one buffer line is drawn.
#[derive(Debug, Clone, Copy, PartialEq, Eq)]
pub struct LineLayout {
    /// A fold hides the line.
    pub hidden: bool,
    /// The display row the line is drawn at (for a hidden line, the row of
    /// the fold that hides it).
    pub display_row: usize,
}

/// A fold a caller pins, from buffer line `start` to buffer line `end`.
///
/// It folds like any other: its first and last line stay visible and only
/// the lines between them are hidden, so a caller that wants lines `a`
/// through `b` gone asks for `a - 1` to `b + 1`, and a fold over fewer than
/// three lines hides nothing.
#[derive(Debug, Clone, Copy, PartialEq, Eq)]
pub struct FoldRange {
    pub start: usize,
    pub end: usize,
}

impl FoldRange {
    /// The lines the fold hides: those strictly between its first and last.
    pub open spec fn hides_spec(&self, line: usize) -> bool {
        self.start < line < self.end
    }

    /// Whether the fold hides buffer line `line`.
    pub fn hides(&self, line: usize) -> (hidden: bool)
        ensures
            hidden == self.hides_spec(line),
    {
        self.start < line && line < self.end
    }
}

/// A fold keeps its first and last line in view, and one over fewer than
/// three lines hides nothing at all.
pub proof fn lemma_a_fold_keeps_its_ends(fold: FoldRange, line: usize)
    ensures
        !fold.hides_spec(fold.start),
        !fold.hides_spec(fold.end),
        fold.end < fold.start + 2 ==> !fold.hides_spec(line),
{
}

/// Some fold of `folds` hides `line`.
pub open spec fn pinned_hides(folds: Seq<FoldRange>, line: usize) -> bool {
    exists|i: int| 0 <= i < folds.len() && (#[trigger] folds[i]).hides_spec(line)
}

/// What the phantom rows read of an editor's display map: for each buffer
/// line, whether the reader's folds hide it and which display row it is drawn
/// at; the folds a caller pinned, which hide lines too; and how many display
/// rows there are.
#[derive(Debug, Clone)]
pub struct DisplayMap {
    lines: Vec<LineLayout>,
    pinned: Vec<FoldRange>,
    display_row_count: usize,
}

/// Every pinned fold is folded whole, not just the first: a line strictly
/// between the first and last line of any one of them is hidden, and a line
/// that no fold of the reader's hides and that lies strictly inside none of
/// them stays in view.
pub proof fn lemma_every_pinned_fold_hides_its_inner_lines(map: DisplayMap, line: usize)
    requires
        line < map.lines().len(),
    ensures
        forall|i: int|
            0 <= i < map.pins().len() && (#[trigger] map.pins()[i]).start < line && line < map.pins()[i].end
                ==> map.line_hidden(line),
        !map.lines()[line as int].hidden && (forall|i: int|
            0 <= i < map.pins().len() ==> !((#[trigger] map.pins()[i]).start < line && line < map.pins()[i].end))
            ==> !map.line_hidden(line),
{
}

impl DisplayMap {
    pub closed spec fn lines(&self) -> Seq<LineLayout> {
        self.lines@
    }

    pub closed spec fn pins(&self) -> Seq<FoldRange> {
        self.pinned@
    }

    /// A fold hides buffer line `row`: one of the reader's, or a pinned one.
    pub open spec fn line_hidden(&self, row: usize) -> bool {
        self.lines()[row as int].hidden || pinned_hides(self.pins(), row)
    }

    pub closed spec fn row_count(&self) -> usize {
        self.display_row_count
    }

    /// A display map with one entry per buffer line.
    pub fn new(lines: Vec<LineLayout>, display_row_count: usize) -> (map: Self)
        ensures
            map.lines() == lines@,
            map.pins().len() == 0,
            map.row_count() == display_row_count,
    {
        DisplayMap { lines, pinned: Vec::new(), display_row_count }
    }

    /// Replace the folds a caller has pinned; the reader's own folds stay as
    /// they are.
    pub fn set_pinned_folds(&mut self, folds: Vec<FoldRange>)
        ensures
            final(self).pins() == folds@,
            final(self).lines() == old(self).lines(),
            final(self).row_count() == old(self).row_count(),
    {
        self.pinned = folds;
    }

    /// The folds a caller has pinned.
    pub fn pinned_folds(&self) -> (folds: &[FoldRange])
        ensures
            folds@ == self.pins(),
    {
        self.pinned.as_slice()
    }

    /// How many lines the buffer holds.
    pub fn buffer_line_count(&self) -> (n: usize)
        ensures
            n == self.lines().len(),
    {
        self.lines.len()
    }

    /// Whether a fold hides buffer line `row`: one of the reader's, or one a
    /// caller pinned.
    pub fn is_buffer_line_hidden(&self, row: usize) -> (hidden: bool)
        requires
            row < self.lines().len(),
        ensures
            hidden == self.line_hidden(row),
            hidden == (self.lines()[row as int].hidden || exists|i: int|
                0 <= i < self.pins().len() && (#[trigger] self.pins()[i]).start < row
                    && row < self.pins()[i].end),
    {
        if self.lines[row].hidden {
            return true;
        }
        let mut i: usize = 0;
        while i < self.pinned.len()
            invariant
                i <= self.pinned@.len(),
                forall|j: int| 0 <= j < i ==> !(#[trigger] self.pinned@[j]).hides_spec(row),
            decreases self.pinned@.len() - i,
        {
            if self.pinned[i].hides(row) {
                return true;
            }
            i += 1;
        }
        false
    }

    /// The display row buffer line `row` is drawn at.
    pub fn buffer_line_to_display_row(&self, row: usize) -> (d: usize)
        requires
            row < self.lines().len(),
        ensures
            d == self.lines()[row as int].display_row,
    {
        self.lines[row].display_row
    }

    /// How many display rows there are.
    pub fn display_row_count(&self) -> (n: usize)
        ensures
            n == self.row_count(),
    {
        self.display_row_count
    }
}

/// The row state of an editor: its display map, the phantom blocks drawn
/// above buffer rows (kept in row order), and the gutter marks.
pub struct InputBaseState<C> {
    display_map: DisplayMap,
    phantom_lines: Vec<PhantomLines<C>>,
    gutter_marks: Vec<GutterMark<C>>,
}

impl<C> InputBaseState<C> {
    pub closed spec fn phantom_blocks(&self) -> Seq<PhantomLines<C>> {
        self.phantom_lines@
    }

    pub closed spec fn marks(&self) -> Seq<GutterMark<C>> {
        self.gutter_marks@
    }

    pub closed spec fn layout(&self) -> DisplayMap {
        self.display_map
    }

    /// Whether the row a block sits above is drawn: a row past the last line
    /// of the buffer always is, any other when no fold hides it.
    pub open spec fn row_on_screen(&self, row: usize) -> bool {
        row >= self.layout().lines().len() || !self.layout().line_hidden(row)
    }

    /// The display row a block above `row` is drawn at: past the last line of
    /// the buffer, the display row after the last one.
    pub open spec fn row_display_row(&self, row: usize) -> usize {
        if row >= self.layout().lines().len() {
            self.layout().row_count()
        } else {
            self.layout().lines()[row as int].display_row
        }
    }

    /// The phantom rows all fit in a `usize` past every display row.
    pub open spec fn rows_fit(&self) -> bool {
        &&& total_rows(self.phantom_blocks()) <= usize::MAX
        &&& self.layout().row_count() + total_rows(self.phantom_blocks()) <= usize::MAX
        &&& forall|i: int|
            0 <= i < self.layout().lines().len() ==> #[trigger] self.layout().lines()[i].display_row
                + total_rows(self.phantom_blocks()) <= usize::MAX
    }

    /// An editor with no phantom blocks and no gutter marks.
    pub fn new(display_map: DisplayMap) -> (state: Self)
        ensures
            state.layout() == display_map,
            state.phantom_blocks().len() == 0,
            state.marks().len() == 0,
    {
        InputBaseState { display_map, phantom_lines: Vec::new(), gutter_marks: Vec::new() }
    }

    /// The display map the rows are read from.
    pub fn display_map(&self) -> (map: &DisplayMap)
        ensures
            *map == self.layout(),
    {
        &self.display_map
    }

    /// Whether the row a block sits above is drawn at all.
    ///
    /// A block past the last line of the buffer is always drawn: it stands
    /// for lines taken from the end of a file, and no fold can hide it.
    pub fn phantom_row_on_screen(&self, row: usize) -> (shown: bool)
        ensures
            shown == self.row_on_screen(row),
    {
        row >= self.display_map.buffer_line_count() || !self.display_map.is_buffer_line_hidden(row)
    }

    /// The display row a block above `row` is drawn at.
    pub fn phantom_display_row(&self, row: usize) -> (d: usize)
        ensures
            d == self.row_display_row(row),
    {
        if row >= self.display_map.buffer_line_count() {
            self.display_map.display_row_count()
        } else {
            self.display_map.buffer_line_to_display_row(row)
        }
    }

    /// The rows of every drawn block above buffer line `row` that does not
    /// sit on it.
    pub fn phantom_rows_before(&self, row: usize) -> (n: usize)
        requires
            total_rows(self.phantom_blocks()) <= usize::MAX,
        ensures
            n == rows_before_spec(self.phantom_blocks(), row, |r: usize| self.row_on_screen(r)),
    {
        let on_screen = |r: usize| -> (shown: bool)
            ensures
                shown == self.row_on_screen(r),
            { self.phantom_row_on_screen(r) };
        proof {
            lemma_drawn_rows_at_most_total(self.phantom_blocks(), on_screen);
        }
        let n = rows_before(self.phantom_lines.as_slice(), row, on_screen);
        proof {
            let shown = |r: usize| self.row_on_screen(r);
            assert(crate::phantom::decides(on_screen, shown));
        }
        n
    }

    /// The rows of the drawn block sitting directly above buffer line `row`.
    pub fn phantom_rows_at(&self, row: usize) -> (n: usize)
        ensures
            n == rows_at_spec(self.phantom_blocks(), row, |r: usize| self.row_on_screen(r)),
    {
        let on_screen = |r: usize| -> (shown: bool)
            ensures
                shown == self.row_on_screen(r),
            { self.phantom_row_on_screen(r) };
        let n = rows_at(self.phantom_lines.as_slice(), row, on_screen);
        proof {
            let shown = |r: usize| self.row_on_screen(r);
            assert(crate::phantom::decides(on_screen, shown));
        }
        n
    }

    /// The block sitting directly above buffer line `row`, if it is drawn.
    pub fn phantom_block_at(&self, row: usize) -> (found: Option<&PhantomLines<C>>)
        ensures
            found is Some <==> (first_at(self.phantom_blocks(), row) < self.phantom_blocks().len()
                && self.row_on_screen(row)),
            found matches Some(b) ==> *b == self.phantom_blocks()[first_at(self.phantom_blocks(), row)],
    {
        let on_screen = |r: usize| -> (shown: bool)
            ensures
                shown == self.row_on_screen(r),
            { self.phantom_row_on_screen(r) };
        let found = block_at(self.phantom_lines.as_slice(), row, on_screen);
        proof {
            let shown = |r: usize| self.row_on_screen(r);
            assert(crate::phantom::decides(on_screen, shown));
        }
        found
    }

    /// Every drawn phantom row in the buffer.
    pub fn phantom_rows_total(&self) -> (n: usize)
        requires
            total_rows(self.phantom_blocks()) <= usize::MAX,
        ensures
            n == rows_total_spec(self.phantom_blocks(), |r: usize| self.row_on_screen(r)),
    {
        let on_screen = |r: usize| -> (shown: bool)
            ensures
                shown == self.row_on_screen(r),
            { self.phantom_row_on_screen(r) };
        proof {
            lemma_drawn_rows_at_most_total(self.phantom_blocks(), on_screen);
        }
        let n = rows_total(self.phantom_lines.as_slice(), on_screen);
        proof {
            let shown = |r: usize| self.row_on_screen(r);
            assert(crate::phantom::decides(on_screen, shown));
        }
        n
    }

    /// The display row drawn at `visual_row`, counting the phantom rows above
    /// it.
    pub fn display_row_at_visual_row(&self, visual_row: usize) -> (d: usize)
        requires
            self.rows_fit(),
        ensures
            d <= crate::phantom::last_row(self.layout().row_count()),
            d == display_row_at_visual_row_spec(
                self.phantom_blocks(),
                visual_row,
                |r: usize| self.row_on_screen(r),
                |r: usize| self.row_display_row(r),
                self.layout().row_count(),
            ),
    {
        let on_screen = |r: usize| -> (shown: bool)
            ensures
                shown == self.row_on_screen(r),
            { self.phantom_row_on_screen(r) };
        let display_row_of = |r: usize| -> (d: usize)
            ensures
                d == self.row_display_row(r),
            { self.phantom_display_row(r) };
        proof {
            let blocks = self.phantom_blocks();
            lemma_drawn_rows_at_most_total(blocks, on_screen);
            assert forall|i: int, d: usize|
                0 <= i < blocks.len() && call_ensures(on_screen, (blocks[i].row,), true)
                    && #[trigger] call_ensures(display_row_of, (blocks[i].row,), d) implies d
                + drawn_rows(blocks, on_screen) <= usize::MAX by {
                let r = blocks[i].row;
                if r < self.layout().lines().len() {
                    assert(self.layout().lines()[r as int].display_row + total_rows(blocks) <= usize::MAX);
                }
            }
        }
        let d = display_row_at_visual_row(
            self.phantom_lines.as_slice(),
            visual_row,
            display_row_of,
            on_screen,
            self.display_map.display_row_count(),
        );
        proof {
            let shown = |r: usize| self.row_on_screen(r);
            let place = |r: usize| self.row_display_row(r);
            assert(crate::phantom::decides(on_screen, shown));
            assert(crate::phantom::places(display_row_of, place));
        }
        d
    }

    /// Replace every phantom block. They are kept sorted by row, blocks on one
    /// row in the order given, because everything that reads them walks them
    /// in order.
    pub fn set_phantom_lines(&mut self, blocks: Vec<PhantomLines<C>>)
        ensures
            final(self).phantom_blocks() == sorted_by_row(blocks@),
            final(self).layout() == old(self).layout(),
            final(self).marks() == old(self).marks(),
    {
        self.phantom_lines = sort_by_row(blocks);
    }

    /// Remove every phantom block.
    pub fn clear_phantom_lines(&mut self)
        ensures
            final(self).phantom_blocks().len() == 0,
            final(self).layout() == old(self).layout(),
            final(self).marks() == old(self).marks(),
    {
        self.set_phantom_lines(Vec::new());
    }

    /// The blocks currently set, in row order.
    pub fn phantom_lines(&self) -> (blocks: &[PhantomLines<C>])
        ensures
            blocks@ == self.phantom_blocks(),
    {
        self.phantom_lines.as_slice()
    }

    /// Replace the folds this caller has pinned. Each is folded whole, like
    /// any other fold; clearing them leaves the reader's own folds as they
    /// were. Pinned folds are addressed by buffer line and do not follow
    /// edits.
    pub fn set_folded_ranges(&mut self, ranges: Vec<FoldRange>)
        ensures
            final(self).layout().pins() == ranges@,
            final(self).layout().lines() == old(self).layout().lines(),
            final(self).layout().row_count() == old(self).layout().row_count(),
            final(self).phantom_blocks() == old(self).phantom_blocks(),
            final(self).marks() == old(self).marks(),
    {
        self.display_map.set_pinned_folds(ranges);
    }

    /// Unfold everything this caller pinned, leaving the reader's own folds.
    pub fn clear_folded_ranges(&mut self)
        ensures
            final(self).layout().pins().len() == 0,
            final(self).layout().lines() == old(self).layout().lines(),
            final(self).layout().row_count() == old(self).layout().row_count(),
            final(self).phantom_blocks() == old(self).phantom_blocks(),
            final(self).marks() == old(self).marks(),
    {
        self.set_folded_ranges(Vec::new());
    }

    /// Replace every gutter mark.
    pub fn set_gutter_marks(&mut self, marks: Vec<GutterMark<C>>)
        ensures
            final(self).marks() == marks@,
            final(self).layout() == old(self).layout(),
            final(self).phantom_blocks() == old(self).phantom_blocks(),
    {
        self.gutter_marks = marks;
    }

    /// Remove every gutter mark.
    pub fn clear_gutter_marks(&mut self)
        ensures
            final(self).marks().len() == 0,
            final(self).layout() == old(self).layout(),
            final(self).phantom_blocks() == old(self).phantom_blocks(),
    {
        self.set_gutter_marks(Vec::new());
    }

    /// The marks currently set.
    pub fn gutter_marks(&self) -> (marks: &[GutterMark<C>])
        ensures
            marks@ == self.marks(),
    {
        self.gutter_marks.as_slice()
    }
}

} // verus!
