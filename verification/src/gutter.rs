//! Marks painted in the gutter, beside the line numbers.
//!
//! A gutter mark says something about a whole buffer row without touching
//! the text: the usual caller draws which lines were added, rewritten or
//! taken out. `C` is the caller's colour type; nothing here reads it.

use std::ops::Range;
use vstd::prelude::*;

verus! {

/// How one mark is drawn.
#[derive(Debug, Clone, Copy, PartialEq, Eq)]
pub enum GutterMarkShape {
    /// A bar covering every row in the range, full row height.
    Bar,
    /// A short bar on the boundary above `rows.start`, for something that is
    /// no longer in the buffer and so has no row of its own.
    Boundary,
}

/// One mark in the gutter.
#[derive(Debug, PartialEq)]
pub struct GutterMark<C> {
    /// Buffer rows the mark covers, counted from zero, end exclusive. A
    /// boundary mark uses `start` only, and its range may be empty.
    pub rows: Range<usize>,
    pub color: C,
    pub shape: GutterMarkShape,
}

impl<C: Clone> Clone for GutterMark<C> {
    fn clone(&self) -> (copy: Self)
        ensures
            copy.rows == self.rows,
            copy.shape == self.shape,
            cloned::<C>(self.color, copy.color),
    {
        GutterMark { rows: self.rows.start..self.rows.end, color: self.color.clone(), shape: self.shape }
    }
}

impl<C> GutterMark<C> {
    /// The rows this mark applies to.
    pub open spec fn covers_spec(&self, row: usize) -> bool {
        match self.shape {
            GutterMarkShape::Bar => self.rows.start <= row < self.rows.end,
            GutterMarkShape::Boundary => self.rows.start == row,
        }
    }

    /// Whether the mark has anything to draw between rows `first` and `last`.
    pub open spec fn overlaps_spec(&self, first: usize, last: usize) -> bool {
        match self.shape {
            GutterMarkShape::Bar => self.rows.start <= last && self.rows.end > first,
            GutterMarkShape::Boundary => first <= self.rows.start <= last,
        }
    }

    /// A bar over `rows`.
    pub fn bar(rows: Range<usize>, color: C) -> (mark: Self)
        ensures
            mark.rows == rows,
            mark.color == color,
            mark.shape == GutterMarkShape::Bar,
    {
        Self { rows, color, shape: GutterMarkShape::Bar }
    }

    /// A short mark on the boundary above `row`.
    pub fn boundary(row: usize, color: C) -> (mark: Self)
        ensures
            mark.rows.start == row,
            mark.rows.end == row,
            mark.color == color,
            mark.shape == GutterMarkShape::Boundary,
    {
        Self { rows: row..row, color, shape: GutterMarkShape::Boundary }
    }

    /// Whether this mark has anything to draw between `first` and `last`.
    pub fn overlaps(&self, first: usize, last: usize) -> (r: bool)
        ensures
            r == self.overlaps_spec(first, last),
    {
        match self.shape {
            GutterMarkShape::Bar => self.rows.start <= last && self.rows.end > first,
            GutterMarkShape::Boundary => self.rows.start >= first && self.rows.start <= last,
        }
    }

    /// Whether this mark applies to `row`.
    pub fn covers(&self, row: usize) -> (r: bool)
        ensures
            r == self.covers_spec(row),
    {
        match self.shape {
            GutterMarkShape::Bar => self.rows.contains(&row),
            GutterMarkShape::Boundary => self.rows.start == row,
        }
    }
}

/// A mark that applies to a row between `first` and `last` has something to
/// draw there.
pub proof fn lemma_a_covered_row_in_view_is_drawn<C>(mark: GutterMark<C>, row: usize, first: usize, last: usize)
    requires
        mark.covers_spec(row),
        first <= row <= last,
    ensures
        mark.overlaps_spec(first, last),
{
}

/// And the other way: a mark with something to draw between `first` and
/// `last` applies to a row there, unless it is a bar over no rows at all.
pub proof fn lemma_a_drawn_mark_covers_a_row_in_view<C>(mark: GutterMark<C>, first: usize, last: usize)
    requires
        mark.overlaps_spec(first, last),
        first <= last,
        mark.shape == GutterMarkShape::Boundary || mark.rows.start < mark.rows.end,
    ensures
        exists|row: usize| first <= row <= last && #[trigger] mark.covers_spec(row),
{
    let row = if mark.rows.start >= first { mark.rows.start } else { first };
    assert(mark.covers_spec(row));
}

} // verus!
