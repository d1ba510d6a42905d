//! Lines drawn in the editor that the buffer does not hold.
//!
//! A phantom block is a run of lines shown directly above one buffer row. It
//! takes the height of the rows it draws, so everything below it moves down,
//! and it is not text: the caret cannot reach it and saving never writes it.
//! Blocks are addressed by buffer row and do not follow edits.
//!
//! `C` is the colour type the caller draws with; nothing here reads it.

use vstd::prelude::*;

verus! {

/// A run of lines shown above a buffer row, which the buffer does not hold.
#[derive(Debug, Clone, PartialEq)]
pub struct PhantomLines<C> {
    /// The buffer row this block sits above, counted from zero. The line count
    /// itself puts the block after the last line of the buffer.
    pub row: usize,
    /// The lines, in order. Each is drawn at one row's height.
    pub lines: Vec<String>,
    /// The colour the lines are drawn in.
    pub color: C,
    /// A wash painted across each of the block's rows, when there is one.
    pub background: Option<C>,
    /// A bar drawn in the gutter beside the block's rows, when there is one.
    pub mark: Option<C>,
}

impl<C> PhantomLines<C> {
    /// A block of `lines` above `row`, drawn in `color`.
    pub fn new(row: usize, lines: Vec<String>, color: C) -> (block: Self)
        ensures
            block.row == row,
            block.lines@ == lines@,
            block.color == color,
            block.background is None,
            block.mark is None,
    {
        Self { row, lines, color, background: None, mark: None }
    }

    /// Paint `color` across each of the block's rows.
    pub fn background(self, color: C) -> (block: Self)
        ensures
            block == (PhantomLines { background: Some(color), ..self }),
    {
        let mut block = self;
        block.background = Some(color);
        block
    }

    /// Draw a bar in `color` beside the block's rows, in the gutter.
    pub fn mark(self, color: C) -> (block: Self)
        ensures
            block == (PhantomLines { mark: Some(color), ..self }),
    {
        let mut block = self;
        block.mark = Some(color);
        block
    }

    /// How many rows the block takes.
    pub fn rows(&self) -> (n: usize)
        ensures
            n == block_rows(*self),
    {
        self.lines.len()
    }
}

/// How many rows a block takes: one per line.
pub open spec fn block_rows<C>(block: PhantomLines<C>) -> nat {
    block.lines@.len()
}

/// The rows of every block in `blocks`, whether drawn or not.
pub open spec fn total_rows<C>(blocks: Seq<PhantomLines<C>>) -> nat
    decreases blocks.len(),
{
    if blocks.len() == 0 {
        0
    } else {
        total_rows(blocks.drop_last()) + block_rows(blocks.last())
    }
}

/// `shown` is the answer `on_screen` gives for every row.
pub open spec fn decides<F: Fn(usize) -> bool>(on_screen: F, shown: spec_fn(usize) -> bool) -> bool {
    forall|r: usize, b: bool| #[trigger] call_ensures(on_screen, (r,), b) ==> b == shown(r)
}

/// `place` is the answer `display_row_of` gives for every row.
pub open spec fn places<F: Fn(usize) -> usize>(display_row_of: F, place: spec_fn(usize) -> usize) -> bool {
    forall|r: usize, d: usize| #[trigger] call_ensures(display_row_of, (r,), d) ==> d == place(r)
}

/// The rows of the drawn blocks that sit above a row before `row`.
pub open spec fn rows_before_spec<C>(
    blocks: Seq<PhantomLines<C>>,
    row: usize,
    shown: spec_fn(usize) -> bool,
) -> nat
    decreases blocks.len(),
{
    if blocks.len() == 0 {
        0
    } else {
        rows_before_spec(blocks.drop_last(), row, shown) + if blocks.last().row < row && shown(
            blocks.last().row,
        ) {
            block_rows(blocks.last())
        } else {
            0
        }
    }
}

/// The rows of every drawn block.
pub open spec fn rows_total_spec<C>(blocks: Seq<PhantomLines<C>>, shown: spec_fn(usize) -> bool) -> nat
    decreases blocks.len(),
{
    if blocks.len() == 0 {
        0
    } else {
        rows_total_spec(blocks.drop_last(), shown) + if shown(blocks.last().row) {
            block_rows(blocks.last())
        } else {
            0
        }
    }
}

/// The index of the first block that sits above `row`; the length of
/// `blocks` when none does.
pub open spec fn first_at<C>(blocks: Seq<PhantomLines<C>>, row: usize) -> int
    decreases blocks.len(),
{
    if blocks.len() == 0 {
        0
    } else if blocks[0].row == row {
        0
    } else {
        1 + first_at(blocks.drop_first(), row)
    }
}

/// The rows of the block drawn directly above `row`, if there is one.
pub open spec fn rows_at_spec<C>(blocks: Seq<PhantomLines<C>>, row: usize, shown: spec_fn(usize) -> bool) -> nat {
    let i = first_at(blocks, row);
    if i < blocks.len() && shown(row) {
        block_rows(blocks[i])
    } else {
        0
    }
}

pub proof fn lemma_first_at<C>(blocks: Seq<PhantomLines<C>>, row: usize)
    ensures
        0 <= first_at(blocks, row) <= blocks.len(),
        first_at(blocks, row) < blocks.len() ==> blocks[first_at(blocks, row)].row == row,
        forall|j: int| 0 <= j < first_at(blocks, row) ==> blocks[j].row != row,
    decreases blocks.len(),
{
    if blocks.len() > 0 && blocks[0].row != row {
        lemma_first_at(blocks.drop_first(), row);
        assert forall|j: int| 0 <= j < first_at(blocks, row) implies blocks[j].row != row by {
            if j > 0 {
                assert(blocks[j] == blocks.drop_first()[j - 1]);
            }
        }
    }
}

/// The rows of every block `on_screen` may say is drawn: those that the
/// walks below can count.
pub open spec fn drawn_rows<C, F: Fn(usize) -> bool>(blocks: Seq<PhantomLines<C>>, on_screen: F) -> nat
    decreases blocks.len(),
{
    if blocks.len() == 0 {
        0
    } else {
        drawn_rows(blocks.drop_last(), on_screen) + if call_ensures(on_screen, (blocks.last().row,), true) {
            block_rows(blocks.last())
        } else {
            0
        }
    }
}

pub proof fn lemma_drawn_rows_prefix<C, F: Fn(usize) -> bool>(blocks: Seq<PhantomLines<C>>, on_screen: F, i: int)
    requires
        0 <= i <= blocks.len(),
    ensures
        drawn_rows(blocks.subrange(0, i), on_screen) <= drawn_rows(blocks, on_screen),
    decreases blocks.len() - i,
{
    if i < blocks.len() {
        lemma_drawn_rows_prefix(blocks, on_screen, i + 1);
        assert(blocks.subrange(0, i + 1).drop_last() =~= blocks.subrange(0, i));
    } else {
        assert(blocks.subrange(0, i) =~= blocks);
    }
}

/// The rows that may be drawn are at most the rows of every block.
pub proof fn lemma_drawn_rows_at_most_total<C, F: Fn(usize) -> bool>(blocks: Seq<PhantomLines<C>>, on_screen: F)
    ensures
        drawn_rows(blocks, on_screen) <= total_rows(blocks),
    decreases blocks.len(),
{
    if blocks.len() > 0 {
        lemma_drawn_rows_at_most_total(blocks.drop_last(), on_screen);
    }
}

/// The rows of every block above buffer line `row` that does not sit on it.
///
/// `on_screen` answers whether the row a block sits above is drawn at all: a
/// block whose row a fold has hidden is hidden with it, and is not counted.
pub fn rows_before<C>(blocks: &[PhantomLines<C>], row: usize, on_screen: impl Fn(usize) -> bool) -> (n: usize)
    requires
        drawn_rows(blocks@, on_screen) <= usize::MAX,
        forall|r: usize| on_screen.requires((r,)),
    ensures
        forall|shown: spec_fn(usize) -> bool|
            decides(on_screen, shown) ==> n == rows_before_spec(blocks@, row, shown),
{
    let mut sum: usize = 0;
    let mut i: usize = 0;
    while i < blocks.len()
        invariant
            i <= blocks@.len(),
            drawn_rows(blocks@, on_screen) <= usize::MAX,
            forall|r: usize| on_screen.requires((r,)),
            sum <= drawn_rows(blocks@.subrange(0, i as int), on_screen),
            forall|shown: spec_fn(usize) -> bool|
                #![trigger decides(on_screen, shown)]
                decides(on_screen, shown) ==> sum == rows_before_spec(
                    blocks@.subrange(0, i as int),
                    row,
                    shown,
                ),
        decreases blocks@.len() - i,
    {
        let block = &blocks[i];
        let ghost prefix = blocks@.subrange(0, i + 1);
        proof {
            assert(prefix.drop_last() =~= blocks@.subrange(0, i as int));
            assert(prefix.last() == blocks@[i as int]);
            lemma_drawn_rows_prefix(blocks@, on_screen, i + 1);
        }
        if block.row < row && on_screen(block.row) {
            sum = sum + block.lines.len();
        }
        i += 1;
    }
    proof {
        assert(blocks@.subrange(0, i as int) =~= blocks@);
    }
    sum
}

/// Every phantom row in the buffer: the rows of every drawn block.
pub fn rows_total<C>(blocks: &[PhantomLines<C>], on_screen: impl Fn(usize) -> bool) -> (n: usize)
    requires
        drawn_rows(blocks@, on_screen) <= usize::MAX,
        forall|r: usize| on_screen.requires((r,)),
    ensures
        forall|shown: spec_fn(usize) -> bool|
            decides(on_screen, shown) ==> n == rows_total_spec(blocks@, shown),
{
    let mut sum: usize = 0;
    let mut i: usize = 0;
    while i < blocks.len()
        invariant
            i <= blocks@.len(),
            drawn_rows(blocks@, on_screen) <= usize::MAX,
            forall|r: usize| on_screen.requires((r,)),
            sum <= drawn_rows(blocks@.subrange(0, i as int), on_screen),
            forall|shown: spec_fn(usize) -> bool|
                #![trigger decides(on_screen, shown)]
                decides(on_screen, shown) ==> sum == rows_total_spec(
                    blocks@.subrange(0, i as int),
                    shown,
                ),
        decreases blocks@.len() - i,
    {
        let block = &blocks[i];
        let ghost prefix = blocks@.subrange(0, i + 1);
        proof {
            assert(prefix.drop_last() =~= blocks@.subrange(0, i as int));
            assert(prefix.last() == blocks@[i as int]);
            lemma_drawn_rows_prefix(blocks@, on_screen, i + 1);
        }
        if on_screen(block.row) {
            sum = sum + block.lines.len();
        }
        i += 1;
    }
    proof {
        assert(blocks@.subrange(0, i as int) =~= blocks@);
    }
    sum
}

/// The block sitting directly above buffer line `row`, if it is drawn: the
/// first block that names `row`, when `on_screen` says that row is drawn.
pub fn block_at<'a, C>(
    blocks: &'a [PhantomLines<C>],
    row: usize,
    on_screen: impl Fn(usize) -> bool,
) -> (found: Option<&'a PhantomLines<C>>)
    requires
        forall|r: usize| on_screen.requires((r,)),
    ensures
        forall|shown: spec_fn(usize) -> bool|
            #![trigger decides(on_screen, shown)]
            decides(on_screen, shown) ==> {
                &&& found is Some <==> (first_at(blocks@, row) < blocks@.len() && shown(row))
                &&& found matches Some(b) ==> *b == blocks@[first_at(blocks@, row)]
            },
{
    proof {
        lemma_first_at(blocks@, row);
    }
    let mut i: usize = 0;
    while i < blocks.len() && blocks[i].row != row
        invariant
            i <= blocks@.len(),
            forall|j: int| 0 <= j < i ==> blocks@[j].row != row,
        decreases blocks@.len() - i,
    {
        i += 1;
    }
    proof {
        let f = first_at(blocks@, row);
        if f < i {
            assert(blocks@[f].row == row);
        }
        if i < f {
            assert(blocks@[i as int].row != row);
        }
        assert(i == f);
    }
    if i == blocks.len() {
        return None;
    }
    let block = &blocks[i];
    if on_screen(block.row) {
        Some(block)
    } else {
        None
    }
}

/// The rows of the block sitting directly above buffer line `row`.
pub fn rows_at<C>(blocks: &[PhantomLines<C>], row: usize, on_screen: impl Fn(usize) -> bool) -> (n: usize)
    requires
        forall|r: usize| on_screen.requires((r,)),
    ensures
        forall|shown: spec_fn(usize) -> bool|
            decides(on_screen, shown) ==> n == rows_at_spec(blocks@, row, shown),
{
    match block_at(blocks, row, on_screen) {
        Some(block) => block.lines.len(),
        None => 0,
    }
}

/// `block` put into `blocks` just before the first block whose row is not
/// smaller than its own, so it goes ahead of every block on its row.
pub open spec fn insert_by_row<C>(blocks: Seq<PhantomLines<C>>, block: PhantomLines<C>) -> Seq<
    PhantomLines<C>,
>
    decreases blocks.len(),
{
    if blocks.len() == 0 || block.row <= blocks[0].row {
        seq![block] + blocks
    } else {
        seq![blocks[0]] + insert_by_row(blocks.drop_first(), block)
    }
}

/// `blocks` sorted by row, stably: blocks on one row keep the order they
/// were given in.
pub open spec fn sorted_by_row<C>(blocks: Seq<PhantomLines<C>>) -> Seq<PhantomLines<C>>
    decreases blocks.len(),
{
    if blocks.len() == 0 {
        blocks
    } else {
        insert_by_row(sorted_by_row(blocks.drop_first()), blocks[0])
    }
}

/// Inserting before the first block whose row is not smaller is inserting at
/// that index.
proof fn lemma_insert_by_row_at<C>(blocks: Seq<PhantomLines<C>>, block: PhantomLines<C>, at: int)
    requires
        0 <= at <= blocks.len(),
        forall|j: int| 0 <= j < at ==> #[trigger] blocks[j].row < block.row,
        at < blocks.len() ==> block.row <= blocks[at].row,
    ensures
        insert_by_row(blocks, block) == blocks.insert(at, block),
    decreases blocks.len(),
{
    if at == 0 {
        assert(seq![block] + blocks =~= blocks.insert(0, block));
    } else {
        let rest = blocks.drop_first();
        assert forall|j: int| 0 <= j < at - 1 implies #[trigger] rest[j].row < block.row by {
            assert(rest[j] == blocks[j + 1]);
        }
        if at - 1 < rest.len() {
            assert(rest[at - 1] == blocks[at]);
        }
        lemma_insert_by_row_at(rest, block, at - 1);
        assert(blocks[0].row < block.row);
        assert(seq![blocks[0]] + rest.insert(at - 1, block) =~= blocks.insert(at, block));
    }
}

/// Sort `blocks` by row, keeping blocks on one row in the order given.
pub fn sort_by_row<C>(blocks: Vec<PhantomLines<C>>) -> (sorted: Vec<PhantomLines<C>>)
    ensures
        sorted@ == sorted_by_row(blocks@),
{
    let ghost given = blocks@;
    let mut rest = blocks;
    let mut sorted: Vec<PhantomLines<C>> = Vec::new();
    proof {
        assert(given.subrange(given.len() as int, given.len() as int).len() == 0);
    }
    while rest.len() > 0
        invariant
            rest@.len() <= given.len(),
            rest@ == given.subrange(0, rest@.len() as int),
            sorted@ == sorted_by_row(given.subrange(rest@.len() as int, given.len() as int)),
        decreases rest@.len(),
    {
        let ghost before = rest@;
        let block = rest.pop().unwrap();
        let ghost k = rest@.len() as int;
        proof {
            assert(block == before[k]);
            assert(before[k] == given[k]);
            let suffix = given.subrange(k, given.len() as int);
            assert(suffix.drop_first() =~= given.subrange(k + 1, given.len() as int));
            assert(suffix[0] == block);
            assert(rest@ =~= given.subrange(0, k));
        }
        let mut at: usize = 0;
        while at < sorted.len() && sorted[at].row < block.row
            invariant
                at <= sorted@.len(),
                forall|j: int| 0 <= j < at ==> #[trigger] sorted@[j].row < block.row,
            decreases sorted@.len() - at,
        {
            at += 1;
        }
        proof {
            lemma_insert_by_row_at(sorted@, block, at as int);
        }
        sorted.insert(at, block);
    }
    proof {
        assert(given.subrange(0, given.len() as int) =~= given);
    }
    sorted
}

/// `a - b`, or zero when `b` is the larger.
pub open spec fn minus_or_zero(a: int, b: int) -> int {
    if a >= b {
        a - b
    } else {
        0
    }
}

/// The smaller of `a` and `b`.
pub open spec fn smaller(a: int, b: int) -> int {
    if a <= b {
        a
    } else {
        b
    }
}

/// The last display row of a display with `display_count` rows (zero when it
/// has none).
pub open spec fn last_row(display_count: usize) -> int {
    minus_or_zero(display_count as int, 1)
}

/// The display row drawn at visual row `visual`, walking `blocks` in order
/// with `above` phantom rows already passed.
///
/// Each drawn block takes the visual rows `place(row) + above` up to, but not
/// including, `place(row) + above + rows`, where `row` is the line it sits
/// above; a visual row inside it answers with that line's display row. A
/// visual row before the next drawn block, or past every block, is the display
/// row that many phantom rows up. Every answer is clamped to the last row.
pub open spec fn visual_walk<C>(
    blocks: Seq<PhantomLines<C>>,
    visual: int,
    above: int,
    shown: spec_fn(usize) -> bool,
    place: spec_fn(usize) -> usize,
    last: int,
) -> int
    decreases blocks.len(),
{
    if blocks.len() == 0 {
        smaller(minus_or_zero(visual, above), last)
    } else {
        let block = blocks[0];
        if !shown(block.row) {
            visual_walk(blocks.drop_first(), visual, above, shown, place, last)
        } else {
            let top = place(block.row) + above;
            if visual < top {
                smaller(minus_or_zero(visual, above), last)
            } else if visual < top + block_rows(block) {
                smaller(place(block.row) as int, last)
            } else {
                visual_walk(blocks.drop_first(), visual, above + block_rows(block), shown, place, last)
            }
        }
    }
}

/// The display row drawn at `visual_row` of `blocks`.
pub open spec fn display_row_at_visual_row_spec<C>(
    blocks: Seq<PhantomLines<C>>,
    visual_row: usize,
    shown: spec_fn(usize) -> bool,
    place: spec_fn(usize) -> usize,
    display_count: usize,
) -> int {
    visual_walk(blocks, visual_row as int, 0, shown, place, last_row(display_count))
}

/// The display row drawn at `visual_row`, counting the phantom rows above it.
///
/// A visual row is what the reader is looking at: display rows and phantom rows
/// together, all of one height. A visual row that lands inside a block answers
/// with the display row the block sits above. Past the end the answer is the
/// last display row. `blocks` are walked in order, which is the order
/// `InputBaseState::set_phantom_lines` keeps them in.
pub fn display_row_at_visual_row<C>(
    blocks: &[PhantomLines<C>],
    visual_row: usize,
    display_row_of: impl Fn(usize) -> usize,
    on_screen: impl Fn(usize) -> bool,
    display_count: usize,
) -> (r: usize)
    requires
        forall|row: usize| display_row_of.requires((row,)),
        forall|row: usize| on_screen.requires((row,)),
        forall|i: int, d: usize|
            0 <= i < blocks@.len() && call_ensures(on_screen, (blocks@[i].row,), true)
                && #[trigger] call_ensures(display_row_of, (blocks@[i].row,), d) ==> d + drawn_rows(
                blocks@,
                on_screen,
            ) <= usize::MAX,
    ensures
        r <= last_row(display_count),
        forall|shown: spec_fn(usize) -> bool, place: spec_fn(usize) -> usize|
            #![trigger decides(on_screen, shown), places(display_row_of, place)]
            decides(on_screen, shown) && places(display_row_of, place) ==> r
                == display_row_at_visual_row_spec(blocks@, visual_row, shown, place, display_count),
{
    let last = display_count.saturating_sub(1);
    let mut phantom_above: usize = 0;
    let mut i: usize = 0;
    proof {
        assert(blocks@.subrange(0, blocks@.len() as int) =~= blocks@);
    }
    while i < blocks.len()
        invariant
            i <= blocks@.len(),
            last == last_row(display_count),
            forall|row: usize| display_row_of.requires((row,)),
            forall|row: usize| on_screen.requires((row,)),
            forall|i: int, d: usize|
                0 <= i < blocks@.len() && call_ensures(on_screen, (blocks@[i].row,), true)
                    && #[trigger] call_ensures(display_row_of, (blocks@[i].row,), d) ==> d + drawn_rows(
                    blocks@,
                    on_screen,
                ) <= usize::MAX,
            phantom_above <= drawn_rows(blocks@.subrange(0, i as int), on_screen),
            forall|shown: spec_fn(usize) -> bool, place: spec_fn(usize) -> usize|
                #![trigger decides(on_screen, shown), places(display_row_of, place)]
                decides(on_screen, shown) && places(display_row_of, place) ==> visual_walk(
                    blocks@,
                    visual_row as int,
                    0,
                    shown,
                    place,
                    last as int,
                ) == visual_walk(
                    blocks@.subrange(i as int, blocks@.len() as int),
                    visual_row as int,
                    phantom_above as int,
                    shown,
                    place,
                    last as int,
                ),
        decreases blocks@.len() - i,
    {
        let block = &blocks[i];
        let ghost rest = blocks@.subrange(i as int, blocks@.len() as int);
        proof {
            assert(rest.drop_first() =~= blocks@.subrange(i + 1, blocks@.len() as int));
            assert(rest[0] == blocks@[i as int]);
            assert(blocks@.subrange(0, i + 1).drop_last() =~= blocks@.subrange(0, i as int));
            assert(blocks@.subrange(0, i + 1).last() == blocks@[i as int]);
            lemma_drawn_rows_prefix(blocks@, on_screen, i + 1);
        }
        if on_screen(block.row) {
            let top = display_row_of(block.row) + phantom_above;
            if visual_row < top {
                return visual_row.saturating_sub(phantom_above).min(last);
            }
            if visual_row < top + block.lines.len() {
                return display_row_of(block.row).min(last);
            }
            phantom_above += block.lines.len();
        }
        i += 1;
    }
    proof {
        assert(blocks@.subrange(i as int, blocks@.len() as int).len() == 0);
    }
    visual_row.saturating_sub(phantom_above).min(last)
}

} // verus!
