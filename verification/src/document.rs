//! A parsed document: its blocks, and what a selection across them copies.

use std::ops::{Range, RangeInclusive};
use vstd::prelude::*;
use vstd::string::StringSliceAdditionalSpecFns;
use vstd::utf8::{
    decode_utf8, encode_utf8, encode_utf8_decode_utf8, encode_utf8_valid_utf8, is_char_boundary,
    is_char_boundary_iff_not_is_continuation_byte, is_char_boundary_start_end_of_seq, valid_utf8,
    valid_utf8_split,
};

verus! {

/// How selected text is copied.
#[derive(Debug, Clone, Copy, PartialEq, Eq)]
pub enum SelectionFormat {
    /// The text as the reader sees it.
    Plain,
    /// The Markdown it was written in.
    Source,
}

/// What the selection logic reads of one top-level block: its text, its
/// Markdown, where the parser found it in the source, whether painting it
/// found a selection in it, and what of it is selected in each format.
#[derive(Debug, Default)]
pub struct BlockNode {
    /// The block's text as the reader sees it.
    pub text: String,
    /// The block written back as Markdown.
    pub markdown: String,
    /// The byte range of the source the parser located this block at, if any.
    pub span: Option<Range<usize>>,
    /// Painting the block found a selection in it.
    pub has_selection: bool,
    /// The selected part of the block, as plain text.
    pub selected_plain: String,
    /// The selected part of the block, as Markdown.
    pub selected_source: String,
}

impl BlockNode {
    /// What the block holds selected in `format`.
    pub open spec fn selected_spec(&self, format: SelectionFormat) -> Seq<char> {
        match format {
            SelectionFormat::Plain => self.selected_plain@,
            SelectionFormat::Source => self.selected_source@,
        }
    }

    /// The block's text as the reader sees it.
    pub fn text(&self) -> (text: String)
        ensures
            text@ == self.text@,
    {
        self.text.clone()
    }

    /// The block written back as Markdown.
    pub fn to_markdown(&self) -> (markdown: String)
        ensures
            markdown@ == self.markdown@,
    {
        self.markdown.clone()
    }

    /// Whether painting the block found a selection in it.
    pub fn has_selection(&self) -> (painted: bool)
        ensures
            painted == self.has_selection,
    {
        self.has_selection
    }

    /// Forget the selection this block holds.
    pub fn clear_selection(&mut self)
        ensures
            !final(self).has_selection,
            final(self).selected_plain@.len() == 0,
            final(self).selected_source@.len() == 0,
            final(self).text == old(self).text,
            final(self).markdown == old(self).markdown,
            final(self).span == old(self).span,
    {
        self.has_selection = false;
        self.selected_plain = String::new();
        self.selected_source = String::new();
    }

    /// The selected part of the block, in `format`.
    pub fn selected_text(&self, format: SelectionFormat) -> (text: String)
        ensures
            text@ == self.selected_spec(format),
    {
        match format {
            SelectionFormat::Plain => self.selected_plain.clone(),
            SelectionFormat::Source => self.selected_source.clone(),
        }
    }
}

/// The parsed document: the source it came from and its top-level blocks.
#[derive(Debug, Default)]
pub struct ParsedDocument {
    pub source: String,
    pub blocks: Vec<BlockNode>,
}

/// How one block is rendered: where it stands among its siblings and in
/// which list, if any.
#[derive(Debug, Default, Clone, Copy)]
pub struct NodeRenderOptions {
    pub ix: usize,
    pub in_list: bool,
    pub todo: bool,
    pub ordered: bool,
    pub depth: usize,
    pub is_last: bool,
}

impl NodeRenderOptions {
    /// The same options, for a block that is or is not the last one.
    pub fn is_last(self, is_last: bool) -> (options: Self)
        ensures
            options == (NodeRenderOptions { is_last, ..self }),
    {
        let mut options = self;
        options.is_last = is_last;
        options
    }
}

/// A block's span meets a marked range: they share at least one byte.
pub open spec fn meets(span: Range<usize>, range: Range<usize>) -> bool {
    span.start < range.end && range.start < span.end
}

/// The index of the first of `ranges` that meets `span`; the number of
/// ranges when none does.
pub open spec fn first_meeting<C>(span: Range<usize>, ranges: Seq<(Range<usize>, C)>) -> int
    decreases ranges.len(),
{
    if ranges.len() == 0 {
        0
    } else if meets(span, ranges[0].0) {
        0
    } else {
        1 + first_meeting(span, ranges.drop_first())
    }
}

proof fn lemma_first_meeting<C>(span: Range<usize>, ranges: Seq<(Range<usize>, C)>)
    ensures
        0 <= first_meeting(span, ranges) <= ranges.len(),
        first_meeting(span, ranges) < ranges.len() ==> meets(span, ranges[first_meeting(span, ranges)].0),
        forall|j: int| 0 <= j < first_meeting(span, ranges) ==> !meets(span, #[trigger] ranges[j].0),
    decreases ranges.len(),
{
    if ranges.len() > 0 && !meets(span, ranges[0].0) {
        lemma_first_meeting(span, ranges.drop_first());
        assert forall|j: int| 0 <= j < first_meeting(span, ranges) implies !meets(
            span,
            #[trigger] ranges[j].0,
        ) by {
            if j > 0 {
                assert(ranges[j] == ranges.drop_first()[j - 1]);
            }
        }
    }
}

/// The colour a top-level block is marked in, if any.
///
/// A block is marked when its span meets one of `marked_ranges`: a change of
/// one word marks the paragraph holding it. The first range that meets it
/// wins; a block the parser could not locate is never marked.
pub fn mark_for<C: Copy>(node: &BlockNode, marked_ranges: &[(Range<usize>, C)]) -> (mark: Option<C>)
    ensures
        match node.span {
            None => mark is None,
            Some(span) => {
                let i = first_meeting(span, marked_ranges@);
                if i < marked_ranges@.len() {
                    mark == Some(marked_ranges@[i].1)
                } else {
                    mark is None
                }
            },
        },
        node.span matches Some(span) ==> {
                &&& (mark is None <==> forall|j: int|
                    0 <= j < marked_ranges@.len() ==> !(span.start < (#[trigger] marked_ranges@[j]).0.end
                        && marked_ranges@[j].0.start < span.end))
                &&& (mark is Some ==> exists|i: int|
                    0 <= i < marked_ranges@.len() && span.start < (#[trigger] marked_ranges@[i]).0.end
                        && marked_ranges@[i].0.start < span.end && mark == Some(marked_ranges@[i].1)
                        && forall|j: int|
                        0 <= j < i ==> !(span.start < (#[trigger] marked_ranges@[j]).0.end
                            && marked_ranges@[j].0.start < span.end))
            },
{
    if marked_ranges.len() == 0 {
        return None;
    }
    let span = match &node.span {
        Some(span) => span,
        None => {
            return None;
        },
    };
    proof {
        lemma_first_meeting(*span, marked_ranges@);
    }
    let mut i: usize = 0;
    while i < marked_ranges.len()
        invariant
            node.span == Some(*span),
            i <= marked_ranges@.len(),
            forall|j: int| 0 <= j < i ==> !meets(*span, #[trigger] marked_ranges@[j].0),
        decreases marked_ranges@.len() - i,
    {
        let (range, color) = &marked_ranges[i];
        if span.start < range.end && range.start < span.end {
            proof {
                lemma_first_meeting(*span, marked_ranges@);
                let f = first_meeting(*span, marked_ranges@);
                if f < i {
                    assert(meets(*span, marked_ranges@[f].0));
                }
                assert(!(i < f)) by {
                    if i < f {
                        assert(!meets(*span, marked_ranges@[i as int].0));
                    }
                }
            }
            return Some(*color);
        }
        i += 1;
    }
    proof {
        lemma_first_meeting(*span, marked_ranges@);
        let f = first_meeting(*span, marked_ranges@);
        if f < i {
            assert(meets(*span, marked_ranges@[f].0));
        }
    }
    None
}

/// The characters between bytes `start` and `end` of `text`, when both are
/// character boundaries of it in order; nothing otherwise.
pub open spec fn slice_of(text: Seq<char>, start: usize, end: usize) -> Option<Seq<char>> {
    let bytes = encode_utf8(text);
    if start <= end <= bytes.len() && is_char_boundary(bytes, start as int) && is_char_boundary(
        bytes,
        end as int,
    ) {
        Some(decode_utf8(bytes.subrange(start as int, end as int)))
    } else {
        None
    }
}

/// `text` with every line break at its end taken off.
pub open spec fn trim_line_breaks(text: Seq<char>) -> Seq<char>
    decreases text.len(),
{
    if text.len() > 0 && text.last() == '\n' {
        trim_line_breaks(text.drop_last())
    } else {
        text
    }
}

/// The index of the first block painting found a selection in; the number
/// of blocks when none.
pub open spec fn first_painted(blocks: Seq<BlockNode>) -> int
    decreases blocks.len(),
{
    if blocks.len() == 0 {
        0
    } else if blocks[0].has_selection {
        0
    } else {
        1 + first_painted(blocks.drop_first())
    }
}

/// The index of the last block painting found a selection in; -1 when none.
pub open spec fn last_painted(blocks: Seq<BlockNode>) -> int
    decreases blocks.len(),
{
    if blocks.len() == 0 {
        -1
    } else if blocks.last().has_selection {
        blocks.len() - 1
    } else {
        last_painted(blocks.drop_last())
    }
}

/// The spans a requested range of blocks names: its first and its last.
pub open spec fn requested_span(blocks: Option<RangeInclusive<usize>>) -> Option<(usize, usize)> {
    match blocks {
        Some(range) => Some((range@.start, range@.end)),
        None => None,
    }
}

/// The first index of `range`.
///
/// Calls `RangeInclusive::start`, which hands back the range's start bound.
#[verifier::external_body]
fn range_first(range: &RangeInclusive<usize>) -> (first: usize)
    ensures
        first == range@.start,
{
    *range.start()
}

/// The last index of `range`.
///
/// Calls `RangeInclusive::end`, which hands back the range's end bound.
#[verifier::external_body]
fn range_last(range: &RangeInclusive<usize>) -> (last: usize)
    ensures
        last == range@.end,
{
    *range.end()
}

/// A character boundary of valid UTF-8 after `start` is one of what follows
/// `start` too.
proof fn lemma_boundary_of_tail(bytes: Seq<u8>, start: int, at: int)
    requires
        valid_utf8(bytes),
        0 <= start <= at <= bytes.len(),
        is_char_boundary(bytes, start),
        is_char_boundary(bytes, at),
    ensures
        valid_utf8(bytes.subrange(start, bytes.len() as int)),
        is_char_boundary(bytes.subrange(start, bytes.len() as int), at - start),
{
    let tail = bytes.subrange(start, bytes.len() as int);
    valid_utf8_split(bytes, start);
    if at == bytes.len() {
        is_char_boundary_start_end_of_seq(tail);
    } else {
        is_char_boundary_iff_not_is_continuation_byte(bytes, at);
        assert(tail[at - start] == bytes[at]);
        is_char_boundary_iff_not_is_continuation_byte(tail, at - start);
    }
}

/// The part of `text` between bytes `start` and `end`, when both fall on
/// character boundaries in order.
pub fn text_slice(text: &str, start: usize, end: usize) -> (slice: Option<&str>)
    ensures
        match slice_of(text@, start, end) {
            Some(chars) => slice matches Some(s) && s@ == chars,
            None => slice is None,
        },
{
    proof {
        encode_utf8_valid_utf8(text@);
    }
    let len = text.as_bytes().len();
    if start <= end && end <= len && text.is_char_boundary(start) && text.is_char_boundary(end) {
        let ghost bytes = text.spec_bytes();
        proof {
            lemma_boundary_of_tail(bytes, start as int, end as int);
        }
        let (_, tail) = text.split_at(start);
        let (middle, _) = tail.split_at(end - start);
        proof {
            assert(middle.spec_bytes() =~= bytes.subrange(start as int, end as int));
            encode_utf8_decode_utf8(middle@);
        }
        Some(middle)
    } else {
        None
    }
}

/// `text` with every line break at its end taken off.
pub fn trim_line_breaks_of(text: &str) -> (trimmed: String)
    ensures
        trimmed@ == trim_line_breaks(text@),
{
    let n = text.unicode_len();
    let mut k = n;
    proof {
        assert(text@.subrange(0, n as int) =~= text@);
    }
    while k > 0 && text.get_char(k - 1) == '\n'
        invariant
            n == text@.len(),
            k <= n,
            trim_line_breaks(text@) == trim_line_breaks(text@.subrange(0, k as int)),
        decreases k,
    {
        proof {
            assert(text@.subrange(0, k as int).drop_last() =~= text@.subrange(0, k - 1));
        }
        k -= 1;
    }
    String::from_str(text.substring_char(0, k))
}

proof fn lemma_first_painted(blocks: Seq<BlockNode>)
    ensures
        0 <= first_painted(blocks) <= blocks.len(),
        first_painted(blocks) < blocks.len() ==> blocks[first_painted(blocks)].has_selection,
        forall|j: int| 0 <= j < first_painted(blocks) ==> !blocks[j].has_selection,
    decreases blocks.len(),
{
    if blocks.len() > 0 && !blocks[0].has_selection {
        lemma_first_painted(blocks.drop_first());
        assert forall|j: int| 0 <= j < first_painted(blocks) implies !blocks[j].has_selection by {
            if j > 0 {
                assert(blocks[j] == blocks.drop_first()[j - 1]);
            }
        }
    }
}

/// A selection nobody painted copies nothing, in either format.
pub proof fn lemma_nothing_painted_copies_nothing(
    doc: ParsedDocument,
    format: SelectionFormat,
    requested: Option<(usize, usize)>,
)
    requires
        forall|i: int| 0 <= i < doc.blocks@.len() ==> !(#[trigger] doc.blocks@[i]).has_selection,
    ensures
        doc.selected_text_spec(format, requested) == Seq::<char>::empty(),
{
    lemma_first_painted(doc.blocks@);
}

/// The selection is one continuous range: a block strictly between the
/// block it starts in and the block it ends in is copied whole, as its
/// source in a Markdown copy and, when the span was requested, as its text
/// in a plain one.
pub proof fn lemma_inner_blocks_are_copied_whole(
    doc: ParsedDocument,
    requested: Option<(usize, usize)>,
    ix: int,
)
    requires
        0 <= ix < doc.blocks@.len(),
        doc.selection_span(requested).0 < ix < doc.selection_span(requested).1,
    ensures
        doc.source_piece(doc.selection_span(requested).0, doc.selection_span(requested).1, ix)
            == doc.whole_source_spec(doc.blocks@[ix]),
        requested is Some ==> doc.plain_piece(requested, ix) == doc.blocks@[ix].text@,
{
}

/// The plain pieces of blocks `lo` up to `hi` are those pieces, listed in
/// block order and joined.
proof fn lemma_plain_pieces_joined(
    doc: ParsedDocument,
    requested: Option<(usize, usize)>,
    lo: int,
    hi: int,
)
    requires
        lo <= hi,
    ensures
        doc.plain_pieces(requested, lo, hi) == Seq::new(
            (hi - lo) as nat,
            |k: int| doc.plain_piece(requested, lo + k),
        ).flatten(),
    decreases hi - lo,
{
    let pieces = Seq::new((hi - lo) as nat, |k: int| doc.plain_piece(requested, lo + k));
    if hi == lo {
        assert(pieces.len() == 0);
    } else {
        lemma_plain_pieces_joined(doc, requested, lo, hi - 1);
        let earlier = Seq::new((hi - 1 - lo) as nat, |k: int| doc.plain_piece(requested, lo + k));
        assert(pieces =~= earlier.push(doc.plain_piece(requested, hi - 1)));
        earlier.lemma_flatten_push(doc.plain_piece(requested, hi - 1));
    }
}

/// A plain copy of a requested span of blocks, from block `start` to block
/// `end` (clamped to the last block), is what each block of the span adds,
/// in block order. A block strictly inside the span adds its whole text.
/// Each of the two end blocks adds what it holds selected; holding nothing,
/// it adds its whole text when painting never reached it (it scrolled out of
/// view), and nothing when it was painted and came up empty.
pub proof fn lemma_plain_copy_of_a_requested_span(doc: ParsedDocument, start: usize, end: usize)
    requires
        start <= end,
        start < doc.blocks@.len(),
        exists|i: int| 0 <= i < doc.blocks@.len() && (#[trigger] doc.blocks@[i]).has_selection,
    ensures
        doc.selected_text_spec(SelectionFormat::Plain, Some((start, end))) == Seq::new(
            (if end < doc.blocks@.len() {
                end - start + 1
            } else {
                doc.blocks@.len() - start
            }) as nat,
            |k: int|
                {
                    let block = doc.blocks@[start + k];
                    if start < start + k < end {
                        block.text@
                    } else if block.selected_plain@.len() > 0 {
                        block.selected_plain@
                    } else if block.has_selection {
                        Seq::empty()
                    } else {
                        block.text@
                    }
                },
        ).flatten(),
{
    let requested = Some((start, end));
    let blocks = doc.blocks@;
    lemma_first_painted(blocks);
    let w = choose|i: int| 0 <= i < blocks.len() && (#[trigger] blocks[i]).has_selection;
    assert(first_painted(blocks) < blocks.len()) by {
        if first_painted(blocks) >= blocks.len() {
            assert(!blocks[w].has_selection);
        }
    }
    let last: int = if end < blocks.len() { end as int } else { blocks.len() - 1 };
    assert(doc.selection_span(requested) == (start as int, last));
    lemma_plain_pieces_joined(doc, requested, start as int, last + 1);
    let n = (last + 1 - start) as nat;
    let by_piece = Seq::new(n, |k: int| doc.plain_piece(requested, start + k));
    let stated = Seq::new(
        n,
        |k: int|
            {
                let block = doc.blocks@[start + k];
                if start < start + k < end {
                    block.text@
                } else if block.selected_plain@.len() > 0 {
                    block.selected_plain@
                } else if block.has_selection {
                    Seq::empty()
                } else {
                    block.text@
                }
            },
    );
    assert(by_piece =~= stated);
}

/// A plain copy with no span requested runs from the first block painting
/// found a selection in to the last, and is what each of those blocks adds,
/// in block order: what it holds selected; holding nothing, its whole text
/// when painting never reached it, and nothing when it was painted and came
/// up empty.
pub proof fn lemma_plain_copy_of_the_painted_span(doc: ParsedDocument, first: int, last: int)
    requires
        0 <= first <= last < doc.blocks@.len(),
        doc.blocks@[first].has_selection,
        doc.blocks@[last].has_selection,
        forall|j: int| 0 <= j < first ==> !(#[trigger] doc.blocks@[j]).has_selection,
        forall|j: int| last < j < doc.blocks@.len() ==> !(#[trigger] doc.blocks@[j]).has_selection,
    ensures
        doc.selected_text_spec(SelectionFormat::Plain, None) == Seq::new(
            (last - first + 1) as nat,
            |k: int|
                {
                    let block = doc.blocks@[first + k];
                    if block.selected_plain@.len() > 0 {
                        block.selected_plain@
                    } else if block.has_selection {
                        Seq::empty()
                    } else {
                        block.text@
                    }
                },
        ).flatten(),
{
    let blocks = doc.blocks@;
    lemma_first_painted(blocks);
    lemma_last_painted(blocks);
    let f = first_painted(blocks);
    let l = last_painted(blocks);
    if f < first {
        assert(blocks[f].has_selection);
    }
    if first < f {
        assert(!blocks[first].has_selection);
    }
    if l > last {
        assert(blocks[l].has_selection);
    }
    if l < last {
        assert(!blocks[last].has_selection);
    }
    assert(doc.selection_span(None) == (first, last));
    lemma_plain_pieces_joined(doc, None, first, last + 1);
    let n = (last + 1 - first) as nat;
    let by_piece = Seq::new(n, |k: int| doc.plain_piece(None, first + k));
    let stated = Seq::new(
        n,
        |k: int|
            {
                let block = doc.blocks@[first + k];
                if block.selected_plain@.len() > 0 {
                    block.selected_plain@
                } else if block.has_selection {
                    Seq::empty()
                } else {
                    block.text@
                }
            },
    );
    assert(by_piece =~= stated);
}

/// The non-empty ones of `parts`, in order, with a blank line between each
/// two.
pub open spec fn joined_by_blank_lines(parts: Seq<Seq<char>>) -> Seq<char>
    decreases parts.len(),
{
    if parts.len() == 0 {
        Seq::empty()
    } else {
        let earlier = joined_by_blank_lines(parts.drop_last());
        let part = parts.last();
        if part.len() == 0 {
            earlier
        } else if earlier.len() == 0 {
            part
        } else {
            earlier + seq!['\n', '\n'] + part
        }
    }
}

/// The Markdown pieces of blocks `lo` up to `hi` are those pieces, each
/// with its line breaks at the end taken off, listed in block order and
/// joined by blank lines.
proof fn lemma_source_pieces_joined(doc: ParsedDocument, first: int, last: int, lo: int, hi: int)
    requires
        lo <= hi,
    ensures
        doc.source_pieces(first, last, lo, hi) == joined_by_blank_lines(
            Seq::new((hi - lo) as nat, |k: int| trim_line_breaks(doc.source_piece(first, last, lo + k))),
        ),
    decreases hi - lo,
{
    let parts = Seq::new(
        (hi - lo) as nat,
        |k: int| trim_line_breaks(doc.source_piece(first, last, lo + k)),
    );
    if hi > lo {
        lemma_source_pieces_joined(doc, first, last, lo, hi - 1);
        assert(parts.drop_last() =~= Seq::new(
            (hi - 1 - lo) as nat,
            |k: int| trim_line_breaks(doc.source_piece(first, last, lo + k)),
        ));
    }
}

/// A Markdown copy with no span requested runs from the first block painting
/// found a selection in to the last. Each of those two gives the Markdown it
/// holds selected; every block between them gives its whole source, the
/// stretch of the source the parser located it at (or, where it could not,
/// its own Markdown). Each piece loses the line breaks at its end, empty
/// pieces are dropped, and the rest are joined by blank lines in block
/// order.
pub proof fn lemma_source_copy_of_the_painted_span(doc: ParsedDocument, first: int, last: int)
    requires
        0 <= first <= last < doc.blocks@.len(),
        doc.blocks@[first].has_selection,
        doc.blocks@[last].has_selection,
        forall|j: int| 0 <= j < first ==> !(#[trigger] doc.blocks@[j]).has_selection,
        forall|j: int| last < j < doc.blocks@.len() ==> !(#[trigger] doc.blocks@[j]).has_selection,
    ensures
        doc.selected_text_spec(SelectionFormat::Source, None) == joined_by_blank_lines(
            Seq::new(
                (last - first + 1) as nat,
                |k: int|
                    {
                        let block = doc.blocks@[first + k];
                        trim_line_breaks(
                            if k == 0 || first + k == last {
                                block.selected_source@
                            } else {
                                match block.span {
                                    Some(span) => match slice_of(doc.source@, span.start, span.end) {
                                        Some(text) => text,
                                        None => block.selected_source@,
                                    },
                                    None => block.selected_source@,
                                }
                            },
                        )
                    },
            ),
        ),
{
    let blocks = doc.blocks@;
    lemma_first_painted(blocks);
    lemma_last_painted(blocks);
    let f = first_painted(blocks);
    let l = last_painted(blocks);
    if f < first {
        assert(blocks[f].has_selection);
    }
    if first < f {
        assert(!blocks[first].has_selection);
    }
    if l > last {
        assert(blocks[l].has_selection);
    }
    if l < last {
        assert(!blocks[last].has_selection);
    }
    assert(doc.selection_span(None) == (first, last));
    lemma_source_pieces_joined(doc, first, last, first, last + 1);
    let n = (last + 1 - first) as nat;
    let by_piece = Seq::new(n, |k: int| trim_line_breaks(doc.source_piece(first, last, first + k)));
    let stated = Seq::new(
        n,
        |k: int|
            {
                let block = doc.blocks@[first + k];
                trim_line_breaks(
                    if k == 0 || first + k == last {
                        block.selected_source@
                    } else {
                        match block.span {
                            Some(span) => match slice_of(doc.source@, span.start, span.end) {
                                Some(text) => text,
                                None => block.selected_source@,
                            },
                            None => block.selected_source@,
                        }
                    },
                )
            },
    );
    assert(by_piece =~= stated);
}

proof fn lemma_last_painted(blocks: Seq<BlockNode>)
    ensures
        -1 <= last_painted(blocks) < blocks.len(),
        last_painted(blocks) >= 0 ==> blocks[last_painted(blocks)].has_selection,
        forall|j: int| last_painted(blocks) < j < blocks.len() ==> !blocks[j].has_selection,
    decreases blocks.len(),
{
    if blocks.len() > 0 && !blocks.last().has_selection {
        lemma_last_painted(blocks.drop_last());
        assert forall|j: int| last_painted(blocks) < j < blocks.len() implies !blocks[j].has_selection by {
            if j < blocks.len() - 1 {
                assert(blocks[j] == blocks.drop_last()[j]);
            }
        }
    }
}

impl ParsedDocument {
    /// The whole source of a block the selection covers: the stretch of the
    /// source the parser located it at, or, where there is none, the block
    /// written back as Markdown.
    pub open spec fn whole_source_spec(&self, block: BlockNode) -> Seq<char> {
        match block.span {
            Some(span) => match slice_of(self.source@, span.start, span.end) {
                Some(text) => text,
                None => block.selected_source@,
            },
            None => block.selected_source@,
        }
    }

    /// The span the selection covers: the requested blocks, clamped to the
    /// last block, or else the first and last block painting found a
    /// selection in.
    pub open spec fn selection_span(&self, requested: Option<(usize, usize)>) -> (int, int) {
        let last_ix = self.blocks@.len() - 1;
        match requested {
            Some((start, end)) => (
                if start <= last_ix { start as int } else { last_ix },
                if end <= last_ix { end as int } else { last_ix },
            ),
            None => (first_painted(self.blocks@), last_painted(self.blocks@)),
        }
    }

    /// What block `ix` adds to a plain-text copy.
    ///
    /// A block strictly inside a requested span is copied whole. Otherwise a
    /// block copies what it holds selected; one that holds nothing copies its
    /// whole text when painting never reached it (it scrolled past), and
    /// nothing when it was painted and came up empty.
    pub open spec fn plain_piece(&self, requested: Option<(usize, usize)>, ix: int) -> Seq<char> {
        let block = self.blocks@[ix];
        if requested matches Some((start, end)) && ix != start && ix != end {
            block.text@
        } else if block.selected_plain@.len() > 0 {
            block.selected_plain@
        } else if !block.has_selection {
            block.text@
        } else {
            Seq::empty()
        }
    }

    /// What block `ix` adds to a Markdown copy spanning `first` to `last`:
    /// the first and the last block give what they hold selected when they
    /// were painted; every other block gives its whole source.
    pub open spec fn source_piece(&self, first: int, last: int, ix: int) -> Seq<char> {
        let block = self.blocks@[ix];
        if (ix == first || ix == last) && block.has_selection {
            block.selected_source@
        } else {
            self.whole_source_spec(block)
        }
    }

    /// The plain-text pieces of blocks `lo` up to, not including, `hi`, one
    /// after the other.
    pub open spec fn plain_pieces(&self, requested: Option<(usize, usize)>, lo: int, hi: int) -> Seq<char>
        decreases hi - lo,
    {
        if hi <= lo {
            Seq::empty()
        } else {
            self.plain_pieces(requested, lo, hi - 1) + self.plain_piece(requested, hi - 1)
        }
    }

    /// The Markdown pieces of blocks `lo` up to, not including, `hi`, each
    /// with its line breaks at the end taken off, the empty ones dropped, and
    /// a blank line between each two.
    pub open spec fn source_pieces(&self, first: int, last: int, lo: int, hi: int) -> Seq<char>
        decreases hi - lo,
    {
        if hi <= lo {
            Seq::empty()
        } else {
            let earlier = self.source_pieces(first, last, lo, hi - 1);
            let piece = trim_line_breaks(self.source_piece(first, last, hi - 1));
            if piece.len() == 0 {
                earlier
            } else if earlier.len() == 0 {
                piece
            } else {
                earlier + seq!['\n', '\n'] + piece
            }
        }
    }

    /// The selected text across all blocks, in `format`.
    pub open spec fn selected_text_spec(
        &self,
        format: SelectionFormat,
        requested: Option<(usize, usize)>,
    ) -> Seq<char> {
        if first_painted(self.blocks@) >= self.blocks@.len() {
            Seq::empty()
        } else {
            let (first, last) = self.selection_span(requested);
            match format {
                SelectionFormat::Plain => self.plain_pieces(requested, first, last + 1),
                SelectionFormat::Source => self.source_pieces(first, last, first, last + 1),
            }
        }
    }
}

impl ParsedDocument {
    /// The text of every block, one after the other.
    pub open spec fn text_spec(&self) -> Seq<char> {
        self.blocks_text(self.blocks@.len() as int)
    }

    /// The text of the first `k` blocks, one after the other.
    pub open spec fn blocks_text(&self, k: int) -> Seq<char>
        decreases k,
    {
        if k <= 0 {
            Seq::empty()
        } else {
            self.blocks_text(k - 1) + self.blocks@[k - 1].text@
        }
    }

    /// The Markdown of the first `k` blocks, with a blank line between each
    /// two.
    pub open spec fn blocks_markdown(&self, k: int) -> Seq<char>
        decreases k,
    {
        if k <= 0 {
            Seq::empty()
        } else if k == 1 {
            self.blocks@[0].markdown@
        } else {
            self.blocks_markdown(k - 1) + seq!['\n', '\n'] + self.blocks@[k - 1].markdown@
        }
    }

    /// The text of every block, one after the other.
    pub fn text(&self) -> (text: String)
        ensures
            text@ == self.text_spec(),
    {
        let mut text = String::new();
        let mut i: usize = 0;
        while i < self.blocks.len()
            invariant
                i <= self.blocks@.len(),
                text@ == self.blocks_text(i as int),
            decreases self.blocks@.len() - i,
        {
            let piece = self.blocks[i].text();
            text.append(piece.as_str());
            i += 1;
        }
        text
    }

    /// The document written back as Markdown: every block's Markdown, with a
    /// blank line between each two.
    pub fn to_markdown(&self) -> (markdown: String)
        ensures
            markdown@ == self.blocks_markdown(self.blocks@.len() as int),
    {
        let separator = "\n\n";
        proof {
            reveal_strlit("\n\n");
        }
        let mut markdown = String::new();
        let mut i: usize = 0;
        while i < self.blocks.len()
            invariant
                i <= self.blocks@.len(),
                separator@ == seq!['\n', '\n'],
                markdown@ == self.blocks_markdown(i as int),
            decreases self.blocks@.len() - i,
        {
            if i > 0 {
                markdown.append(separator);
            }
            let piece = self.blocks[i].to_markdown();
            markdown.append(piece.as_str());
            i += 1;
        }
        markdown
    }

    /// The selected text across all blocks, in `format`.
    ///
    /// In `Source` format each block gives its own Markdown source, and the
    /// blocks are joined with a blank line so the result re-renders with the
    /// same block structure.
    ///
    /// A block only learns its selection when it is painted, so in a
    /// scrollable view every block the reader scrolled past reports nothing.
    /// The selection is one continuous range, so blocks it spans that came up
    /// empty are inside it and are copied whole rather than dropped. `blocks`
    /// bounds that span when the caller knows it; without it, the painted
    /// blocks do.
    pub fn selected_text(&self, format: SelectionFormat, blocks: Option<RangeInclusive<usize>>) -> (text: String)
        ensures
            text@ == self.selected_text_spec(format, requested_span(blocks)),
    {
        let requested: Option<(usize, usize)> = match &blocks {
            Some(range) => Some((range_first(range), range_last(range))),
            None => None,
        };
        let count = self.blocks.len();
        let mut painted_first: usize = 0;
        while painted_first < count && !self.blocks[painted_first].has_selection()
            invariant
                count == self.blocks@.len(),
                painted_first <= count,
                forall|j: int| 0 <= j < painted_first ==> !self.blocks@[j].has_selection,
            decreases count - painted_first,
        {
            painted_first += 1;
        }
        proof {
            lemma_first_painted(self.blocks@);
            let f = first_painted(self.blocks@);
            if f < painted_first {
                assert(self.blocks@[f].has_selection);
            }
            if painted_first < f {
                assert(self.blocks@[painted_first as int].has_selection);
            }
        }
        if painted_first == count {
            return String::new();
        }
        let mut painted_last: usize = count - 1;
        while !self.blocks[painted_last].has_selection()
            invariant
                count == self.blocks@.len(),
                painted_first <= painted_last < count,
                self.blocks@[painted_first as int].has_selection,
                forall|j: int| painted_last < j < count ==> !self.blocks@[j].has_selection,
            decreases painted_last,
        {
            painted_last -= 1;
        }
        proof {
            lemma_last_painted(self.blocks@);
            let l = last_painted(self.blocks@);
            if l > painted_last {
                assert(self.blocks@[l].has_selection);
            }
            if painted_last > l {
                assert(self.blocks@[painted_last as int].has_selection);
            }
        }
        let last_ix = count - 1;
        let (first, last) = match requested {
            Some((start, end)) => (
                if start <= last_ix { start } else { last_ix },
                if end <= last_ix { end } else { last_ix },
            ),
            None => (painted_first, painted_last),
        };
        let ghost span = self.selection_span(requested);
        assert(span == (first as int, last as int));
        match format {
            SelectionFormat::Plain => {
                let mut text = String::new();
                let mut ix = first;
                while ix <= last
                    invariant
                        ix == first || first < ix <= last + 1,
                        last < count,
                        count == self.blocks@.len(),
                        format == SelectionFormat::Plain,
                        text@ == self.plain_pieces(requested, first as int, ix as int),
                    decreases last + 1 - ix,
                {
                    let block = &self.blocks[ix];
                    proof {
                        assert(self.plain_pieces(requested, first as int, ix + 1) == self.plain_pieces(
                            requested,
                            first as int,
                            ix as int,
                        ) + self.plain_piece(requested, ix as int));
                    }
                    let selected = block.selected_text(format);
                    let is_virtual_endpoint = match requested {
                        Some((start, end)) => ix == start || ix == end,
                        None => false,
                    };
                    if requested.is_some() && !is_virtual_endpoint {
                        text.append(block.text().as_str());
                    } else if !selected.as_str().is_empty() {
                        text.append(selected.as_str());
                    } else if !block.has_selection() {
                        text.append(block.text().as_str());
                    }
                    ix += 1;
                }
                proof {
                    if first > last {
                        assert(ix == first);
                    }
                }
                text
            },
            SelectionFormat::Source => {
                let separator = "\n\n";
                proof {
                    reveal_strlit("\n\n");
                }
                let mut out = String::new();
                let mut ix = first;
                while ix <= last
                    invariant
                        ix == first || first < ix <= last + 1,
                        last < count,
                        count == self.blocks@.len(),
                        format == SelectionFormat::Source,
                        separator@ == seq!['\n', '\n'],
                        out@ == self.source_pieces(first as int, last as int, first as int, ix as int),
                    decreases last + 1 - ix,
                {
                    let block = &self.blocks[ix];
                    let source = if (ix == first || ix == last) && block.has_selection() {
                        block.selected_text(format)
                    } else {
                        self.whole_source(block)
                    };
                    let trimmed = trim_line_breaks_of(source.as_str());
                    proof {
                        assert(source@ == self.source_piece(first as int, last as int, ix as int));
                        let earlier = self.source_pieces(first as int, last as int, first as int, ix as int);
                        assert(self.source_pieces(first as int, last as int, first as int, ix + 1) == if trimmed@.len() == 0 {
                            earlier
                        } else if earlier.len() == 0 {
                            trimmed@
                        } else {
                            earlier + seq!['\n', '\n'] + trimmed@
                        });
                    }
                    if !trimmed.as_str().is_empty() {
                        if !out.as_str().is_empty() {
                            out.append(separator);
                        }
                        out.append(trimmed.as_str());
                    }
                    ix += 1;
                }
                proof {
                    if first > last {
                        assert(ix == first);
                    }
                }
                out
            },
        }
    }

    /// Clear the selection stored in every block at once, without waiting
    /// for a repaint: blocks that are not on screen are not repainted, and
    /// would keep the selection of the last frame they were drawn in.
    pub fn clear_selection(&mut self)
        ensures
            final(self).source == old(self).source,
            final(self).blocks@.len() == old(self).blocks@.len(),
            forall|i: int|
                0 <= i < final(self).blocks@.len() ==> {
                    &&& !(#[trigger] final(self).blocks@[i]).has_selection
                    &&& final(self).blocks@[i].selected_plain@.len() == 0
                    &&& final(self).blocks@[i].selected_source@.len() == 0
                    &&& final(self).blocks@[i].text == old(self).blocks@[i].text
                    &&& final(self).blocks@[i].markdown == old(self).blocks@[i].markdown
                    &&& final(self).blocks@[i].span == old(self).blocks@[i].span
                },
    {
        let mut i: usize = 0;
        while i < self.blocks.len()
            invariant
                self.source == old(self).source,
                self.blocks@.len() == old(self).blocks@.len(),
                0 <= i <= self.blocks@.len(),
                forall|j: int|
                    0 <= j < i ==> {
                        &&& !(#[trigger] self.blocks@[j]).has_selection
                        &&& self.blocks@[j].selected_plain@.len() == 0
                        &&& self.blocks@[j].selected_source@.len() == 0
                        &&& self.blocks@[j].text == old(self).blocks@[j].text
                        &&& self.blocks@[j].markdown == old(self).blocks@[j].markdown
                        &&& self.blocks@[j].span == old(self).blocks@[j].span
                    },
                forall|j: int| i <= j < self.blocks@.len() ==> #[trigger] self.blocks@[j] == old(self).blocks@[j],
            decreases self.blocks@.len() - i,
        {
            let mut block = self.blocks.remove(i);
            block.clear_selection();
            self.blocks.insert(i, block);
            i += 1;
        }
    }

    /// The whole source of a block the selection covers.
    ///
    /// Copied straight out of the source, which the parser locates per block,
    /// so it keeps whatever the author wrote. A block the parser could not
    /// locate falls back to its own Markdown.
    pub fn whole_source(&self, block: &BlockNode) -> (source: String)
        ensures
            source@ == self.whole_source_spec(*block),
    {
        if let Some(span) = &block.span {
            if let Some(source) = text_slice(self.source.as_str(), span.start, span.end) {
                return source.to_owned();
            }
        }
        block.selected_text(SelectionFormat::Source)
    }
}

} // verus!
