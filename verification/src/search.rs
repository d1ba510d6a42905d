//! What a find bar over a rendered document is given, how it finds every
//! occurrence of its query, and how the occurrences painted are counted.

use std::ops::Range;
use vstd::prelude::*;
use vstd::std_specs::cmp::{PartialEqSpec, PartialEqSpecImpl};
use vstd::string::StringSliceAdditionalSpecFns;
use vstd::utf8::{
    encode_utf8, encode_utf8_valid_utf8, is_char_boundary, is_char_boundary_iff_not_is_continuation_byte,
    is_char_boundary_start_end_of_seq, is_continuation_byte, length_of_first_scalar, pop_first_scalar,
    valid_first_scalar, valid_utf8, valid_utf8_split,
};

verus! {

/// The byte `b` with an ASCII capital letter folded to its small letter.
pub open spec fn ascii_lower(b: u8) -> u8 {
    if 65 <= b <= 90 {
        (b + 32) as u8
    } else {
        b
    }
}

/// Two bytes are the same letter, when the case of ASCII letters is ignored,
/// or the same byte when it is not.
pub open spec fn same_byte(a: u8, b: u8, case_insensitive: bool) -> bool {
    if case_insensitive {
        ascii_lower(a) == ascii_lower(b)
    } else {
        a == b
    }
}

/// `hay` holds `needle` starting at byte `at`.
pub open spec fn occurs_at(hay: Seq<u8>, needle: Seq<u8>, at: int, case_insensitive: bool) -> bool {
    &&& 0 <= at
    &&& at + needle.len() <= hay.len()
    &&& forall|j: int|
        #![trigger needle[j]]
        0 <= j < needle.len() ==> same_byte(hay[at + j], needle[j], case_insensitive)
}

/// Byte `p` lies inside one of `found`.
pub open spec fn covered(found: Seq<Range<usize>>, p: int) -> bool {
    exists|k: int| 0 <= k < found.len() && #[trigger] found[k].start <= p < found[k].end
}

/// `found` is what a scan from the left finds: every range is an occurrence
/// of the needle, the ranges come left to right and never overlap, and every
/// occurrence starts inside one of them (at its start, or inside an earlier
/// occurrence that was taken).
pub open spec fn leftmost_occurrences(
    hay: Seq<u8>,
    needle: Seq<u8>,
    case_insensitive: bool,
    found: Seq<Range<usize>>,
) -> bool {
    &&& forall|k: int|
        0 <= k < found.len() ==> {
            &&& #[trigger] found[k].end == found[k].start + needle.len()
            &&& occurs_at(hay, needle, found[k].start as int, case_insensitive)
        }
    &&& forall|k: int, l: int|
        #![trigger found[k], found[l]]
        0 <= k < l < found.len() ==> found[k].end <= found[l].start
    &&& forall|p: int| occurs_at(hay, needle, p, case_insensitive) ==> covered(found, p)
}

/// What a scan from the left has found once it reaches byte `ix`: ranges
/// that are occurrences, left to right and never overlapping, ending by
/// `ix`, with every occurrence that starts before `ix` inside one of them.
pub open spec fn found_before(
    hay: Seq<u8>,
    needle: Seq<u8>,
    case_insensitive: bool,
    found: Seq<Range<usize>>,
    ix: int,
) -> bool {
    &&& forall|k: int|
        0 <= k < found.len() ==> {
            &&& #[trigger] found[k].end == found[k].start + needle.len()
            &&& occurs_at(hay, needle, found[k].start as int, case_insensitive)
            &&& found[k].end <= ix
        }
    &&& forall|k: int, l: int|
        #![trigger found[k], found[l]]
        0 <= k < l < found.len() ==> found[k].end <= found[l].start
    &&& forall|p: int|
        #![trigger occurs_at(hay, needle, p, case_insensitive)]
        0 <= p < ix && occurs_at(hay, needle, p, case_insensitive) ==> covered(found, p)
}

proof fn lemma_skip_position(hay: Seq<u8>, needle: Seq<u8>, case_insensitive: bool, found: Seq<Range<usize>>, ix: int)
    requires
        found_before(hay, needle, case_insensitive, found, ix),
        !occurs_at(hay, needle, ix, case_insensitive),
    ensures
        found_before(hay, needle, case_insensitive, found, ix + 1),
{
    assert forall|k: int| 0 <= k < found.len() implies {
        &&& #[trigger] found[k].end == found[k].start + needle.len()
        &&& occurs_at(hay, needle, found[k].start as int, case_insensitive)
        &&& found[k].end <= ix + 1
    } by {
        assert(found[k].end == found[k].start + needle.len());
    }
}

proof fn lemma_take_occurrence(
    hay: Seq<u8>,
    needle: Seq<u8>,
    case_insensitive: bool,
    found: Seq<Range<usize>>,
    ix: int,
    taken: Range<usize>,
)
    requires
        found_before(hay, needle, case_insensitive, found, ix),
        occurs_at(hay, needle, ix, case_insensitive),
        needle.len() > 0,
        taken.start == ix,
        taken.end == ix + needle.len(),
    ensures
        found_before(hay, needle, case_insensitive, found.push(taken), ix + needle.len()),
{
    let after = found.push(taken);
    let last = found.len() as int;
    assert(after[last] == taken);
    assert forall|k: int| 0 <= k < after.len() implies {
        &&& #[trigger] after[k].end == after[k].start + needle.len()
        &&& occurs_at(hay, needle, after[k].start as int, case_insensitive)
        &&& after[k].end <= ix + needle.len()
    } by {
        if k < last {
            assert(after[k] == found[k]);
            assert(found[k].end == found[k].start + needle.len());
        }
    }
    assert forall|k: int, l: int| 0 <= k < l < after.len() implies #[trigger] after[k].end
        <= #[trigger] after[l].start by {
        assert(after[k] == found[k]);
        if l < last {
            assert(after[l] == found[l]);
        } else {
            assert(found[k].end == found[k].start + needle.len());
        }
    }
    assert forall|p: int|
        #![trigger occurs_at(hay, needle, p, case_insensitive)]
        0 <= p < ix + needle.len() && occurs_at(hay, needle, p, case_insensitive) implies covered(
            after,
            p,
        ) by {
        if p < ix {
            assert(covered(found, p));
            let k = choose|k: int| 0 <= k < found.len() && #[trigger] found[k].start <= p < found[k].end;
            assert(after[k] == found[k]);
        } else {
            assert(after[last].start <= p < after[last].end);
        }
    }
}

fn fold_ascii(b: u8) -> (r: u8)
    ensures
        r == ascii_lower(b),
{
    if 65 <= b && b <= 90 {
        b + 32
    } else {
        b
    }
}

/// Whether `hay` holds `needle` at `at`.
fn window_matches(hay: &[u8], needle: &[u8], at: usize, case_insensitive: bool) -> (hit: bool)
    requires
        at + needle@.len() <= hay@.len(),
    ensures
        hit == occurs_at(hay@, needle@, at as int, case_insensitive),
{
    let hay_len = hay.len();
    let mut j: usize = 0;
    while j < needle.len()
        invariant
            hay_len == hay@.len(),
            j <= needle@.len(),
            at + needle@.len() <= hay@.len(),
            forall|i: int|
                #![trigger needle@[i]]
                0 <= i < j ==> same_byte(hay@[at + i], needle@[i], case_insensitive),
        decreases needle@.len() - j,
    {
        let same = if case_insensitive {
            fold_ascii(hay[at + j]) == fold_ascii(needle[j])
        } else {
            hay[at + j] == needle[j]
        };
        if !same {
            assert(!same_byte(hay@[at + j as int], needle@[j as int], case_insensitive));
            return false;
        }
        j += 1;
    }
    true
}

/// Every place `query` occurs in `text`, left to right and never overlapping.
///
/// Byte ranges of `text`, so the caller can slice with them. The case-blind
/// comparison covers ASCII letters only, which keeps every offset byte-exact.
/// An empty query, or one longer than the text, finds nothing.
pub fn matches_in(text: &str, query: &str, case_insensitive: bool) -> (found: Vec<Range<usize>>)
    ensures
        query@.len() == 0 ==> found@.len() == 0,
        query@.len() > 0 ==> leftmost_occurrences(
            text.spec_bytes(),
            query.spec_bytes(),
            case_insensitive,
            found@,
        ),
        forall|k: int|
            0 <= k < found@.len() ==> {
                &&& is_char_boundary(text.spec_bytes(), #[trigger] found@[k].start as int)
                &&& is_char_boundary(text.spec_bytes(), found@[k].end as int)
            },
{
    proof {
        lemma_encoding_empty_iff(query@);
    }
    let (haystack, needle) = (text.as_bytes(), query.as_bytes());
    if query.is_empty() || needle.len() > haystack.len() {
        proof {
            assert forall|p: int| query@.len() > 0 && occurs_at(haystack@, needle@, p, case_insensitive)
                implies covered(Seq::<Range<usize>>::empty(), p) by {}
        }
        return Vec::new();
    }
    let ghost h = haystack@;
    let ghost n = needle@;
    let mut found: Vec<Range<usize>> = Vec::new();
    let mut ix: usize = 0;
    while ix <= haystack.len() - needle.len()
        invariant
            h == haystack@,
            n == needle@,
            n.len() > 0,
            n.len() <= h.len(),
            ix <= h.len(),
            found_before(h, n, case_insensitive, found@, ix as int),
        decreases h.len() - ix,
    {
        let hit = window_matches(haystack, needle, ix, case_insensitive);
        if hit {
            let ghost before = found@;
            let taken = ix..ix + needle.len();
            found.push(taken);
            proof {
                lemma_take_occurrence(h, n, case_insensitive, before, ix as int, taken);
            }
            ix = ix + needle.len();
        } else {
            proof {
                lemma_skip_position(h, n, case_insensitive, found@, ix as int);
            }
            ix += 1;
        }
    }
    proof {
        assert forall|p: int| occurs_at(h, n, p, case_insensitive) implies covered(found@, p) by {
            assert(p < ix);
        }
        assert(found_before(h, n, case_insensitive, found@, ix as int));
        assert forall|k: int| 0 <= k < found@.len() implies {
            &&& is_char_boundary(h, #[trigger] found@[k].start as int)
            &&& is_char_boundary(h, found@[k].end as int)
        } by {
            assert(found@[k].end == found@[k].start + n.len());
            lemma_occurrence_on_char_boundaries(text@, query@, found@[k].start as int, case_insensitive);
        }
    }
    found
}

/// The case of a letter does not hide an occurrence: every place the query
/// occurs exactly lies inside a range the case-blind search finds.
pub proof fn lemma_case_blind_search_misses_nothing(
    hay: Seq<u8>,
    needle: Seq<u8>,
    found: Seq<Range<usize>>,
    at: int,
)
    requires
        leftmost_occurrences(hay, needle, true, found),
        occurs_at(hay, needle, at, false),
    ensures
        covered(found, at),
{
    assert(occurs_at(hay, needle, at, true));
}

/// The occurrences a scan from the left finds are determined by the text
/// and the query: two answers that both meet `leftmost_occurrences` are the
/// same.
pub proof fn lemma_leftmost_occurrences_are_unique(
    hay: Seq<u8>,
    needle: Seq<u8>,
    case_insensitive: bool,
    one: Seq<Range<usize>>,
    other: Seq<Range<usize>>,
)
    requires
        needle.len() > 0,
        leftmost_occurrences(hay, needle, case_insensitive, one),
        leftmost_occurrences(hay, needle, case_insensitive, other),
    ensures
        one == other,
{
    lemma_leftmost_agree_up_to(hay, needle, case_insensitive, one, other);
    lemma_leftmost_agree_up_to(hay, needle, case_insensitive, other, one);
    assert forall|k: int| 0 <= k < one.len() implies one[k] == other[k] by {
        assert(one[k].end == one[k].start + needle.len());
        assert(other[k].end == other[k].start + needle.len());
    }
    assert(one =~= other);
}

/// Two left-to-right answers agree on where their ranges start, as far as
/// the shorter one goes, and the first is no longer than the second.
proof fn lemma_leftmost_agree_up_to(
    hay: Seq<u8>,
    needle: Seq<u8>,
    case_insensitive: bool,
    one: Seq<Range<usize>>,
    other: Seq<Range<usize>>,
)
    requires
        needle.len() > 0,
        leftmost_occurrences(hay, needle, case_insensitive, one),
        leftmost_occurrences(hay, needle, case_insensitive, other),
    ensures
        one.len() <= other.len(),
        forall|k: int| 0 <= k < one.len() ==> #[trigger] one[k].start == other[k].start,
{
    lemma_leftmost_starts_agree(hay, needle, case_insensitive, one, other, 0);
    if one.len() > other.len() {
        let l = other.len() as int;
        let s = one[l].start as int;
        assert(one[l].end == one[l].start + needle.len());
        assert(occurs_at(hay, needle, s, case_insensitive));
        assert(covered(other, s));
        let m = choose|m: int| 0 <= m < other.len() && #[trigger] other[m].start <= s < other[m].end;
        assert(one[m].start == other[m].start);
        assert(one[m].end == one[m].start + needle.len());
        assert(other[m].end == other[m].start + needle.len());
        assert(one[m].end <= one[l].start);
    }
}

proof fn lemma_leftmost_starts_agree(
    hay: Seq<u8>,
    needle: Seq<u8>,
    case_insensitive: bool,
    one: Seq<Range<usize>>,
    other: Seq<Range<usize>>,
    from: int,
)
    requires
        needle.len() > 0,
        0 <= from,
        leftmost_occurrences(hay, needle, case_insensitive, one),
        leftmost_occurrences(hay, needle, case_insensitive, other),
        forall|k: int| 0 <= k < from && k < one.len() && k < other.len() ==> #[trigger] one[k].start
            == other[k].start,
    ensures
        forall|k: int| 0 <= k < one.len() && k < other.len() ==> #[trigger] one[k].start
            == other[k].start,
    decreases one.len() - from,
{
    if from < one.len() && from < other.len() {
        let k = from;
        let s1 = one[k].start as int;
        let s2 = other[k].start as int;
        assert(one[k].end == one[k].start + needle.len());
        assert(other[k].end == other[k].start + needle.len());
        if s1 < s2 {
            lemma_start_is_taken(hay, needle, case_insensitive, one, other, k);
        } else if s2 < s1 {
            lemma_start_is_taken(hay, needle, case_insensitive, other, one, k);
        }
        lemma_leftmost_starts_agree(hay, needle, case_insensitive, one, other, from + 1);
    }
}

/// With both answers agreeing before `k`, the `k`th range of the first does
/// not start before the `k`th range of the second.
proof fn lemma_start_is_taken(
    hay: Seq<u8>,
    needle: Seq<u8>,
    case_insensitive: bool,
    one: Seq<Range<usize>>,
    other: Seq<Range<usize>>,
    k: int,
)
    requires
        needle.len() > 0,
        0 <= k < one.len(),
        k < other.len(),
        leftmost_occurrences(hay, needle, case_insensitive, one),
        leftmost_occurrences(hay, needle, case_insensitive, other),
        forall|j: int| 0 <= j < k ==> #[trigger] one[j].start == other[j].start,
    ensures
        one[k].start >= other[k].start,
{
    let s = one[k].start as int;
    assert(one[k].end == one[k].start + needle.len());
    assert(occurs_at(hay, needle, s, case_insensitive));
    assert(covered(other, s));
    let m = choose|m: int| 0 <= m < other.len() && #[trigger] other[m].start <= s < other[m].end;
    assert(other[m].end == other[m].start + needle.len());
    if m < k {
        assert(one[m].start == other[m].start);
        assert(one[m].end == one[m].start + needle.len());
        assert(one[m].end <= one[k].start);
    } else if m > k {
        assert(other[k].end <= other[m].start);
        assert(other[k].end == other[k].start + needle.len());
    }
}

/// `bytes` with every ASCII capital letter folded to its small letter.
pub open spec fn ascii_lowered(bytes: Seq<u8>) -> Seq<u8> {
    bytes.map_values(|b: u8| ascii_lower(b))
}

/// A case-blind search finds what an exact search finds once both the text
/// and the query have their ASCII letters folded to small letters; letters
/// outside ASCII are not folded.
pub proof fn lemma_case_blind_is_exact_on_folded_text(
    hay: Seq<u8>,
    needle: Seq<u8>,
    blind: Seq<Range<usize>>,
    exact_on_folded: Seq<Range<usize>>,
)
    requires
        needle.len() > 0,
        leftmost_occurrences(hay, needle, true, blind),
        leftmost_occurrences(ascii_lowered(hay), ascii_lowered(needle), false, exact_on_folded),
    ensures
        blind == exact_on_folded,
{
    let lh = ascii_lowered(hay);
    let ln = ascii_lowered(needle);
    assert forall|p: int| occurs_at(hay, needle, p, true) == occurs_at(lh, ln, p, false) by {
        if occurs_at(hay, needle, p, true) {
            assert forall|j: int| 0 <= j < ln.len() implies same_byte(lh[p + j], #[trigger] ln[j], false) by {
                assert(same_byte(hay[p + j], needle[j], true));
            }
        }
        if occurs_at(lh, ln, p, false) {
            assert forall|j: int| 0 <= j < needle.len() implies same_byte(hay[p + j], #[trigger] needle[j], true) by {
                assert(same_byte(lh[p + j], ln[j], false));
            }
        }
    }
    assert(leftmost_occurrences(lh, ln, false, blind)) by {
        assert forall|k: int| 0 <= k < blind.len() implies {
            &&& #[trigger] blind[k].end == blind[k].start + ln.len()
            &&& occurs_at(lh, ln, blind[k].start as int, false)
        } by {
            assert(blind[k].end == blind[k].start + needle.len());
            assert(occurs_at(hay, needle, blind[k].start as int, true));
        }
        assert forall|p: int| occurs_at(lh, ln, p, false) implies covered(blind, p) by {
            assert(occurs_at(hay, needle, p, true));
        }
    }
    lemma_leftmost_occurrences_are_unique(lh, ln, false, blind, exact_on_folded);
}

/// What a document held the last time it was painted for a search: how many
/// occurrences of the query, and where the current one was painted (`B` is
/// the caller's bounds type). No current occurrence means an empty query or
/// an index past the end.
#[derive(Clone, Copy, Debug, PartialEq)]
pub struct TextSearchResult<B> {
    /// How many occurrences of the query the document holds.
    pub count: usize,
    /// Where the current occurrence was painted.
    pub current: Option<B>,
}

impl<B> Default for TextSearchResult<B> {
    fn default() -> (found: Self)
        ensures
            found.count == 0,
            found.current is None,
    {
        TextSearchResult { count: 0, current: None }
    }
}

impl<B> TextSearchResult<B> {
    /// Start counting again, at the top of the document.
    pub fn begin(&mut self)
        ensures
            final(self).count == 0,
            final(self).current is None,
    {
        *self = TextSearchResult::default();
    }

    /// Claim `count` occurrences, and answer the ordinal of the first of them.
    pub fn claim(&mut self, count: usize) -> (first: usize)
        requires
            old(self).count + count <= usize::MAX,
        ensures
            first == old(self).count,
            final(self).count == old(self).count + count,
            final(self).current == old(self).current,
    {
        let first = self.count;
        self.count = self.count + count;
        first
    }

    /// Record where the current occurrence was painted.
    pub fn set_current(&mut self, bounds: B)
        ensures
            final(self).count == old(self).count,
            final(self).current == Some(bounds),
    {
        self.current = Some(bounds);
    }
}

/// What a find bar is looking for in a rendered document.
///
/// Every occurrence of `query` in the text the reader sees is painted in
/// `background`, and the one the reader is on, `current`, counting from the
/// start of the document, in `current_background`. `C` is the caller's colour
/// type; `R` is the handle the answers are read through.
#[derive(Clone)]
pub struct TextSearch<C, R> {
    /// The text to look for. An empty query finds nothing.
    pub query: String,
    /// Match regardless of the case of ASCII letters. True by default.
    pub case_insensitive: bool,
    /// Which occurrence, counting from the start of the document, the reader
    /// is on. Out of range means no occurrence is the current one.
    pub current: usize,
    /// The colour every occurrence is painted in.
    pub background: C,
    /// The colour the current occurrence is painted in instead.
    pub current_background: C,
    /// Where the answers are put.
    pub results: R,
}

impl<C: PartialEq, R> PartialEq for TextSearch<C, R> {
    /// Two searches are the same when they look for the same thing in the
    /// same way and paint it the same; where their answers go does not count.
    fn eq(&self, other: &Self) -> (same: bool) {
        self.query == other.query && self.case_insensitive == other.case_insensitive && self.current
            == other.current && self.background == other.background && self.current_background
            == other.current_background
    }
}

impl<C: PartialEq, R> PartialEqSpecImpl for TextSearch<C, R> {
    open spec fn obeys_eq_spec() -> bool {
        <C as PartialEqSpec>::obeys_eq_spec()
    }

    open spec fn eq_spec(&self, other: &Self) -> bool {
        &&& self.query@ == other.query@
        &&& self.case_insensitive == other.case_insensitive
        &&& self.current == other.current
        &&& self.background.eq_spec(&other.background)
        &&& self.current_background.eq_spec(&other.current_background)
    }
}

impl<C: Copy, R: Default> TextSearch<C, R> {
    /// Look for `query`, painting every occurrence in `background`: case
    /// blind, on the first occurrence, with a fresh results handle.
    pub fn new(query: String, background: C) -> (search: Self)
        ensures
            search.query@ == query@,
            search.case_insensitive,
            search.current == 0,
            search.background == background,
            search.current_background == background,
            call_ensures(R::default, (), search.results),
    {
        TextSearch {
            query,
            case_insensitive: true,
            current: 0,
            background,
            current_background: background,
            results: R::default(),
        }
    }
}

impl<C, R> TextSearch<C, R> {
    /// Which occurrence the reader is on, counting from the start.
    pub fn current(self, current: usize) -> (search: Self)
        ensures
            search == (TextSearch { current, ..self }),
    {
        let mut search = self;
        search.current = current;
        search
    }

    /// The colour the current occurrence is painted in.
    pub fn current_background(self, background: C) -> (search: Self)
        ensures
            search == (TextSearch { current_background: background, ..self }),
    {
        let mut search = self;
        search.current_background = background;
        search
    }

    /// Tell apart `Query` from `query`.
    pub fn case_sensitive(self) -> (search: Self)
        ensures
            search == (TextSearch { case_insensitive: false, ..self }),
    {
        let mut search = self;
        search.case_insensitive = false;
        search
    }

    /// Read the answers through this handle rather than a fresh one.
    pub fn results(self, results: R) -> (search: Self)
        ensures
            search == (TextSearch { results, ..self }),
    {
        let mut search = self;
        search.results = results;
        search
    }

    /// Where `text` holds the query.
    pub fn matches_in(&self, text: &str) -> (found: Vec<Range<usize>>)
        ensures
            self.query@.len() == 0 ==> found@.len() == 0,
            self.query@.len() > 0 ==> leftmost_occurrences(
                text.spec_bytes(),
                encode_utf8(self.query@),
                self.case_insensitive,
                found@,
            ),
            forall|k: int|
                0 <= k < found@.len() ==> {
                    &&& is_char_boundary(text.spec_bytes(), #[trigger] found@[k].start as int)
                    &&& is_char_boundary(text.spec_bytes(), found@[k].end as int)
                },
    {
        matches_in(text, self.query.as_str(), self.case_insensitive)
    }
}

/// The number of bytes a UTF-8 encoding whose first byte is `b` takes.
pub open spec fn encoding_width(b: u8) -> int {
    if b <= 0x7f {
        1
    } else if 0xc0 <= b <= 0xdf {
        2
    } else if 0xe0 <= b <= 0xef {
        3
    } else {
        4
    }
}

/// A byte at a character boundary starts a character, and the next boundary
/// is as many bytes further on as that character's encoding takes.
proof fn lemma_next_boundary(b: Seq<u8>, i: int)
    requires
        valid_utf8(b),
        is_char_boundary(b, i),
        0 <= i < b.len(),
    ensures
        !is_continuation_byte(b[i]),
        i + encoding_width(b[i]) <= b.len(),
        is_char_boundary(b, i + encoding_width(b[i])),
{
    let t = b.subrange(i, b.len() as int);
    valid_utf8_split(b, i);
    assert(valid_first_scalar(t));
    let w = length_of_first_scalar(t);
    assert(t[0] == b[i]);
    assert(w == encoding_width(b[i]));
    let rest = pop_first_scalar(t);
    assert(valid_utf8(rest));
    if i + w == b.len() {
        is_char_boundary_start_end_of_seq(b);
    } else {
        assert(rest.len() > 0);
        assert(valid_first_scalar(rest));
        assert(rest[0] == b[i + w]);
        is_char_boundary_iff_not_is_continuation_byte(b, i + w);
    }
}

/// Folding the case of ASCII letters keeps a byte's place in an encoding:
/// two bytes that are the same up to case start encodings of the same width,
/// and one is a continuation byte exactly when the other is.
proof fn lemma_same_byte_same_shape(a: u8, b: u8, case_insensitive: bool)
    requires
        same_byte(a, b, case_insensitive),
    ensures
        encoding_width(a) == encoding_width(b),
        is_continuation_byte(a) == is_continuation_byte(b),
{
}

proof fn lemma_boundaries_carry_over(h: Seq<u8>, n: Seq<u8>, p: int, j: int, case_insensitive: bool)
    requires
        valid_utf8(h),
        valid_utf8(n),
        occurs_at(h, n, p, case_insensitive),
        0 <= j <= n.len(),
        is_char_boundary(n, j),
        is_char_boundary(h, p + j),
    ensures
        is_char_boundary(h, p + n.len()),
    decreases n.len() - j,
{
    if j < n.len() {
        lemma_next_boundary(n, j);
        assert(same_byte(h[p + j], n[j], case_insensitive));
        lemma_same_byte_same_shape(h[p + j], n[j], case_insensitive);
        lemma_next_boundary(h, p + j);
        lemma_boundaries_carry_over(h, n, p, j + encoding_width(n[j]), case_insensitive);
    }
}

/// An occurrence of a non-empty query in a text starts and ends on character
/// boundaries of the text: a window that begins in the middle of a character
/// never matches, and one that matches can be sliced out of the text.
pub proof fn lemma_occurrence_on_char_boundaries(
    text: Seq<char>,
    query: Seq<char>,
    at: int,
    case_insensitive: bool,
)
    requires
        query.len() > 0,
        occurs_at(encode_utf8(text), encode_utf8(query), at, case_insensitive),
    ensures
        is_char_boundary(encode_utf8(text), at),
        is_char_boundary(encode_utf8(text), at + encode_utf8(query).len()),
{
    let h = encode_utf8(text);
    let n = encode_utf8(query);
    encode_utf8_valid_utf8(text);
    encode_utf8_valid_utf8(query);
    lemma_encoding_empty_iff(query);
    lemma_next_boundary(n, 0);
    assert(same_byte(h[at + 0], n[0], case_insensitive));
    lemma_same_byte_same_shape(h[at], n[0], case_insensitive);
    is_char_boundary_iff_not_is_continuation_byte(h, at);
    lemma_boundaries_carry_over(h, n, at, 0, case_insensitive);
}

/// A character sequence is empty exactly when its UTF-8 encoding is.
pub proof fn lemma_encoding_empty_iff(s: Seq<char>)
    ensures
        (s.len() == 0) == (encode_utf8(s).len() == 0),
{
    if s.len() > 0 {
        vstd::utf8::encode_utf8_first_scalar(s);
        assert(encode_utf8(s).len() >= vstd::utf8::encode_scalar(s[0] as u32).len());
    }
}

} // verus!
