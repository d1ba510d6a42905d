//! List-item prefixes and image locations of a rendered document.

use vstd::prelude::*;

verus! {

/// The ten decimal digits, in order.
pub open spec fn decimal_digits() -> Seq<char> {
    seq!['0', '1', '2', '3', '4', '5', '6', '7', '8', '9']
}

/// The capital letters A to Z, which number the items of a list one level in.
pub open spec fn capital_letters() -> Seq<char> {
    seq![
        'A', 'B', 'C', 'D', 'E', 'F', 'G', 'H', 'I', 'J', 'K', 'L', 'M', 'N', 'O', 'P', 'Q', 'R',
        'S', 'T', 'U', 'V', 'W', 'X', 'Y', 'Z',
    ]
}

/// The small letters a to z, which number the items of lists nested deeper.
pub open spec fn small_letters() -> Seq<char> {
    seq![
        'a', 'b', 'c', 'd', 'e', 'f', 'g', 'h', 'i', 'j', 'k', 'l', 'm', 'n', 'o', 'p', 'q', 'r',
        's', 't', 'u', 'v', 'w', 'x', 'y', 'z',
    ]
}

/// The bullets of an unordered list, by depth: a bullet, a white bullet, a
/// small square, a triangular bullet and a hyphen bullet.
pub open spec fn bullets() -> Seq<char> {
    seq!['\u{2022}', '\u{25E6}', '\u{25AA}', '\u{2023}', '\u{2043}']
}

/// `n` written in decimal, with no leading zeros.
pub open spec fn decimal(n: nat) -> Seq<char>
    decreases n,
{
    if n < 10 {
        seq![decimal_digits()[n as int]]
    } else {
        decimal(n / 10).push(decimal_digits()[(n % 10) as int])
    }
}

/// The prefix of the item at index `ix` of a list nested `depth` deep: the
/// item's number and a full stop in an ordered list (1, 2, ... at the top,
/// A to Z one level in, a to z deeper, starting over after Z or z), or the
/// bullet of its depth in an unordered one (the last bullet for every depth
/// past the fourth).
pub open spec fn list_item_prefix_spec(ix: usize, ordered: bool, depth: usize) -> Seq<char> {
    if ordered {
        if depth == 0 {
            decimal((ix + 1) as nat) + seq!['.', ' ']
        } else if depth == 1 {
            seq![capital_letters()[(ix % 26) as int], '.', ' ']
        } else {
            seq![small_letters()[(ix % 26) as int], '.', ' ']
        }
    } else {
        seq![bullets()[if depth < 4 { depth as int } else { 4 }], ' ']
    }
}

/// An unordered list runs out of bullets at its fifth level: every item
/// nested deeper than that takes the fifth bullet, the hyphen bullet, and
/// the bullets never start over.
pub proof fn lemma_deep_items_keep_the_last_bullet(ix: usize, depth: usize)
    requires
        depth >= 4,
    ensures
        list_item_prefix_spec(ix, false, depth) == list_item_prefix_spec(ix, false, 4),
        list_item_prefix_spec(ix, false, depth) == seq!['\u{2043}', ' '],
{
}

/// Lettered items start over after the twenty-sixth letter: item `ix` and
/// item `ix + 26` of a list one or more levels in carry the same prefix.
pub proof fn lemma_letters_start_over(ix: usize, depth: usize)
    requires
        depth >= 1,
        ix + 26 <= usize::MAX,
    ensures
        list_item_prefix_spec((ix + 26) as usize, true, depth) == list_item_prefix_spec(ix, true, depth),
{
    assert((ix + 26) % 26 == ix % 26);
}

/// The one character of `table` at `k`, as a string.
fn char_of(table: &str, k: usize) -> (s: String)
    requires
        k < table@.len(),
        k < usize::MAX,
    ensures
        s@ == seq![table@[k as int]],
{
    let piece = table.substring_char(k, k + 1);
    let s = String::from_str(piece);
    proof {
        assert(s@ =~= seq![table@[k as int]]);
    }
    s
}

/// `n` in decimal.
fn decimal_string(n: usize) -> (s: String)
    ensures
        s@ == decimal(n as nat),
    decreases n,
{
    let digits = "0123456789";
    proof {
        reveal_strlit("0123456789");
        assert(digits@ =~= decimal_digits());
    }
    if n < 10 {
        char_of(digits, n)
    } else {
        let mut s = decimal_string(n / 10);
        let last = char_of(digits, n % 10);
        s.append(last.as_str());
        proof {
            assert(s@ =~= decimal((n / 10) as nat).push(decimal_digits()[(n % 10) as int]));
        }
        s
    }
}

/// Returns the prefix for a list item.
pub fn list_item_prefix(ix: usize, ordered: bool, depth: usize) -> (prefix: String)
    requires
        ordered && depth == 0 ==> ix < usize::MAX,
    ensures
        prefix@ == list_item_prefix_spec(ix, ordered, depth),
        !ordered && depth == 0 ==> prefix@ == seq!['\u{2022}', ' '],
        !ordered && depth == 1 ==> prefix@ == seq!['\u{25E6}', ' '],
        !ordered && depth == 2 ==> prefix@ == seq!['\u{25AA}', ' '],
        !ordered && depth == 3 ==> prefix@ == seq!['\u{2023}', ' '],
        !ordered && depth >= 4 ==> prefix@ == seq!['\u{2043}', ' '],
{
    let stop = ". ";
    proof {
        reveal_strlit(". ");
        assert(stop@ =~= seq!['.', ' ']);
    }
    if ordered {
        if depth == 0 {
            let mut prefix = decimal_string(ix + 1);
            prefix.append(stop);
            return prefix;
        }
        if depth == 1 {
            let letters = "ABCDEFGHIJKLMNOPQRSTUVWXYZ";
            proof {
                reveal_strlit("ABCDEFGHIJKLMNOPQRSTUVWXYZ");
                assert(letters@ =~= capital_letters());
            }
            let mut prefix = char_of(letters, ix % 26);
            prefix.append(stop);
            proof {
                assert(prefix@ =~= seq![capital_letters()[(ix % 26) as int], '.', ' ']);
            }
            return prefix;
        } else {
            let letters = "abcdefghijklmnopqrstuvwxyz";
            proof {
                reveal_strlit("abcdefghijklmnopqrstuvwxyz");
                assert(letters@ =~= small_letters());
            }
            let mut prefix = char_of(letters, ix % 26);
            prefix.append(stop);
            proof {
                assert(prefix@ =~= seq![small_letters()[(ix % 26) as int], '.', ' ']);
            }
            return prefix;
        }
    } else {
        let marks = "\u{2022}\u{25E6}\u{25AA}\u{2023}\u{2043}";
        proof {
            reveal_strlit("\u{2022}\u{25E6}\u{25AA}\u{2023}\u{2043}");
            assert(marks@ =~= bullets());
        }
        let depth = if depth < 4 { depth } else { 4 };
        let mut prefix = char_of(marks, depth);
        let space = " ";
        proof {
            reveal_strlit(" ");
        }
        prefix.append(space);
        proof {
            assert(prefix@ =~= seq![bullets()[depth as int], ' ']);
        }
        return prefix;
    }
}

/// Where a document image is read from.
#[derive(Debug, Clone, PartialEq, Eq)]
pub enum ImageSource {
    /// A URL, fetched or decoded as it is; never a file on disk.
    Uri(String),
    /// A file on disk.
    Path(String),
}

/// `prefix` is the start of `text`.
pub open spec fn starts_with(text: Seq<char>, prefix: Seq<char>) -> bool {
    prefix.len() <= text.len() && text.subrange(0, prefix.len() as int) == prefix
}

/// A URL the machine can fetch or decode on its own: one that starts with
/// `http://`, `https://` or `data:`.
pub open spec fn is_remote(url: Seq<char>) -> bool {
    ||| starts_with(url, seq!['h', 't', 't', 'p', ':', '/', '/'])
    ||| starts_with(url, seq!['h', 't', 't', 'p', 's', ':', '/', '/'])
    ||| starts_with(url, seq!['d', 'a', 't', 'a', ':'])
}

/// The file name a URL that is not remote stands for: the URL with a leading
/// `file://` taken off.
pub open spec fn file_name_of(url: Seq<char>) -> Seq<char> {
    if starts_with(url, seq!['f', 'i', 'l', 'e', ':', '/', '/']) {
        url.subrange(7, url.len() as int)
    } else {
        url
    }
}

/// Whether `text` starts with `prefix`.
pub fn has_prefix(text: &str, prefix: &str) -> (r: bool)
    ensures
        r == starts_with(text@, prefix@),
{
    let n = prefix.unicode_len();
    let m = text.unicode_len();
    if n > m {
        return false;
    }
    let mut i: usize = 0;
    while i < n
        invariant
            n == prefix@.len(),
            m == text@.len(),
            n <= m,
            i <= n,
            forall|j: int| 0 <= j < i ==> text@[j] == prefix@[j],
        decreases n - i,
    {
        if text.get_char(i) != prefix.get_char(i) {
            assert(text@.subrange(0, n as int)[i as int] != prefix@[i as int]);
            return false;
        }
        i += 1;
    }
    assert(text@.subrange(0, n as int) =~= prefix@);
    true
}

/// A name some platform could read as absolute: one that starts with a
/// separator (`/` or `\`), or that holds a `:`, as a drive prefix (`C:`) or
/// a scheme does. Every other name is relative everywhere.
pub open spec fn may_be_absolute(name: Seq<char>) -> bool {
    name.len() > 0 && (name[0] == '/' || name[0] == '\\' || exists|i: int|
        0 <= i < name.len() && name[i] == ':')
}

/// A Windows verbatim path (`\\?\`), onto which a joined path is normalised
/// rather than appended as written.
pub open spec fn is_verbatim(path: Seq<char>) -> bool {
    starts_with(path, seq!['\\', '\\', '?', '\\'])
}

/// `base` may end where a path separator would go: it is empty, ends with
/// a separator (`/`, or `\` as Windows reads it), or ends with the `:` of a
/// bare drive prefix such as `C:`.
pub open spec fn may_end_at_separator(base: Seq<char>) -> bool {
    base.len() == 0 || base.last() == '/' || base.last() == '\\' || base.last() == ':'
}

/// `joined` is `name` adjoined to `base`: `base`, then one separator (`/`
/// or `\`, as the platform writes it), then `name`; or, where `base` may end
/// at a separator already, `base` followed by `name` directly.
pub open spec fn adjoined(base: Seq<char>, name: Seq<char>, joined: Seq<char>) -> bool {
    ||| joined == base + seq!['/'] + name
    ||| joined == base + seq!['\\'] + name
    ||| (may_end_at_separator(base) && joined == base + name)
}

/// `placed` is where `name` lands when read against `base`: adjoined to it,
/// or put in place of all of `base` or all but a leading part of it (a name
/// with its own root or prefix does that).
pub open spec fn placed_under(base: Seq<char>, name: Seq<char>, placed: Seq<char>) -> bool {
    ||| adjoined(base, name, placed)
    ||| exists|k: int| 0 <= k <= base.len() && placed == #[trigger] base.subrange(0, k) + name
}

/// Whether `path` names a file from the root of the file system, as this
/// platform reads paths.
///
/// Calls `std::path::Path::is_absolute`. Which names count differs between
/// platforms (a leading `/` on Unix, a prefix and a root on Windows), so all
/// that is said is that a name no platform could read as absolute is not.
#[verifier::external_body]
fn path_is_absolute(path: &str) -> (absolute: bool)
    ensures
        absolute ==> may_be_absolute(path@),
{
    std::path::Path::new(path).is_absolute()
}

/// `path` read relative to the directory `base`.
///
/// Calls `std::path::Path::join`, which pushes `path` onto `base`. A path
/// with no root and no prefix is adjoined: `base`, then a separator unless
/// `base` is empty or already ends in one (or is a bare drive prefix on
/// Windows), then `path` as written. A path with its own root or prefix takes
/// the place of all of `base`, or of all but its prefix.
/// A Windows verbatim `base` has the adjoined part normalised instead, and
/// nothing is said of it. Which separator is written differs between
/// platforms and is not said either.
#[verifier::external_body]
fn path_join(base: &str, path: &str) -> (joined: String)
    ensures
        !is_verbatim(base@) ==> placed_under(base@, path@, joined@),
        !is_verbatim(base@) && !may_be_absolute(path@) ==> adjoined(base@, path@, joined@),
{
    std::path::Path::new(base).join(path).to_string_lossy().into_owned()
}

/// Where the file `name` of a document in `base` is read from, given the
/// platform's answer to whether `name` is absolute: `name` itself when it
/// is, `name` read against `base` otherwise.
pub fn place_image(base: &str, name: String, absolute: bool) -> (source: ImageSource)
    ensures
        absolute ==> (source matches ImageSource::Path(p) && p@ == name@),
        !absolute && !is_verbatim(base@) ==> (source matches ImageSource::Path(p) && placed_under(
            base@,
            name@,
            p@,
        )),
        !absolute && !is_verbatim(base@) && !may_be_absolute(name@) ==> (source matches ImageSource::Path(
            p,
        ) && adjoined(base@, name@, p@)),
        source is Path,
{
    if absolute {
        ImageSource::Path(name)
    } else {
        ImageSource::Path(path_join(base, name.as_str()))
    }
}

/// Where a document image is read from.
///
/// With no `base`, a document is granted no file system access at all: every
/// URL stays a URI, including `file://` and scheme-less strings, so untrusted
/// Markdown cannot name a local file and have it read.
///
/// With a `base` the caller has said the document is a local file it trusts.
/// Anything that is not a remote or inline URL is then a path: an absolute one
/// is read as it is, a relative one against `base`, and a `file://` URL has
/// its scheme taken off. Nothing is normalised: `.` and `..` stay as written.
pub fn image_source(url: &str, base: Option<&str>) -> (source: ImageSource)
    ensures
        base is None ==> (source matches ImageSource::Uri(u) && u@ == url@),
        base is Some && is_remote(url@) ==> (source matches ImageSource::Uri(u) && u@ == url@),
        base is Some && !is_remote(url@) ==> (source matches ImageSource::Path(p) && (!is_verbatim(
            base.unwrap()@,
        ) ==> placed_under(base.unwrap()@, file_name_of(url@), p@))),
        base is Some && !is_remote(url@) && !may_be_absolute(file_name_of(url@)) && !is_verbatim(
            base.unwrap()@,
        ) ==> (source matches ImageSource::Path(p) && adjoined(base.unwrap()@, file_name_of(url@), p@)),
{
    let base = match base {
        Some(base) => base,
        None => {
            return ImageSource::Uri(url.to_owned());
        },
    };
    let (http, https, data) = ("http://", "https://", "data:");
    proof {
        reveal_strlit("http://");
        reveal_strlit("https://");
        reveal_strlit("data:");
        assert(http@ =~= seq!['h', 't', 't', 'p', ':', '/', '/']);
        assert(https@ =~= seq!['h', 't', 't', 'p', 's', ':', '/', '/']);
        assert(data@ =~= seq!['d', 'a', 't', 'a', ':']);
    }
    if has_prefix(url, http) || has_prefix(url, https) || has_prefix(url, data) {
        return ImageSource::Uri(url.to_owned());
    }
    let name = image_file_name(url);
    let absolute = path_is_absolute(name.as_str());
    let ghost name_view = name@;
    let source = place_image(base, name, absolute);
    proof {
        if absolute {
            assert(base@.subrange(0, 0) + name_view =~= name_view);
            assert(placed_under(base@, name_view, source->Path_0@));
        }
    }
    source
}

/// The file name a URL that is not remote stands for: `url` with a leading
/// `file://` taken off.
pub fn image_file_name(url: &str) -> (name: String)
    ensures
        name@ == file_name_of(url@),
{
    let file = "file://";
    proof {
        reveal_strlit("file://");
        assert(file@ =~= seq!['f', 'i', 'l', 'e', ':', '/', '/']);
    }
    if has_prefix(url, file) {
        let len = url.unicode_len();
        String::from_str(url.substring_char(7, len))
    } else {
        url.to_owned()
    }
}

} // verus!
