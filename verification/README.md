# textcore

Row and text bookkeeping for a code editor and a rendered Markdown view,
written in Verus and proved against its contracts.

- `src/search.rs`: every occurrence of a find-bar query in a text (leftmost,
  non-overlapping, ASCII case folding, byte ranges on character boundaries),
  the find bar's settings, and the tally of occurrences painted.
- `src/utils.rs`: list-item prefixes and where a document image is read from.
- `src/phantom.rs`, `src/phantom_laws.rs`: lines drawn above buffer rows that
  the buffer does not hold, how many rows they add, and which display row a
  visual row shows; the laws tie these together.
- `src/gutter.rs`: marks painted beside buffer rows.
- `src/editor.rs`: an editor's display map (with the folds a caller pins),
  phantom blocks and gutter marks.
- `src/document.rs`: a parsed document's blocks, what a selection across them
  copies, and which marked range a block meets.
- `app/`: the gpui side (notifying the window, the shared results handle, the
  text view style, gpui image sources and elements).
