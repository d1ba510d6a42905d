//! Row and text bookkeeping for a rendered document and a code editor:
//! find-bar occurrences, list prefixes, image locations, the phantom rows an
//! editor draws above buffer lines, gutter marks, and what a selection copies.

mod document;
mod editor;
mod gutter;
mod phantom;
mod phantom_laws;
mod search;
mod utils;

pub use document::{mark_for, BlockNode, NodeRenderOptions, ParsedDocument, SelectionFormat};
pub use editor::{DisplayMap, FoldRange, InputBaseState, LineLayout};
pub use gutter::{GutterMark, GutterMarkShape};
pub use phantom::{block_at, display_row_at_visual_row, rows_at, rows_before, rows_total, PhantomLines};
pub use search::{matches_in, TextSearch, TextSearchResult};
pub use utils::{image_file_name, image_source, list_item_prefix, place_image, ImageSource};
