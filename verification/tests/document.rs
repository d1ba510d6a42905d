use textcore::{mark_for, BlockNode, NodeRenderOptions, ParsedDocument, SelectionFormat};

fn block(text: &str, span: Option<std::ops::Range<usize>>) -> BlockNode {
    BlockNode {
        text: text.to_string(),
        markdown: text.to_string(),
        span,
        has_selection: false,
        selected_plain: String::new(),
        selected_source: String::new(),
    }
}

fn selected(mut node: BlockNode, plain: &str, source: &str) -> BlockNode {
    node.has_selection = true;
    node.selected_plain = plain.to_string();
    node.selected_source = source.to_string();
    node
}

/// "# Title\n\nA *cat* here.\n\n---\n\nLast words.\n"
fn document() -> ParsedDocument {
    let source = "# Title\n\nA *cat* here.\n\n---\n\nLast words.\n".to_string();
    ParsedDocument {
        source,
        blocks: vec![
            block("Title", Some(0..7)),
            block("A cat here.", Some(9..22)),
            block("", Some(24..27)),
            block("Last words.", Some(29..40)),
        ],
    }
}

#[test]
fn nothing_painted_copies_nothing() {
    let doc = document();
    assert_eq!(doc.selected_text(SelectionFormat::Plain, None), "");
    assert_eq!(doc.selected_text(SelectionFormat::Source, None), "");
    assert_eq!(doc.selected_text(SelectionFormat::Plain, Some(0..=3)), "");
}

#[test]
fn a_plain_copy_takes_what_each_painted_block_holds_selected() {
    let mut doc = document();
    doc.blocks[1] = selected(block("A cat here.", Some(9..22)), "cat here.", "*cat* here.");
    doc.blocks[3] = selected(block("Last words.", Some(29..40)), "Last", "Last");
    // Block 2 was painted but holds nothing, so it gives nothing.
    doc.blocks[2].has_selection = true;
    assert_eq!(doc.selected_text(SelectionFormat::Plain, None), "cat here.Last");
}

#[test]
fn a_block_scrolled_past_is_copied_whole() {
    let mut doc = document();
    doc.blocks[0] = selected(block("Title", Some(0..7)), "tle", "tle");
    doc.blocks[3] = selected(block("Last words.", Some(29..40)), "Last", "Last");
    // Blocks 1 and 2 were never painted.
    assert_eq!(doc.selected_text(SelectionFormat::Plain, None), "tleA cat here.Last");
}

#[test]
fn a_requested_span_copies_its_inner_blocks_whole() {
    let mut doc = document();
    doc.blocks[1] = selected(block("A cat here.", Some(9..22)), "here.", "here.");
    // The span reaches past the last block; it is clamped to it.
    assert_eq!(doc.selected_text(SelectionFormat::Plain, Some(1..=9)), "here.Last words.");
    // A span that runs backwards covers nothing.
    assert_eq!(doc.selected_text(SelectionFormat::Plain, Some(3..=1)), "");
}

#[test]
fn a_source_copy_joins_blocks_with_a_blank_line() {
    let mut doc = document();
    doc.blocks[0] = selected(block("Title", Some(0..7)), "Title", "# Title\n");
    doc.blocks[3] = selected(block("Last words.", Some(29..40)), "Last", "Last");
    assert_eq!(
        doc.selected_text(SelectionFormat::Source, None),
        "# Title\n\nA *cat* here.\n\n---\n\nLast"
    );
}

#[test]
fn a_block_the_parser_could_not_locate_falls_back_to_its_markdown() {
    let mut doc = document();
    doc.blocks[0] = selected(block("Title", Some(0..7)), "Title", "Title");
    doc.blocks[1].span = None;
    doc.blocks[1].selected_source = "rebuilt\n\n".to_string();
    doc.blocks[2].span = Some(25..99);
    doc.blocks[2].selected_source = String::new();
    doc.blocks[3] = selected(block("Last words.", Some(29..40)), "words", "words");
    assert_eq!(doc.selected_text(SelectionFormat::Source, None), "Title\n\nrebuilt\n\nwords");
}

#[test]
fn the_whole_source_of_a_block_is_its_stretch_of_the_source() {
    let doc = ParsedDocument {
        source: "héllo wörld".to_string(),
        blocks: vec![block("x", Some(0..6)), block("y", Some(2..6)), block("z", Some(7..13))],
    };
    assert_eq!(doc.whole_source(&doc.blocks[0]), "héllo");
    // Byte 2 falls inside 'é', so the source cannot be cut there.
    let mut cut = block("y", Some(2..6));
    cut.selected_source = "fallback".to_string();
    assert_eq!(doc.whole_source(&cut), "fallback");
    assert_eq!(doc.whole_source(&doc.blocks[2]), "wörld");
}

#[test]
fn the_text_and_markdown_run_every_block_together() {
    let doc = document();
    assert_eq!(doc.text(), "TitleA cat here.Last words.");
    assert_eq!(doc.to_markdown(), "Title\n\nA cat here.\n\n\n\nLast words.");
}

#[test]
fn the_first_marked_range_a_block_meets_wins() {
    let node = block("A cat here.", Some(9..22));
    let ranges = vec![(0..9, 'a'), (21..30, 'b'), (10..11, 'c')];
    assert_eq!(mark_for(&node, &ranges), Some('b'));
    // A range that ends where the block starts does not meet it.
    assert_eq!(mark_for(&node, &[(0..9, 'a')]), None);
    assert_eq!(mark_for(&node, &[]), None::<char>);
    let unplaced = block("x", None);
    assert_eq!(mark_for(&unplaced, &ranges), None);
}

#[test]
fn render_options_say_which_block_is_last() {
    let options = NodeRenderOptions { ix: 3, depth: 2, ..Default::default() };
    let last = options.is_last(true);
    assert!(last.is_last);
    assert_eq!(last.ix, 3);
    assert_eq!(last.depth, 2);
    assert!(!last.is_last(false).is_last);
}

#[test]
fn clearing_the_selection_leaves_every_block_unselected() {
    let mut doc = document();
    doc.blocks[0] = selected(block("Title", Some(0..7)), "Ti", "Ti");
    doc.blocks[3] = selected(block("Last words.", Some(29..40)), "Last", "Last");
    doc.clear_selection();
    assert!(doc.blocks.iter().all(|b| !b.has_selection && b.selected_plain.is_empty() && b.selected_source.is_empty()));
    assert_eq!(doc.blocks[3].text, "Last words.");
    assert_eq!(doc.blocks[0].span, Some(0..7));
    assert_eq!(doc.selected_text(SelectionFormat::Plain, None), "");
}
