use textcore::{matches_in, TextSearch, TextSearchResult};

#[test]
fn occurrences_are_found_left_to_right_and_never_overlap() {
    assert_eq!(matches_in("a cat and a cat", "cat", true), vec![2..5, 12..15]);
    assert_eq!(matches_in("aaaa", "aa", true), vec![0..2, 2..4]);
}

#[test]
fn the_case_of_a_letter_does_not_hide_an_occurrence() {
    assert_eq!(matches_in("Cat CAT cat", "cat", true), vec![0..3, 4..7, 8..11]);
    assert_eq!(matches_in("Cat CAT cat", "cat", false), vec![8..11]);
}

/// The ranges are byte ranges of the text as it is, so they can slice it.
#[test]
fn an_occurrence_after_a_wide_character_keeps_its_byte_offsets() {
    let text = "héllo cat";
    let found = matches_in(text, "cat", true);
    assert_eq!(found, vec![7..10]);
    assert_eq!(&text[found[0].clone()], "cat");
}

/// A window that starts inside a character cannot match: it begins with a
/// continuation byte, and no query does.
#[test]
fn a_query_never_matches_the_middle_of_a_character() {
    assert!(matches_in("日本語", "本", true).len() == 1);
    assert!(matches_in("日本語", "\u{fffd}", true).is_empty());
}

#[test]
fn nothing_is_found_for_an_empty_query_or_a_query_longer_than_the_text() {
    assert!(matches_in("cat", "", true).is_empty());
    assert!(matches_in("cat", "cats", true).is_empty());
}

#[test]
fn a_match_inside_a_skipped_one_is_not_taken() {
    // "aaa" holds "aa" at 0 and at 1; the one at 1 starts inside the first.
    assert_eq!(matches_in("aaa", "aa", true), vec![0..2]);
    assert_eq!(matches_in("abab", "ab", false), vec![0..2, 2..4]);
}

#[test]
fn only_ascii_letters_fold_their_case() {
    // 'É' and 'é' differ in more than the ASCII case bit, so they stay apart.
    assert!(matches_in("É", "é", true).is_empty());
    assert_eq!(matches_in("ÉCOLE école", "école", true), vec![7..13]);
    // '@' (0x40) and '`' (0x60) differ in the case bit but are not letters.
    assert!(matches_in("@", "`", true).is_empty());
}

#[test]
fn every_found_range_slices_the_text() {
    let text = "über Über ÜBER über";
    for range in matches_in(text, "über", true) {
        assert!(text.is_char_boundary(range.start));
        assert!(text.is_char_boundary(range.end));
        assert_eq!(text[range].to_lowercase(), "über");
    }
}

#[test]
fn a_search_is_case_blind_until_told_otherwise() {
    let search: TextSearch<u32, TextSearchResult<u8>> = TextSearch::new("cat".to_string(), 7);
    assert!(search.case_insensitive);
    assert_eq!(search.current, 0);
    assert_eq!(search.background, 7);
    assert_eq!(search.current_background, 7);
    assert_eq!(search.matches_in("Cat cat"), vec![0..3, 4..7]);

    let search = search.case_sensitive().current(1).current_background(9);
    assert!(!search.case_insensitive);
    assert_eq!(search.current, 1);
    assert_eq!(search.background, 7);
    assert_eq!(search.current_background, 9);
    assert_eq!(search.matches_in("Cat cat"), vec![4..7]);
}

#[test]
fn claims_hand_out_ordinals_one_after_the_other() {
    let mut found: TextSearchResult<(i32, i32)> = TextSearchResult::default();
    assert_eq!(found.claim(2), 0);
    assert_eq!(found.claim(3), 2);
    assert_eq!(found.claim(0), 5);
    assert_eq!(found.count, 5);
    found.set_current((4, 8));
    assert_eq!(found.current, Some((4, 8)));
    assert_eq!(found.count, 5);
    found.begin();
    assert_eq!(found, TextSearchResult::default());
    assert_eq!(found.claim(1), 0);
}

#[test]
fn a_search_reads_its_answers_through_the_handle_it_is_given() {
    let mut handle: TextSearchResult<u8> = TextSearchResult::default();
    handle.claim(4);
    let search: TextSearch<u32, TextSearchResult<u8>> = TextSearch::new("x".to_string(), 1).results(handle);
    assert_eq!(search.results.count, 4);
}

#[test]
fn a_case_blind_search_is_an_exact_search_on_lowered_text() {
    for (text, query) in [("Cat CAT cat", "cAt"), ("ÉCOLE école", "ÉCOLE"), ("aAaA", "AA")] {
        assert_eq!(
            matches_in(text, query, true),
            matches_in(&text.to_ascii_lowercase(), &query.to_ascii_lowercase(), false)
        );
    }
}

#[test]
fn searches_are_equal_whatever_handle_they_answer_through() {
    let mut used: TextSearchResult<u8> = TextSearchResult::default();
    used.claim(3);
    let a: TextSearch<u32, TextSearchResult<u8>> = TextSearch::new("cat".to_string(), 1);
    let b = TextSearch::new("cat".to_string(), 1).results(used);
    assert!(a == b);
    assert!(a != TextSearch::new("cat".to_string(), 1).current(2));
    assert!(a != TextSearch::new("cat".to_string(), 2));
    assert!(a != TextSearch::new("cat".to_string(), 1).case_sensitive());
    assert!(a != TextSearch::new("dog".to_string(), 1));
}
