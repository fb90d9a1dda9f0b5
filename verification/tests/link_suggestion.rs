use linksuggestion_core::link_suggestion::{
    LinkSuggestion, PLACEHOLDER_TITLE, ProcessAction, drop_linked, filter_suggestions, scores_fit,
    strip_punctuation,
};
use linksuggestion_core::wiki_title::WikiTitle;
use linksuggestion_core::wikitext::{TextRange, TextSegment, WikiLink};

fn range_at(start: usize, len: usize) -> TextRange {
    TextRange {
        start_byte: start,
        end_byte: start + len,
        start_row: 1,
        start_column: 4,
        end_row: 1,
        end_column: 4 + len,
    }
}

fn segment(text: &str, start: usize) -> TextSegment {
    TextSegment { text: text.to_string(), range: range_at(start, text.len()) }
}

fn title(t: &str) -> WikiTitle {
    WikiTitle::new(t, "en".to_string())
}

fn titled(text: &str, start: usize, t: &str) -> LinkSuggestion {
    LinkSuggestion::new(segment(text, start), title(t))
}

fn labelled(text: &str, start: usize, label: &str) -> LinkSuggestion {
    LinkSuggestion::new_with_label(segment(text, start), title(PLACEHOLDER_TITLE), label.to_string())
}

fn records(v: &[(&str, i64)]) -> Vec<(String, i64)> {
    v.iter().map(|(t, f)| (t.to_string(), *f)).collect()
}

#[test]
fn new_suggestions_start_with_frequency_zero() {
    let s = titled("Capital is New Delhi", 0, "new_delhi");
    assert_eq!(s.label, "new_delhi");
    assert_eq!(s.title.normalized(), "New delhi");
    assert_eq!(s.frequency, Some(0));
    assert_eq!(s.frequency_max, 0);
    let l = labelled("Capital is New Delhi", 0, "new delhi");
    assert_eq!(l.label, "new delhi");
    assert_eq!(l.title.raw(), PLACEHOLDER_TITLE);
}

#[test]
fn no_records_no_title() {
    let s = labelled("x", 0, "delhi");
    assert_eq!(s.find_title_for_label(&Vec::new(), &Vec::new()), None);
}

#[test]
fn a_single_record_is_taken() {
    let s = labelled("x", 0, "whatever");
    let recs = records(&[("Delhi", 12)]);
    assert_eq!(s.find_title_for_label(&recs, &vec![false]), Some(("Delhi".to_string(), 12)));
}

#[test]
fn a_record_that_links_back_is_preferred() {
    let s = labelled("x", 0, "mercury");
    let recs = records(&[("Mercury_(planet)", 40), ("Mercury_(element)", 30), ("Freddie_Mercury", 5)]);
    assert_eq!(
        s.find_title_for_label(&recs, &vec![false, true, true]),
        Some(("Mercury_(element)".to_string(), 30))
    );
}

#[test]
fn the_most_frequent_title_wins_when_it_matches_the_label() {
    let s = labelled("x", 0, "India");
    let recs = records(&[("India", 10), ("India_(film)", 3)]);
    assert_eq!(s.find_title_for_label(&recs, &vec![false, false]), Some(("India".to_string(), 10)));
    let other = labelled("x", 0, "Bharat");
    assert_eq!(other.find_title_for_label(&recs, &vec![false, false]), None);
}

#[test]
fn a_title_that_does_not_outscore_the_others_is_not_taken() {
    let s = labelled("x", 0, "a");
    let recs = records(&[("A", 5), ("B", 4), ("C", 3)]);
    assert_eq!(s.find_title_for_label(&recs, &vec![false, false, false]), None);
    let recs2 = records(&[("A", 5), ("B", 3), ("C", 2)]);
    assert_eq!(s.find_title_for_label(&recs2, &vec![false, false, false]), Some(("A".to_string(), 5)));
}

#[test]
fn punctuation_white_space_and_case_are_ignored_when_matching() {
    assert_eq!(strip_punctuation("New-York, U.S. "), "newyorkus".chars().collect::<Vec<char>>());
    let s = labelled("x", 0, "u.s. army");
    let recs = records(&[("U.S._Army", 9), ("Army", 2)]);
    assert_eq!(s.find_title_for_label(&recs, &vec![false, false]), Some(("U.S._Army".to_string(), 9)));
}

#[test]
fn lookup_result_updates_title_and_frequency() {
    let mut s = labelled("Capital is New Delhi", 0, "New Delhi");
    assert_eq!(s.label_lookup_key(), "new delhi");
    let action = s.apply_title_lookup(Some(("New_Delhi".to_string(), 7)));
    assert_eq!(action, ProcessAction::CheckTitle("New_Delhi".to_string()));
    assert_eq!(s.title.normalized(), "New Delhi");
    assert_eq!(s.title.language(), "en");
    assert_eq!(s.frequency, Some(7));
    let next = s.apply_title_existence(false, true);
    assert_eq!(next, ProcessAction::FetchFrequencyMax("en".to_string()));
    assert_eq!(s.frequency, Some(7));
}

#[test]
fn unresolved_suggestions_end_with_frequency_zero() {
    let mut s = labelled("x", 0, "zzz");
    assert_eq!(s.apply_title_lookup(None), ProcessAction::Done);
    assert_eq!(s.frequency, Some(0));
    let mut blank = labelled("x", 0, "zzz");
    assert_eq!(blank.apply_title_lookup(Some(("_".to_string(), 4))), ProcessAction::Done);
    assert_eq!(blank.frequency, Some(0));
    let mut unknown = titled("x", 0, "Nowhere");
    unknown.frequency = Some(5);
    assert_eq!(unknown.apply_title_existence(false, false), ProcessAction::Done);
    assert_eq!(unknown.frequency, Some(0));
}

#[test]
fn low_frequencies_and_placeholders_have_zero_confidence() {
    let mut s = titled("x", 0, "India");
    s.frequency = Some(2);
    assert!(s.has_zero_confidence());
    s.frequency = Some(3);
    assert!(!s.has_zero_confidence());
    let mut l = labelled("x", 0, "india");
    l.frequency = Some(100);
    assert!(l.has_zero_confidence());
}

#[test]
fn link_positions_are_byte_offsets_in_the_article() {
    let mut s = labelled("Capital is New Delhi.", 100, "new delhi");
    s.apply_title_lookup(Some(("New_Delhi".to_string(), 7)));
    assert_eq!(
        s.calculate_link_edit_positions(),
        Some((111, 120, "[[New Delhi|new delhi]]".to_string()))
    );
    let same = titled("Rivers of India", 0, "India");
    assert_eq!(same.calculate_link_edit_positions(), Some((10, 15, "[[India]]".to_string())));
    let absent = titled("Rivers", 0, "India");
    assert_eq!(absent.calculate_link_edit_positions(), Some((0, 0, String::new())));
}

#[test]
fn character_offsets_count_characters_of_the_article() {
    let full = "é x India\n".to_string();
    let s = titled("é x India", 0, "India");
    assert_eq!(s.calculate_link_positions_with_char_indices(&full), Some(4));
    assert_eq!(s.checked_link_char_offset(&full), Some(4));
    let absent = titled("é x", 0, "India");
    assert_eq!(absent.calculate_link_positions_with_char_indices(&full), Some(0));
}

#[test]
fn sameness_goes_by_title_or_by_label_before_a_title_is_found() {
    let a = titled("x", 0, "New_York");
    let b = titled("y", 50, " New  York ");
    assert!(a.eq(&b));
    assert!(!a.eq(&titled("x", 0, "York")));
    let la = labelled("x", 0, "big apple");
    let lb = labelled("y", 9, "big apple");
    assert!(la.eq(&lb));
    assert!(!la.eq(&labelled("x", 0, "apple")));
}

#[test]
fn order_is_by_position_then_label() {
    let a = titled("x", 5, "Zebra");
    let b = titled("x", 9, "Apple");
    assert_eq!(a.compare(&b), -1);
    assert_eq!(b.compare(&a), 1);
    let c = titled("x", 5, "Ant");
    assert_eq!(a.compare(&c), 1);
    assert_eq!(c.compare(&a), -1);
    assert_eq!(a.compare(&titled("y", 5, "Zebra")), 0);
}

#[test]
fn suggestion_is_described() {
    let mut s = titled("Rivers of India", 20, "India");
    s.frequency = Some(-3);
    assert_eq!(
        s.describe(),
        "Segment[1:4-1:19]: \"Rivers of India\"\nSuggestion: [[India|India]]\nEdit: bytes 30..35 -> '[[India]]'\nfrequency: Some(-3)\n"
    );
    let mut n = titled("Rivers", 0, "India");
    n.frequency = None;
    assert_eq!(
        n.describe(),
        "Segment[1:4-1:10]: \"Rivers\"\nSuggestion: [[India|India]]\nEdit: bytes 0..0 -> ''\nfrequency: None\n"
    );
}

#[test]
fn filtering_drops_repeats_existing_links_and_the_article_itself() {
    let candidates = vec![
        titled("x", 0, "India"),
        titled("x", 1, "Nepal"),
        titled("x", 2, "India"),
        titled("x", 3, "Bhutan"),
        titled("x", 4, "Asia"),
        labelled("x", 5, "ganges"),
        titled("x", 6, "South_Asia"),
    ];
    let existing = vec![WikiLink { label: None, title: title("Bhutan"), range: range_at(0, 3) }];
    let kept = filter_suggestions(candidates, existing, &"South_Asia".to_string());
    let labels: Vec<String> = kept.iter().map(|s| s.label.clone()).collect();
    assert_eq!(labels, vec!["India", "Nepal", "Asia", "ganges"]);
}

#[test]
fn filtering_compares_the_current_title_with_key_and_raw_forms() {
    let candidates = vec![titled("x", 0, "Mount Everest"), titled("x", 1, " Mount  Everest")];
    let kept = filter_suggestions(candidates, Vec::new(), &"Mount_Everest".to_string());
    assert!(kept.is_empty());
    let raw = vec![titled("x", 0, "everest ")];
    let kept_raw = filter_suggestions(raw, Vec::new(), &"everest ".to_string());
    assert!(kept_raw.is_empty());
}

#[test]
fn running_score_must_stay_a_32_bit_number() {
    let small = records(&[("A", 5), ("B", 4)]);
    assert!(scores_fit(&small, &vec![false, false]));
    let huge = records(&[("A", 2_000_000_000), ("B", -2_000_000_000)]);
    assert!(!scores_fit(&huge, &vec![false, false]));
    // The scan stops at the first title that links back.
    assert!(scores_fit(&huge, &vec![true, false]));
}

#[test]
fn markup_uses_the_normal_form_of_the_title() {
    let s = titled("He lives in new york city", 0, "new york city");
    assert_eq!(
        s.calculate_link_edit_positions(),
        Some((12, 25, "[[New york city|new york city]]".to_string()))
    );
    let mut same = labelled("Visit New York now", 0, "New York");
    same.apply_title_lookup(Some(("New_York".to_string(), 3)));
    assert_eq!(same.calculate_link_edit_positions(), Some((6, 14, "[[New York]]".to_string())));
}

#[test]
fn filtering_drops_the_article_by_its_normal_form() {
    let kept = filter_suggestions(vec![titled("x", 0, "Mount_Everest")], Vec::new(), &"Mount Everest".to_string());
    assert!(kept.is_empty());
}

#[test]
fn filtering_drops_numbers_and_stop_words() {
    let candidates = vec![
        titled("x", 0, "1999"),
        titled("x", 1, "3.14"),
        titled("x", 2, "1,000"),
        titled("x", 3, "The"),
        labelled("x", 4, "of"),
        titled("x", 5, "Boeing 747"),
        titled("x", 6, "Theory"),
        labelled("x", 7, "oxygen"),
    ];
    let kept = filter_suggestions(candidates, Vec::new(), &"Oxygen".to_string());
    let labels: Vec<String> = kept.iter().map(|s| s.label.clone()).collect();
    assert_eq!(labels, vec!["Boeing 747", "Theory", "oxygen"]);
}

#[test]
fn label_offsets_are_measured_in_the_segment_itself() {
    // 'İ' takes two bytes but lower-cases to three.
    let s = titled("İstanbul and Ankara", 100, "Ankara");
    assert_eq!(s.calculate_link_edit_positions(), Some((114, 120, "[[Ankara]]".to_string())));
    let full = "İstanbul and Ankara\n".to_string();
    let at0 = titled("İstanbul and Ankara", 0, "Ankara");
    assert_eq!(at0.checked_link_char_offset(&full), Some(13));
    let upper = labelled("Visit NEW YORK now", 0, "new york");
    assert_eq!(upper.calculate_link_edit_positions().map(|p| (p.0, p.1)), Some((6, 14)));
}

#[test]
fn resolved_titles_that_are_already_linked_are_dropped() {
    let mut a = labelled("x", 0, "the capital");
    a.apply_title_lookup(Some(("New_Delhi".to_string(), 9)));
    let mut b = labelled("x", 1, "himalaya");
    b.apply_title_lookup(Some(("Himalayas".to_string(), 5)));
    let existing = vec![WikiLink { label: None, title: title("New Delhi"), range: range_at(0, 3) }];
    let kept = drop_linked(vec![a, b], &existing);
    let titles: Vec<String> = kept.iter().map(|s| s.title.normalized().to_string()).collect();
    assert_eq!(titles, vec!["Himalayas"]);
}
