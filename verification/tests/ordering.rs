use linksuggestion_core::link_suggestion::{LinkSuggestion, PLACEHOLDER_TITLE};
use linksuggestion_core::ordering::{dedup_suggestions, sort_suggestions, sort_unique};
use linksuggestion_core::wiki_title::WikiTitle;
use linksuggestion_core::wikitext::{TextRange, TextSegment};

fn strings(v: &[&str]) -> Vec<String> {
    v.iter().map(|s| s.to_string()).collect()
}

fn at(start: usize, label: &str, title: &str) -> LinkSuggestion {
    let segment = TextSegment {
        text: format!("text {start}"),
        range: TextRange {
            start_byte: start,
            end_byte: start + 1,
            start_row: 0,
            start_column: start,
            end_row: 0,
            end_column: start + 1,
        },
    };
    LinkSuggestion::new_with_label(segment, WikiTitle::new(title, "en".to_string()), label.to_string())
}

#[test]
fn candidates_are_sorted_and_taken_once() {
    let r = sort_unique(strings(&["pear", "apple", "pear", "fig", "apple", "Zoo"]));
    assert_eq!(r, strings(&["Zoo", "apple", "fig", "pear"]));
    assert_eq!(sort_unique(Vec::new()), Vec::<String>::new());
}

#[test]
fn suggestions_sort_by_position_then_label_keeping_ties_in_order() {
    let items = vec![
        at(9, "b", "T1"),
        at(3, "z", "T2"),
        at(9, "a", "T3"),
        at(3, "z", "T4"),
        at(1, "m", "T5"),
    ];
    let sorted = sort_suggestions(items);
    let order: Vec<(usize, String, String)> = sorted
        .iter()
        .map(|s| (s.text_segment.range.start_byte, s.label.clone(), s.title.raw().to_string()))
        .collect();
    assert_eq!(
        order,
        vec![
            (1, "m".to_string(), "T5".to_string()),
            (3, "z".to_string(), "T2".to_string()),
            (3, "z".to_string(), "T4".to_string()),
            (9, "a".to_string(), "T3".to_string()),
            (9, "b".to_string(), "T1".to_string()),
        ]
    );
}

#[test]
fn consecutive_same_suggestions_are_dropped() {
    let items = vec![
        at(1, "india", "India"),
        at(2, "republic of india", "India"),
        at(3, "nepal", "Nepal"),
        at(4, "india", "India"),
        at(5, "x", PLACEHOLDER_TITLE),
        at(6, "x", PLACEHOLDER_TITLE),
        at(7, "y", PLACEHOLDER_TITLE),
    ];
    let kept = dedup_suggestions(items);
    let starts: Vec<usize> = kept.iter().map(|s| s.text_segment.range.start_byte).collect();
    assert_eq!(starts, vec![1, 3, 4, 5, 7]);
}
