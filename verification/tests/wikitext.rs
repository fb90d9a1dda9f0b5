use linksuggestion_core::wikitext::{TextRange, TextSegment, WikiText};

fn segment(text: &str) -> TextSegment {
    TextSegment {
        text: text.to_string(),
        range: TextRange {
            start_byte: 10,
            end_byte: 10 + text.len(),
            start_row: 2,
            start_column: 0,
            end_row: 2,
            end_column: text.len(),
        },
    }
}

fn strings(v: &[&str]) -> Vec<String> {
    v.iter().map(|s| s.to_string()).collect()
}

#[test]
fn one_grams_drop_numbers_punctuation_and_short_words() {
    let s = segment("Hello, World! 3.14 is a \"pi\". 42 -7 1e5 NaN x");
    assert_eq!(s.one_grams(), strings(&["hello", "world", "is", "pi"]));
}

#[test]
fn one_grams_count_bytes_not_characters() {
    // "é" is one character but two bytes, so it stays.
    let s = segment("é a ü");
    assert_eq!(s.one_grams(), strings(&["é", "ü"]));
}

#[test]
fn bigrams_and_trigrams_join_neighbours() {
    let s = segment("The quick brown fox");
    assert_eq!(s.bigrams(), strings(&["the quick", "quick brown", "brown fox"]));
    assert_eq!(s.trigrams(), strings(&["the quick brown", "quick brown fox"]));
    assert_eq!(
        s.link_candidates(),
        strings(&[
            "the",
            "quick",
            "brown",
            "fox",
            "the quick",
            "quick brown",
            "brown fox",
            "the quick brown",
            "quick brown fox"
        ])
    );
}

#[test]
fn short_texts_have_no_bigrams() {
    let s = segment("alone");
    assert_eq!(s.bigrams(), Vec::<String>::new());
    assert_eq!(s.trigrams(), Vec::<String>::new());
    assert_eq!(s.link_candidates(), strings(&["alone"]));
}

#[test]
fn segment_is_described_with_its_range() {
    let s = segment("Some text");
    assert_eq!(s.describe(), "TextSegment[2:0-2:9]: \"Some text\"");
}

#[test]
fn wikitext_reader_loads() {
    assert!(WikiText::new().is_ok());
}

#[test]
fn links_are_extracted_with_titles_and_labels() {
    let mut w = WikiText::new().unwrap();
    let links = w
        .extract_links("Rivers of [[India]] and [[Nepal|the country]].\n")
        .unwrap();
    let titles: Vec<String> = links.iter().map(|l| l.title.normalized().to_string()).collect();
    assert!(titles.contains(&"India".to_string()));
    assert!(titles.contains(&"Nepal".to_string()));
    for l in &links {
        assert_eq!(l.title.language(), "en");
    }
}

#[test]
fn links_to_other_namespaces_are_skipped() {
    let mut w = WikiText::new().unwrap();
    let links = w
        .extract_links("See [[File:Map.png]] and [[Category:Rivers]].\n")
        .unwrap();
    assert!(links.is_empty());
}

#[test]
fn text_segments_come_from_paragraphs() {
    let mut w = WikiText::new().unwrap();
    let segments = w.extract_text("Plain words here.\n").unwrap();
    assert!(!segments.is_empty());
    let all: String = segments.iter().map(|s| s.text.clone()).collect::<Vec<_>>().join(" ");
    assert!(all.contains("Plain words here"));
}

#[test]
fn segment_text_is_the_source_at_its_range() {
    let mut w = WikiText::new().unwrap();
    let source = "First paragraph with é and [[Link]] text.\n\nSecond one.\n";
    let segments = w.extract_text(source).unwrap();
    assert!(!segments.is_empty());
    for s in &segments {
        assert_eq!(&source[s.range.start_byte..s.range.end_byte], s.text);
    }
}

#[test]
fn link_title_is_the_source_at_its_range() {
    let mut w = WikiText::new().unwrap();
    let source = "Rivers of [[India]] and [[Nepal|the country]] and [[\"Quoted\"]].\n";
    let links = w.extract_links(source).unwrap();
    assert!(!links.is_empty());
    for l in &links {
        let text = &source[l.range.start_byte..l.range.end_byte];
        assert_eq!(text.trim_matches('"').trim_matches('\''), l.title.raw());
    }
}
