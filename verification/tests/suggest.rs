use bloomfilter::Bloom;
use linksuggestion_core::bloom_filter::BloomFilterManager;
use linksuggestion_core::suggest::{article_suggestions, process_text_segments};
use linksuggestion_core::wikitext::{TextRange, TextSegment, WikiText};

fn filter(words: &[&str]) -> BloomFilterManager {
    let empty = Bloom::<str>::new_for_fp_rate_with_seed(1000, 0.000001, &[3u8; 32])
        .unwrap()
        .as_slice()
        .to_vec();
    let lines: Vec<String> = words.iter().map(|s| s.to_string()).collect();
    BloomFilterManager::build_from_lines(&empty, &lines).unwrap().0
}

fn segment(text: &str, start: usize) -> TextSegment {
    TextSegment {
        text: text.to_string(),
        range: TextRange {
            start_byte: start,
            end_byte: start + text.len(),
            start_row: 0,
            start_column: start,
            end_row: 0,
            end_column: start + text.len(),
        },
    }
}

#[test]
fn segments_give_known_titles_and_labels_in_order() {
    let titles = filter(&["India", "New_delhi"]);
    let labels = filter(&["capital"]);
    let segments = vec![segment("Capital of India is New Delhi", 40), segment("India again", 5)];
    let r = process_text_segments(segments, &titles, &labels, "en");
    let got: Vec<(usize, String, String)> = r
        .iter()
        .map(|s| (s.text_segment.range.start_byte, s.label.clone(), s.title.normalized().to_string()))
        .collect();
    assert_eq!(
        got,
        vec![
            (5, "india".to_string(), "India".to_string()),
            (40, "capital".to_string(), "WE WILL FIGURE OUT LATER".to_string()),
            (40, "india".to_string(), "India".to_string()),
            (40, "new delhi".to_string(), "New delhi".to_string()),
        ]
    );
    for s in &r {
        assert_eq!(s.frequency, Some(0));
        assert!(titles.check_word(&s.title.to_url_format()) || labels.check_word(&s.label));
    }
}

#[test]
fn nothing_known_gives_nothing() {
    let titles = filter(&["Nepal"]);
    let labels = filter(&["kathmandu"]);
    let r = process_text_segments(vec![segment("Capital of India", 0)], &titles, &labels, "en");
    assert!(r.is_empty());
}

#[test]
fn article_suggestions_leave_out_existing_links_and_the_article() {
    let titles = filter(&["India", "New_delhi", "Asia"]);
    let labels = filter(&["capital"]);
    let mut parser = WikiText::new().unwrap();
    let wikitext = "The capital of [[India]] is New Delhi in Asia.\n";
    let r = article_suggestions(&mut parser, wikitext, &titles, &labels, "en", "Asia").unwrap();
    let labels_found: Vec<String> = r.iter().map(|s| s.label.clone()).collect();
    assert!(labels_found.contains(&"new delhi".to_string()));
    assert!(!labels_found.contains(&"india".to_string()));
    assert!(!labels_found.contains(&"asia".to_string()));
    for (i, a) in r.iter().enumerate() {
        for b in &r[i + 1..] {
            assert_ne!(a.label, b.label);
        }
        assert!(titles.check_word(&a.title.to_url_format()) || labels.check_word(&a.label));
    }
}
