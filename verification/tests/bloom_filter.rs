use bloomfilter::Bloom;
use linksuggestion_core::bloom_filter::{BloomError, BloomFilterManager};

fn empty_filter(items: usize) -> Vec<u8> {
    Bloom::<str>::new_for_fp_rate_with_seed(items, 0.001, &[7u8; 32])
        .unwrap()
        .as_slice()
        .to_vec()
}

fn lines(v: &[&str]) -> Vec<String> {
    v.iter().map(|s| s.to_string()).collect()
}

#[test]
fn capacity_is_one_per_line() {
    assert_eq!(BloomFilterManager::line_capacity(&lines(&["a", "", "b"])), Ok(3));
    assert_eq!(BloomFilterManager::line_capacity(&Vec::new()), Err(BloomError::EmptyInput));
}

#[test]
fn built_filter_reports_every_trimmed_line() {
    let input = lines(&["  India ", "", "   ", "Nepal", "South_Asia"]);
    let empty = empty_filter(input.len());
    let (m, added) = BloomFilterManager::build_from_lines(&empty, &input).unwrap();
    assert_eq!(added, 3);
    assert!(m.has_bits());
    assert!(m.check_word("India"));
    assert!(m.check_word("Nepal"));
    assert!(m.check_word("South_Asia"));
    // The bytes keep their length and header.
    let bytes = m.to_bytes();
    assert_eq!(bytes.len(), empty.len());
    assert_eq!(&bytes[..45], &empty[..45]);
}

#[test]
fn empty_filter_reports_nothing_and_setting_changes_bytes() {
    let empty = empty_filter(10);
    let m0 = BloomFilterManager::from_bytes(&empty).unwrap();
    assert!(!m0.check_word("India"));
    let (m, added) = BloomFilterManager::build_from_lines(&empty, &lines(&["India"])).unwrap();
    assert_eq!(added, 1);
    assert_ne!(m.to_bytes(), empty);
    assert!(m.check_word("India"));
}

#[test]
fn saved_filter_loads_back_the_same() {
    let input = lines(&["alpha", "beta", "gamma"]);
    let (m, _) = BloomFilterManager::build_from_lines(&empty_filter(3), &input).unwrap();
    let saved = m.to_bytes();
    let loaded = BloomFilterManager::from_bytes(&saved).unwrap();
    assert_eq!(loaded.to_bytes(), saved);
    for w in ["alpha", "beta", "gamma", "delta", "epsilon"] {
        assert_eq!(loaded.check_word(w), m.check_word(w));
    }
    assert!(loaded.check_word("beta"));
}

#[test]
fn bytes_that_are_no_filter_are_refused() {
    assert!(matches!(
        BloomFilterManager::from_bytes(&[]),
        Err(BloomError::InvalidFilter(_))
    ));
    let mut bad = empty_filter(5);
    bad[0] = 9;
    assert!(matches!(
        BloomFilterManager::from_bytes(&bad),
        Err(BloomError::InvalidFilter(_))
    ));
    assert!(matches!(
        BloomFilterManager::build_from_lines(&bad, &lines(&["x"])),
        Err(BloomError::InvalidFilter(_))
    ));
}

#[test]
fn header_only_filter_has_no_bits() {
    let mut header = empty_filter(5)[..45].to_vec();
    header[1..9].copy_from_slice(&0u64.to_le_bytes());
    let m = BloomFilterManager::from_bytes(&header).unwrap();
    assert!(!m.has_bits());
}

#[test]
fn the_bytes_depend_only_on_the_added_entries() {
    let empty = empty_filter(10);
    let (a, _) = BloomFilterManager::build_from_lines(&empty, &lines(&["india", "nepal"])).unwrap();
    let (b, _) = BloomFilterManager::build_from_lines(&empty, &lines(&["  india", "", "nepal \t"])).unwrap();
    assert_eq!(a.to_bytes(), b.to_bytes());
    let (c, _) = BloomFilterManager::build_from_lines(&empty, &lines(&["india"])).unwrap();
    assert_ne!(a.to_bytes(), c.to_bytes());
}
