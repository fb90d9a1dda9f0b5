use linksuggestion_core::text::{
    CharClass, char_is_ascii_punct, char_is_white, find, find_char, join_words, lower_chars,
    push_decimal, push_signed_decimal, replace_chars, split_words, trim, utf8_len,
};

fn chars(s: &str) -> Vec<char> {
    s.chars().collect()
}

fn text(v: &[char]) -> String {
    v.iter().collect()
}

#[test]
fn white_space_and_punctuation_classes() {
    assert!(char_is_white(' ') && char_is_white('\u{a0}') && char_is_white('\u{3000}'));
    assert!(!char_is_white('x') && !char_is_white('\u{200b}'));
    assert!(char_is_ascii_punct('!') && char_is_ascii_punct('_') && char_is_ascii_punct('~'));
    assert!(!char_is_ascii_punct('a') && !char_is_ascii_punct('«'));
}

#[test]
fn trimming_splitting_and_joining() {
    assert_eq!(text(&trim(&chars("  a b \n"), CharClass::White)), "a b");
    assert_eq!(text(&trim(&chars("\"'x'\""), CharClass::Exactly('"'))), "'x'");
    assert_eq!(text(&trim(&chars("...!"), CharClass::AsciiPunct)), "");
    let ws = split_words(&chars("  one\ttwo  three "));
    let words: Vec<String> = ws.iter().map(|w| text(w)).collect();
    assert_eq!(words, vec!["one", "two", "three"]);
    assert_eq!(text(&join_words(&ws, &['-'])), "one-two-three");
    assert_eq!(text(&join_words(&Vec::new(), &['-'])), "");
}

#[test]
fn finding_and_replacing() {
    assert_eq!(find(&chars("abcabc"), &chars("ca")), Some(2));
    assert_eq!(find(&chars("abc"), &chars("x")), None);
    assert_eq!(find(&chars("abc"), &[]), Some(0));
    assert_eq!(find_char(&chars("a:b:c"), ':'), Some(1));
    assert_eq!(text(&replace_chars(&chars("a b c"), ' ', '_')), "a_b_c");
}

#[test]
fn utf8_lengths_and_case() {
    assert_eq!(utf8_len(&chars("aé→😀")), "aé→😀".len());
    assert_eq!(text(&lower_chars(&chars("ÉCLAIR Ünd"))), "éclair ünd");
}

#[test]
fn decimal_numerals() {
    let mut out = Vec::new();
    push_decimal(&mut out, 0);
    out.push(' ');
    push_decimal(&mut out, 1234567890);
    out.push(' ');
    push_signed_decimal(&mut out, -42);
    out.push(' ');
    push_signed_decimal(&mut out, i64::MIN);
    assert_eq!(text(&out), format!("0 1234567890 -42 {}", i64::MIN));
}
