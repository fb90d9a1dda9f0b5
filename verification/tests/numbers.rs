use linksuggestion_core::numbers::{is_float_text, parse_usize_text};

fn chars(s: &str) -> Vec<char> {
    s.chars().collect()
}

#[test]
fn float_literals_are_recognised_as_rust_reads_them() {
    for t in ["3", "3.14", "-2.5", "+7", ".5", "5.", "1e5", "1E-3", "2.5e+10", "inf", "-Infinity", "NaN", "nan"] {
        assert!(is_float_text(&chars(t)), "{t}");
        assert!(t.parse::<f64>().is_ok(), "{t}");
    }
    for t in ["", ".", "e5", "1e", "abc", "1.2.3", "--1", "1,5", "infinit", "0x10", " 1"] {
        assert!(!is_float_text(&chars(t)), "{t}");
        assert!(t.parse::<f64>().is_err(), "{t}");
    }
}

#[test]
fn usize_is_read_as_rust_reads_it() {
    assert_eq!(parse_usize_text(&chars("0")), Some(0));
    assert_eq!(parse_usize_text(&chars("14")), Some(14));
    assert_eq!(parse_usize_text(&chars("+14")), Some(14));
    assert_eq!(parse_usize_text(&chars("18446744073709551615")), Some(usize::MAX));
    assert_eq!(parse_usize_text(&chars("18446744073709551616")), None);
    assert_eq!(parse_usize_text(&chars("")), None);
    assert_eq!(parse_usize_text(&chars("+")), None);
    assert_eq!(parse_usize_text(&chars("-1")), None);
    assert_eq!(parse_usize_text(&chars("1 ")), None);
}
