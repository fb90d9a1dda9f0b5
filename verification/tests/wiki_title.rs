use linksuggestion_core::wiki_title::WikiTitle;

#[test]
fn test_basic_normalization() {
    let title = WikiTitle::new("  hello_world  ", String::from("en"));
    assert_eq!(title.normalized(), "Hello world");
}

#[test]
fn test_url_format() {
    let title = WikiTitle::new("Hello world", String::from("en"));
    assert_eq!(title.to_url_format(), "Hello_world");
}

#[test]
fn test_disambiguation() {
    let title = WikiTitle::new("Apple (fruit)", String::from("en"));
    assert!(title.is_disambiguation());
    assert_eq!(title.main_title(), "Apple");
    assert_eq!(title.disambiguation_part(), Some("fruit".to_string()));
}

#[test]
fn test_namespace() {
    let title = WikiTitle::new("User:Example", String::from("en"));
    assert_eq!(title.namespace(), Some("User".to_string()));
    assert_eq!(title.without_namespace(), "Example");
    assert!(!title.is_main_namespace());
}

#[test]
fn test_main_namespace() {
    let title = WikiTitle::new("Regular Article", String::from("en"));
    assert!(title.is_main_namespace());
    assert_eq!(title.namespace(), None);
}

#[test]
fn test_equality() {
    let title1 = WikiTitle::new("Hello_World", String::from("en"));
    let title2 = WikiTitle::new("Hello World", String::from("en"));
    assert!(title1.equals(&title2));
    assert!(title1.equals_str("hello world"));
}

#[test]
fn normalization_collapses_white_space_and_underscores() {
    let title = WikiTitle::new("\tnew__york \u{a0} city ", String::from("en"));
    assert_eq!(title.normalized(), "New york city");
    assert_eq!(title.raw(), "\tnew__york \u{a0} city ");
    assert_eq!(title.language(), "en");
    assert_eq!(title.to_display_format(), "New york city");
}

#[test]
fn empty_and_blank_titles_are_invalid() {
    assert!(!WikiTitle::new("", String::from("en")).is_valid());
    assert!(!WikiTitle::new(" _ \n", String::from("en")).is_valid());
    assert!(WikiTitle::new("a", String::from("en")).is_valid());
}

#[test]
fn explicit_disambiguation_page() {
    let title = WikiTitle::new("Mercury (disambiguation)", String::from("en"));
    assert!(title.is_disambiguation());
    assert_eq!(title.disambiguation_part(), Some("disambiguation".to_string()));
    let plain = WikiTitle::new("Mercury", String::from("en"));
    assert!(!plain.is_disambiguation());
    assert_eq!(plain.main_title(), "Mercury");
    assert_eq!(plain.disambiguation_part(), None);
}

#[test]
fn close_before_open_parenthesis_is_no_qualifier() {
    let title = WikiTitle::new("a) b (c", String::from("en"));
    assert_eq!(title.disambiguation_part(), None);
    assert_eq!(title.main_title(), "A) b");
}

#[test]
fn unknown_namespace_prefix_stays() {
    let title = WikiTitle::new("Star Wars: Episode I", String::from("en"));
    assert_eq!(title.namespace(), None);
    assert_eq!(title.without_namespace(), "Star Wars: Episode I");
    assert!(title.is_main_namespace());
    let spaced = WikiTitle::new("Education_Program:Foo", String::from("en"));
    assert_eq!(spaced.namespace(), Some("Education Program".to_string()));
    assert_eq!(spaced.without_namespace(), "Foo");
}

#[test]
fn first_letter_upper_cased_only() {
    let title = WikiTitle::new("éclair au chocolat", String::from("fr"));
    assert_eq!(title.normalized(), "Éclair au chocolat");
    assert!(!title.equals(&WikiTitle::new("Éclair Au Chocolat", String::from("fr"))));
    assert!(title.equals_str("ÉCLAIR_AU_CHOCOLAT"));
}

#[test]
fn underscores_and_spaces_name_the_same_title() {
    let forms = ["New_York_City", "New York City", "New_York City", " New  York_City_"];
    for f in forms {
        assert_eq!(WikiTitle::new(f, String::from("en")).normalized(), "New York City");
    }
    let url = WikiTitle::new("New York City", String::from("en")).to_url_format();
    assert_eq!(WikiTitle::new(&url, String::from("en")).normalized(), "New York City");
}

#[test]
fn namespace_and_rest_make_the_title() {
    for t in ["User:Example", "Help:Contents", "Category:Rivers_of_India"] {
        let title = WikiTitle::new(t, String::from("en"));
        let ns = title.namespace().unwrap();
        assert_eq!(format!("{}:{}", ns, title.without_namespace()), title.normalized());
    }
}

#[test]
fn normalize_title_is_the_normal_form() {
    assert_eq!(WikiTitle::normalize_title("  the_great  wall "), "The great wall");
    assert_eq!(WikiTitle::normalize_title(""), "");
    assert_eq!(WikiTitle::normalize_title("ßtraße"), "Straße");
}

#[test]
fn normal_form_is_stable() {
    for t in ["  hello_world  ", "Apple (fruit)", "éclair au_chocolat", "User:Some  body", ""] {
        let once = WikiTitle::normalize_title(t);
        assert_eq!(WikiTitle::normalize_title(&once), once);
    }
}

#[test]
fn url_form_names_the_same_title() {
    for t in ["new_york city", "  Taj  Mahal ", "user:Example", "a_b_c"] {
        let title = WikiTitle::new(t, String::from("en"));
        let url = title.to_url_format();
        assert!(!url.contains(' '));
        assert_eq!(WikiTitle::new(&url, String::from("en")).normalized(), title.normalized());
        assert!(title.equals_str(&url));
        assert!(title.equals_str(title.normalized()));
        assert!(title.equals_str(t));
        let n = title.normalized();
        assert!(!n.contains('_') && n == n.trim() && !n.contains("  "));
    }
}
