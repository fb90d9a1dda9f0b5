use linksuggestion_core::edit::calculate_link_edit_positions;

#[test]
fn label_becomes_piped_link() {
    let r = calculate_link_edit_positions(
        "\nLink to India should appear here\n".to_string(),
        "India".to_string(),
    );
    assert_eq!(
        r,
        Some((
            9,
            14,
            24,
            "[[India|India]]".to_string(),
            "\nLink to [[India|India]] should appear here\n".to_string()
        ))
    );
}

#[test]
fn absent_label_gives_no_edit() {
    let r = calculate_link_edit_positions("Nothing here".to_string(), "India".to_string());
    assert_eq!(r, None);
}

#[test]
fn only_first_occurrence_is_linked() {
    let r = calculate_link_edit_positions("cat and cat".to_string(), "cat".to_string()).unwrap();
    assert_eq!(r.0, 0);
    assert_eq!(r.1, 3);
    assert_eq!(r.2, 11);
    assert_eq!(r.4, "[[cat|cat]] and cat");
}

#[test]
fn offsets_count_bytes_of_multibyte_text() {
    // "é" takes two bytes, "→" three.
    let r = calculate_link_edit_positions("é → Nepal!".to_string(), "Nepal".to_string()).unwrap();
    assert_eq!(r.0, 7);
    assert_eq!(r.1, 12);
    assert_eq!(r.2, 7 + "[[Nepal|Nepal]]".len());
    assert_eq!(r.4, "é → [[Nepal|Nepal]]!");
}

#[test]
fn edit_replaces_only_the_label() {
    let text = "Rivers of Asia: Ganga".to_string();
    let label = "Asia".to_string();
    let (start, end, new_end, markup, edited) =
        calculate_link_edit_positions(text.clone(), label.clone()).unwrap();
    assert_eq!(&edited[start..new_end], markup);
    assert_eq!(end - start, label.len());
    assert_eq!(new_end - start, 2 * label.len() + 5);
    assert_eq!(edited.len(), text.len() + label.len() + 5);
    let restored = format!("{}{}{}", &edited[..start], label, &edited[new_end..]);
    assert_eq!(restored, text);
}

#[test]
fn empty_label_links_at_start() {
    let r = calculate_link_edit_positions("abc".to_string(), String::new()).unwrap();
    assert_eq!(r, (0, 0, 5, "[[|]]".to_string(), "[[|]]abc".to_string()));
}
