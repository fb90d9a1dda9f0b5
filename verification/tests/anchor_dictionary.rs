use linksuggestion_core::anchor_dictionary::{
    DumpAction, DumpEvent, DumpReader, LinkRecord, dump_language, link_label, query_header,
    tab_separated,
    tsv_line,
};
use linksuggestion_core::wiki_title::WikiTitle;
use linksuggestion_core::wikitext::{TextRange, WikiLink};

fn start(name: &str) -> DumpEvent {
    DumpEvent::Start(name.to_string())
}

fn text(t: &str) -> DumpEvent {
    DumpEvent::Text(t.to_string())
}

fn feed(reader: &mut DumpReader, events: Vec<DumpEvent>) -> Vec<DumpAction> {
    events.into_iter().map(|e| reader.step(e)).collect()
}

fn page(title: &str, ns: &str, redirect: bool, body: &str) -> Vec<DumpEvent> {
    let mut events = vec![
        start("page"),
        start("title"),
        text(title),
        DumpEvent::End,
        start("ns"),
        text(ns),
        DumpEvent::End,
        start("id"),
        text("42"),
        DumpEvent::End,
    ];
    if redirect {
        events.push(DumpEvent::Empty("redirect".to_string()));
    }
    events.extend(vec![
        start("revision"),
        start("text"),
        text(body),
        DumpEvent::End,
        DumpEvent::End,
        DumpEvent::End,
    ]);
    events
}

fn range() -> TextRange {
    TextRange { start_byte: 0, end_byte: 1, start_row: 0, start_column: 0, end_row: 0, end_column: 1 }
}

#[test]
fn language_argument_loses_its_wiki_suffix() {
    assert_eq!(dump_language("enwiki"), "en");
    assert_eq!(dump_language("simple"), "simple");
    assert_eq!(dump_language("wiki"), "");
    assert_eq!(dump_language("ml"), "ml");
}

#[test]
fn new_reader_has_an_empty_article() {
    let r = DumpReader::new("ml");
    let a = r.article();
    assert_eq!(a.language, "ml");
    assert_eq!(a.text, "");
    assert_eq!(a.id, "");
    assert_eq!(a.namespace, 0);
    assert!(!a.redirect);
    assert_eq!(a.title.raw(), "");
    assert_eq!(a.title.language(), "ML");
}

#[test]
fn a_main_namespace_article_hands_over_its_text() {
    let mut r = DumpReader::new("en");
    assert_eq!(r.step(start("mediawiki")), DumpAction::Continue);
    let actions = feed(&mut r, page("new_delhi", "0", false, "Capital of [[India]]"));
    let taken: Vec<usize> = actions
        .iter()
        .enumerate()
        .filter(|(_, a)| **a == DumpAction::TakeLinks)
        .map(|(i, _)| i)
        .collect();
    assert_eq!(taken, vec![13]);
    let a = r.article();
    assert_eq!(a.text, "Capital of [[India]]\n");
    assert_eq!(a.id, "42");
    assert_eq!(a.namespace, 0);
    assert_eq!(a.title.normalized(), "New delhi");
    assert_eq!(a.title.language(), "en");
}

#[test]
fn other_namespaces_and_redirects_are_passed_over() {
    let mut r = DumpReader::new("en");
    r.step(start("mediawiki"));
    let talk = feed(&mut r, page("Talk:India", "1", false, "chat"));
    assert!(talk.iter().all(|a| *a == DumpAction::Continue));
    assert_eq!(r.article().namespace, 1);
    let bad_ns = feed(&mut r, page("Odd", "x1", false, "text"));
    assert!(bad_ns.iter().all(|a| *a == DumpAction::Continue));
    assert_eq!(r.article().namespace, 999999);
    let redirect = feed(&mut r, page("Bharat", "0", true, "#REDIRECT [[India]]"));
    assert!(redirect.iter().all(|a| *a == DumpAction::Continue));
    assert!(r.article().redirect);
    // The next page starts clean again.
    let next = feed(&mut r, page("India", "0", false, "Country"));
    assert!(next.contains(&DumpAction::TakeLinks));
    assert!(!r.article().redirect);
}

#[test]
fn text_outside_a_page_is_ignored() {
    let mut r = DumpReader::new("en");
    assert_eq!(r.step(start("siteinfo")), DumpAction::Continue);
    assert_eq!(r.step(text("Wikipedia")), DumpAction::Continue);
    assert_eq!(r.step(DumpEvent::End), DumpAction::Continue);
    assert_eq!(r.step(DumpEvent::End), DumpAction::Continue);
    assert_eq!(r.article().text, "");
    assert_eq!(r.article().title.raw(), "");
}

#[test]
fn records_use_title_keys_and_lower_case_labels() {
    let article = WikiTitle::new("new delhi", "en".to_string());
    let labelled = WikiLink {
        label: Some("Republic of India".to_string()),
        title: WikiTitle::new("india", "en".to_string()),
        range: range(),
    };
    let plain = WikiLink { label: None, title: WikiTitle::new("south_asia", "en".to_string()), range: range() };
    assert_eq!(link_label(&labelled), "Republic of India");
    assert_eq!(link_label(&plain), "South asia");
    let r = LinkRecord::new(&article, &labelled);
    assert_eq!(r.article_title, "New_delhi");
    assert_eq!(r.link_title, "India");
    assert_eq!(r.link_label, "republic of india");
    assert_eq!(r.stored_label(), "republic of india");
    assert_eq!(tsv_line(&article, &plain), "New_delhi\tSouth_asia\tSouth asia");
}

#[test]
fn fields_are_joined_by_tabs() {
    let row = vec!["a".to_string(), "".to_string(), "b c".to_string()];
    assert_eq!(tab_separated(&row), "a\t\tb c");
    assert_eq!(tab_separated(&Vec::new()), "");
}

#[test]
fn header_row_unless_asked_away() {
    let names = vec!["article_title".to_string(), "link_title".to_string()];
    assert_eq!(
        query_header(&names, false),
        Some("article_title\tlink_title".to_string())
    );
    assert_eq!(query_header(&names, true), None);
    assert_eq!(query_header(&Vec::new(), false), None);
}
