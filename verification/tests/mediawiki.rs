use linksuggestion_core::mediawiki::{ApiError, api_url, wikitext_from_response};

#[test]
fn url_asks_for_the_current_wikitext() {
    assert_eq!(
        api_url("simple", "Oxygen"),
        "https://simple.wikipedia.org/w/api.php?action=query&prop=revisions&rvprop=content&format=json&titles=Oxygen&formatversion=2&redirects=1"
    );
}

#[test]
fn wikitext_is_read_from_the_first_page() {
    let json = r#"{"batchcomplete":true,"query":{"pages":[{"pageid":1,"title":"Oxygen","revisions":[{"contentformat":"text/x-wiki","content":"'''Oxygen''' is an [[element]]."}]}]}}"#;
    assert_eq!(wikitext_from_response(json), Ok("'''Oxygen''' is an [[element]].".to_string()));
}

#[test]
fn missing_pages_and_bad_answers_are_errors() {
    let missing = r#"{"query":{"pages":[{"title":"Nope","missing":true}]}}"#;
    assert_eq!(wikitext_from_response(missing), Err(ApiError::MissingWikitext));
    assert_eq!(wikitext_from_response("<html>oops</html>"), Err(ApiError::InvalidJson));
    assert_eq!(wikitext_from_response(r#"{"query":{"pages":[{"revisions":[{"content":5}]}]}}"#), Err(ApiError::MissingWikitext));
}
