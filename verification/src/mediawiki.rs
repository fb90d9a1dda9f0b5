//! Asking the MediaWiki API for an article's wikitext: the request's URL,
//! and the wikitext read out of the JSON answer.

use vstd::prelude::*;

use crate::text::{push_text, string_from};

verus! {

broadcast use vstd::string::group_string_axioms;

/// The URL that asks the `language` Wikipedia for the current wikitext of
/// `title`, following redirects.
pub open spec fn api_url_of(language: Seq<char>, title: Seq<char>) -> Seq<char> {
    "https://"@ + language
        + ".wikipedia.org/w/api.php?action=query&prop=revisions&rvprop=content&format=json&titles="@
        + title + "&formatversion=2&redirects=1"@
}

/// The URL that asks for the wikitext of `title` in the `language` Wikipedia.
pub fn api_url(language: &str, title: &str) -> (r: String)
    ensures
        r@ == api_url_of(language@, title@),
{
    let mut out: Vec<char> = Vec::new();
    push_text(&mut out, "https://");
    push_text(&mut out, language);
    push_text(
        &mut out,
        ".wikipedia.org/w/api.php?action=query&prop=revisions&rvprop=content&format=json&titles=",
    );
    push_text(&mut out, title);
    push_text(&mut out, "&formatversion=2&redirects=1");
    assert(out@ =~= api_url_of(language@, title@));
    string_from(out.as_slice())
}

/// What reading an API answer as JSON finds: `None` when the answer is no
/// JSON; else the string at `query.pages[0].revisions[0].content`, if
/// there is one.
pub uninterp spec fn api_content(json: Seq<char>) -> Option<Option<Seq<char>>>;

/// Parses the answer with `serde_json::from_str` into a `serde_json::Value`
/// and takes the string at `query.pages[0].revisions[0].content` with
/// `Value::as_str`. The JSON grammar is not stated: the result is named.
#[verifier::external_body]
fn read_api_content(json: &str) -> (r: Option<Option<String>>)
    ensures
        match r {
            None => api_content(json@) is None,
            Some(None) => api_content(json@) == Some(None::<Seq<char>>),
            Some(Some(t)) => api_content(json@) == Some(Some(t@)),
        },
{
    let v: serde_json::Value = serde_json::from_str(json).ok()?;
    Some(v["query"]["pages"][0]["revisions"][0]["content"].as_str().map(|t| t.to_string()))
}

/// Why an API answer gave no wikitext.
#[derive(Debug, Clone, Copy, PartialEq, Eq)]
pub enum ApiError {
    /// The answer is no JSON.
    InvalidJson,
    /// The answer holds no wikitext for the article.
    MissingWikitext,
}

/// The wikitext in an API answer.
pub fn wikitext_from_response(json: &str) -> (r: Result<String, ApiError>)
    ensures
        match api_content(json@) {
            None => r == Err::<String, ApiError>(ApiError::InvalidJson),
            Some(None) => r == Err::<String, ApiError>(ApiError::MissingWikitext),
            Some(Some(t)) => r matches Ok(w) && w@ == t,
        },
{
    match read_api_content(json) {
        None => Err(ApiError::InvalidJson),
        Some(None) => Err(ApiError::MissingWikitext),
        Some(Some(t)) => Ok(t),
    }
}

} // verus!
