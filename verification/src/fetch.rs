//! What one fetch came to, and the rule that decides it: only a response
//! whose content type is exactly `text/html` is a document.

use vstd::prelude::*;

verus! {

/// The outcome of fetching one URL.
#[derive(Debug, PartialEq, Eq)]
pub enum FetchOutcome {
    /// The response was an HTML document; this is its body.
    Document(String),
    /// The response was something else than HTML: skipped, no fault.
    NotApplicable,
    /// The request itself failed.
    Failed,
}

/// The one content type that counts as HTML.
pub open spec fn html_content_type() -> Seq<char> {
    "text/html"@
}

/// Whether `content_type` is exactly `text/html`: a value with a parameter
/// such as a charset, or in another case, is not.
pub fn is_html(content_type: &str) -> (html: bool)
    ensures
        html == (content_type@ == html_content_type()),
{
    let given = content_type.to_owned();
    let wanted = "text/html".to_owned();
    given == wanted
}

/// The outcome of a request that was answered with the given content type
/// header and body: the body where the content type is exactly `text/html`,
/// and a skip otherwise, also where the header is missing.
pub fn outcome_of(content_type: Option<&str>, body: String) -> (outcome: FetchOutcome)
    ensures
        outcome == match content_type {
            Some(t) => if t@ == html_content_type() {
                FetchOutcome::Document(body)
            } else {
                FetchOutcome::NotApplicable
            },
            None => FetchOutcome::NotApplicable,
        },
{
    match content_type {
        Some(t) => {
            if is_html(t) {
                FetchOutcome::Document(body)
            } else {
                FetchOutcome::NotApplicable
            }
        },
        None => FetchOutcome::NotApplicable,
    }
}

} // verus!
