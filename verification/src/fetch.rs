//! Classification of a release-listing response body.
//!
//! The body text of a successful request is classified as: not JSON at
//! all; JSON but not a list; a list whose first element carries no tag
//! (or an empty list); or a list whose first element carries a tag
//! string. The classification is done by `serde_json` behind a trusted
//! wrapper; everything downstream is verified against its outcome.

use vstd::prelude::*;

verus! {

/// The abstract outcome of classifying a body text.
pub enum BodyClass {
    /// The text is not valid JSON.
    NotJson,
    /// Valid JSON, but not a list.
    NotList,
    /// A list, but its first element carries no tag string (or the
    /// list is empty).
    NoTag,
    /// A list whose first element carries this tag string.
    Tag(Seq<char>),
}

/// The classification of a release-listing body: a function of the
/// body text alone.
pub uninterp spec fn body_class_of(s: Seq<char>) -> BodyClass;

/// The executable outcome of classifying a body text.
#[derive(Debug, PartialEq, Eq)]
pub enum FetchParse {
    NotJson,
    NotList,
    NoTag,
    Tag(String),
}

/// The per-repository fetch errors: a failed transport, or a body that
/// is not JSON.
#[derive(Debug, PartialEq, Eq, Clone, Copy)]
pub enum FetchError {
    Transport,
    Parse,
}

/// The executable outcome agrees with the abstract classification.
pub open spec fn class_matches(r: FetchParse, c: BodyClass) -> bool {
    match r {
        FetchParse::NotJson => c is NotJson,
        FetchParse::NotList => c is NotList,
        FetchParse::NoTag => c is NoTag,
        FetchParse::Tag(t) => c matches BodyClass::Tag(tc) && tc == t@,
    }
}

/// Relies on `serde_json::from_str`, `Value::as_array`, `Value::get`
/// and `Value::as_str`: a parse failure means the text is not JSON; a
/// value that is not an array means no list; otherwise the `tag_name`
/// field of the first element, when it is a string, is the tag. The
/// outcome depends on the body text alone.
#[verifier::external_body]
pub(crate) fn classify_release_body(body: &str) -> (r: FetchParse)
    ensures
        class_matches(r, body_class_of(body@)),
{
    let parsed: Result<serde_json::Value, serde_json::Error> = serde_json::from_str(body);
    let v = match parsed { Ok(v) => v, Err(_) => return FetchParse::NotJson };
    let items = match v.as_array() { Some(a) => a, None => return FetchParse::NotList };
    let first = match items.first() { Some(f) => f, None => return FetchParse::NoTag };
    let tag_field = match first.get("tag_name") { Some(t) => t, None => return FetchParse::NoTag };
    match tag_field.as_str() {
        Some(tag) => FetchParse::Tag(tag.to_string()),
        None => FetchParse::NoTag,
    }
}

/// The releases-listing endpoint for a repository.
pub fn release_url(repo: &String) -> (r: String)
    ensures
        r@ == "https://api.github.com/repos/"@ + repo@ + "/releases"@,
{
    let mut url = String::from_str("https://api.github.com/repos/");
    url.append(repo.as_str());
    url.append("/releases");
    url
}

/// The fixed identifying header value sent with every request, so the
/// endpoint does not reject it.
pub fn user_agent() -> (r: &'static str)
    ensures
        r@ == "curl/8.11.0"@,
{
    "curl/8.11.0"
}

/// The per-repository fetch result in terms of the classification: a
/// body that is not JSON is a parse error; a non-list body and a
/// missing tag are no observation; otherwise the observed tag.
pub fn release_result(p: FetchParse) -> (r: Result<Option<String>, FetchError>)
    ensures
        match p {
            FetchParse::NotJson => r matches Err(e) && e == FetchError::Parse,
            FetchParse::NotList => r matches Ok(o) && o is None,
            FetchParse::NoTag => r matches Ok(o) && o is None,
            FetchParse::Tag(t) => r matches Ok(o) && o matches Some(s) && s@ == t@,
        },
{
    match p {
        FetchParse::NotJson => Err(FetchError::Parse),
        FetchParse::NotList => Ok(None),
        FetchParse::NoTag => Ok(None),
        FetchParse::Tag(t) => Ok(Some(t)),
    }
}

} // verus!
