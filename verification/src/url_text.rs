//! The URL facts that the media tools read: scheme, path segments, percent-decoding.
use vstd::prelude::*;

verus! {

/// The scheme and path segments of a text read as a URL by the `url` crate
/// (`None` when the crate does not accept it; no segments for a cannot-be-a-base URL).
pub uninterp spec fn spec_url_parts(input: Seq<char>) -> Option<(Seq<char>, Option<Seq<Seq<char>>>)>;

/// The percent-decoding of a text by the `urlencoding` crate (`None` when the decoded
/// bytes are not UTF-8).
pub uninterp spec fn spec_url_decode(input: Seq<char>) -> Option<Seq<char>>;

/// The scheme and path segments as `url_parts` hands them out, by their views.
pub open spec fn parts_view(p: Option<(String, Option<Vec<String>>)>) -> Option<
    (Seq<char>, Option<Seq<Seq<char>>>),
> {
    match p {
        Some((scheme, segs)) => Some(
            (
                scheme@,
                match segs {
                    Some(v) => Some(Seq::new(v@.len(), |i: int| v@[i]@)),
                    None => None,
                },
            ),
        ),
        None => None,
    }
}

/// Calls `url::Url::parse`, then `Url::scheme` and `Url::path_segments` on the result.
/// The contract names the result; it states nothing more of it.
#[verifier::external_body]
pub(crate) fn url_parts(input: &str) -> (r: Option<(String, Option<Vec<String>>)>)
    ensures
        parts_view(r) == spec_url_parts(input@),
{
    match url::Url::parse(input) {
        Ok(u) => Some(
            (
                u.scheme().to_string(),
                u.path_segments().map(|s| s.map(|x| x.to_string()).collect()),
            ),
        ),
        Err(_) => None,
    }
}

/// Calls `urlencoding::decode`. The crate hands back its input unchanged when it holds no
/// `%`; the contract states that and names the result otherwise.
#[verifier::external_body]
pub(crate) fn url_decode(input: &str) -> (r: Option<String>)
    ensures
        match r {
            Some(s) => spec_url_decode(input@) == Some(s@),
            None => spec_url_decode(input@) == None::<Seq<char>>,
        },
        !input@.contains('%') ==> (r is Some && r.unwrap()@ == input@),
{
    match urlencoding::decode(input) {
        Ok(s) => Some(s.into_owned()),
        Err(_) => None,
    }
}

} // verus!
