//! The calls this library makes into other crates, each with the contract it relies on.
use rand::Rng;
use vstd::prelude::*;

verus! {

/// The canonical text of a media type parsed from the given text, or `None`
/// where the text is not a media type.
pub uninterp spec fn parsed_mime(s: Seq<char>) -> Option<Seq<char>>;

/// The media type guessed from a path's extension, as text.
pub uninterp spec fn guessed_mime(path: Seq<char>) -> Seq<char>;

/// The last component of a path, where it has one.
pub uninterp spec fn path_file_name(path: Seq<char>) -> Option<Seq<char>>;

/// An ASCII letter or digit.
pub open spec fn is_alphanumeric(c: char) -> bool {
    ('a' <= c && c <= 'z') || ('A' <= c && c <= 'Z') || ('0' <= c && c <= '9')
}

/// Relies on `FromStr for mime::Mime` and its `Display`: whether the text
/// parses, and the text the parsed value displays, depend on the input alone.
#[verifier::external_body]
pub(crate) fn parse_mime(s: &str) -> (r: Option<String>)
    ensures
        match r {
            Some(t) => parsed_mime(s@) == Some(t@),
            None => parsed_mime(s@) is None,
        },
{
    match s.parse::<mime::Mime>() {
        Ok(m) => Some(m.to_string()),
        Err(_) => None,
    }
}

/// Relies on `mime_guess::from_path(..).first_or_octet_stream()`: the guess
/// depends on the path's text alone.
#[verifier::external_body]
pub(crate) fn guess_mime(path: &str) -> (r: String)
    ensures
        r@ == guessed_mime(path@),
{
    mime_guess::from_path(path).first_or_octet_stream().to_string()
}

/// Relies on `std::path::Path::file_name`: the final component of the path,
/// if any, depends on the path's text alone.
#[verifier::external_body]
pub(crate) fn file_name_of(path: &str) -> (r: Option<String>)
    ensures
        match r {
            Some(t) => path_file_name(path@) == Some(t@),
            None => path_file_name(path@) is None,
        },
{
    match std::path::Path::new(path).file_name() {
        Some(n) => Some(n.to_string_lossy().to_string()),
        None => None,
    }
}

/// Relies on rand's `Alphanumeric` distribution sampled from `thread_rng`:
/// `length` characters, each an ASCII letter or digit.
#[verifier::external_body]
pub(crate) fn random_alphanumeric(length: usize) -> (r: String)
    ensures
        r@.len() == length,
        forall|i: int| 0 <= i < r@.len() ==> is_alphanumeric(#[trigger] r@[i]),
{
    rand::thread_rng().sample_iter(&rand::distributions::Alphanumeric).take(length).map(
        char::from,
    ).collect()
}

} // verus!
