//! URLs, held as their serialization, and the two calls into the `url` crate
//! that the request logic makes.
use vstd::prelude::*;

verus! {

/// The error type of the `url` crate's parser.
#[verifier::external_type_specification]
#[verifier::external_body]
pub struct ExUrlParseError(url::ParseError);

/// Why a URL could not be built: the kinds of `url::ParseError`, one
/// variant each.
#[derive(Clone, Copy, Debug, PartialEq, Eq, Structural)]
pub enum UrlParseError {
    EmptyHost,
    IdnaError,
    InvalidPort,
    InvalidIpv4Address,
    InvalidIpv6Address,
    InvalidDomainCharacter,
    RelativeUrlWithoutBase,
    RelativeUrlWithCannotBeABaseBase,
    SetHostOnCannotBeABaseUrl,
    Overflow,
    /// A kind that a later version of the `url` crate may add (its error type
    /// is marked non-exhaustive); the version in use has no other kind.
    Unknown,
}

/// Name for what `url::Url::parse(input)` gives: the parsed URL's
/// serialization, or the kind of its error.
pub uninterp spec fn url_parse(input: Seq<char>) -> Result<Seq<char>, UrlParseError>;

/// Name for what `url::Url::join` gives when called on the URL whose
/// serialization is `base` with `input`: the joined URL's serialization, or
/// the kind of its error.
pub uninterp spec fn url_join(base: Seq<char>, input: Seq<char>) -> Result<Seq<char>, UrlParseError>;

/// The kind of a `url::ParseError`, variant for variant.
#[verifier::external_body]
fn error_kind(e: url::ParseError) -> UrlParseError {
    match e {
        url::ParseError::EmptyHost => UrlParseError::EmptyHost,
        url::ParseError::IdnaError => UrlParseError::IdnaError,
        url::ParseError::InvalidPort => UrlParseError::InvalidPort,
        url::ParseError::InvalidIpv4Address => UrlParseError::InvalidIpv4Address,
        url::ParseError::InvalidIpv6Address => UrlParseError::InvalidIpv6Address,
        url::ParseError::InvalidDomainCharacter => UrlParseError::InvalidDomainCharacter,
        url::ParseError::RelativeUrlWithoutBase => UrlParseError::RelativeUrlWithoutBase,
        url::ParseError::RelativeUrlWithCannotBeABaseBase => UrlParseError::RelativeUrlWithCannotBeABaseBase,
        url::ParseError::SetHostOnCannotBeABaseUrl => UrlParseError::SetHostOnCannotBeABaseUrl,
        url::ParseError::Overflow => UrlParseError::Overflow,
        _ => UrlParseError::Unknown,
    }
}

/// `url::Url::parse`, with the parsed URL given as its serialization (the
/// crate's `From<Url> for String`) and an error as its kind. Both are named:
/// the parser depends on its input alone.
#[verifier::external_body]
pub(crate) fn parse_url(input: &str) -> (r: Result<String, UrlParseError>)
    ensures
        match r {
            Ok(s) => url_parse(input@) == Ok::<Seq<char>, UrlParseError>(s@),
            Err(e) => url_parse(input@) == Err::<Seq<char>, UrlParseError>(e),
        },
{
    url::Url::parse(input).map(String::from).map_err(error_kind)
}

/// `url::Url::join` on the URL whose serialization is `base`. The URL is
/// rebuilt from its serialization with `url::Url::parse`, the inverse of the
/// conversion to `String` (the crate's own invariant check asserts that a
/// URL parses back from its serialization to the same URL), so the result is
/// that of `join` alone. The joined URL is given as its serialization and an
/// error as its kind; both are named.
#[verifier::external_body]
pub(crate) fn join_url(base: &str, input: &str) -> (r: Result<String, UrlParseError>)
    ensures
        match r {
            Ok(s) => url_join(base@, input@) == Ok::<Seq<char>, UrlParseError>(s@),
            Err(e) => url_join(base@, input@) == Err::<Seq<char>, UrlParseError>(e),
        },
{
    let b = url::Url::parse(base).map_err(error_kind)?;
    b.join(input).map(String::from).map_err(error_kind)
}

} // verus!
