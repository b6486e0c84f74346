//! Locale identifiers, by way of `icu_locale`.

use icu_locale::{Locale, LocaleCanonicalizer, ParseError};
use vstd::prelude::*;

use crate::error::{Error, ErrorView};

verus! {

#[verifier::external_type_specification]
#[verifier::external_body]
pub struct ExLocale(Locale);

#[verifier::external_type_specification]
#[verifier::external_body]
pub struct ExParseError(ParseError);

/// What parsing an identifier as a `Locale` returns.
pub uninterp spec fn parsed_locale(identifier: Seq<char>) -> Result<Locale, ParseError>;

/// What `LocaleCanonicalizer::canonicalize`, with data for all locales, makes of a locale.
pub uninterp spec fn canonical_locale(locale: Locale) -> Locale;

/// The message of an error of the locale parser.
pub uninterp spec fn parse_error_text(error: ParseError) -> Seq<char>;

/// `Locale::from_str` parses a locale identifier. Its result depends on the identifier
/// alone.
#[verifier::external_body]
fn parse_locale(identifier: &str) -> (locale: Result<Locale, ParseError>)
    ensures
        locale == parsed_locale(identifier@),
{
    identifier.parse::<Locale>()
}

/// `LocaleCanonicalizer::canonicalize` replaces a locale by its canonical form. Its result
/// depends on the locale alone, since the data is compiled in.
#[verifier::external_body]
fn canonicalize(locale: &mut Locale)
    ensures
        *final(locale) == canonical_locale(*old(locale)),
{
    LocaleCanonicalizer::new_extended().canonicalize(locale);
}

/// `ParseError::to_string` describes an error of the locale parser.
#[verifier::external_body]
fn describe(error: &ParseError) -> (message: String)
    ensures
        message@ == parse_error_text(*error),
{
    error.to_string()
}

/// The canonical locale of an identifier, given what parsing it returns.
pub open spec fn locale_of(identifier: Seq<char>, parsed: Result<Locale, ParseError>) -> Result<
    Locale,
    ErrorView,
> {
    match parsed {
        Ok(locale) => Ok(canonical_locale(locale)),
        Err(error) => Err(
            ErrorView::InvalidLocale { value: identifier, reason: parse_error_text(error) },
        ),
    }
}

/// The view of a locale that was read.
pub open spec fn locale_outcome(locale: Result<Locale, Error>) -> Result<Locale, ErrorView> {
    match locale {
        Ok(locale) => Ok(locale),
        Err(error) => Err(error@),
    }
}

/// Makes the canonical locale of what parsing an identifier returned.
pub fn accept_locale(identifier: &str, parsed: Result<Locale, ParseError>) -> (locale: Result<
    Locale,
    Error,
>)
    ensures
        locale_outcome(locale) == locale_of(identifier@, parsed),
{
    match parsed {
        Ok(locale) => {
            let mut canonical = locale;
            canonicalize(&mut canonical);
            Ok(canonical)
        },
        Err(error) => Err(
            Error::InvalidLocale { value: identifier.to_owned(), reason: describe(&error) },
        ),
    }
}

/// Parses and canonicalizes a locale identifier.
pub fn read_locale(identifier: &str) -> (locale: Result<Locale, Error>)
    ensures
        locale_outcome(locale) == locale_of(identifier@, parsed_locale(identifier@)),
{
    accept_locale(identifier, parse_locale(identifier))
}

} // verus!
