//! Locale tags, parsed by `unic_locale`.

use unic_locale::parser::ParserError;
use unic_locale::Locale;
use vstd::prelude::*;

verus! {

#[verifier::external_type_specification]
#[verifier::external_body]
pub struct ExLocale(Locale);

#[verifier::external_type_specification]
#[verifier::external_body]
pub struct ExParserError(ParserError);

/// Whether `tag` is a language identifier as `unic_locale` parses one:
/// language, script, region and variant subtags, separated by `-` or `_`.
/// Parsing depends on the characters of the tag alone.
pub uninterp spec fn is_locale_tag(tag: Seq<char>) -> bool;

/// Relies on `unic_locale::LanguageIdentifier::from_bytes`, which parses a
/// language identifier and fails on any other input, and on
/// `Locale::from`, which makes a locale of it without extensions. Tags with
/// extension subtags are not taken: `unic_locale::parser::parse_locale`
/// would read them, but it panics on a malformed one. A rejected tag is
/// reported as an invalid subtag.
#[verifier::external_body]
pub fn parse_locale_tag(tag: &str) -> (r: Result<Locale, ParserError>)
    ensures
        r is Ok <==> is_locale_tag(tag@),
{
    unic_locale::LanguageIdentifier::from_bytes(tag.as_bytes())
        .map(Locale::from)
        .map_err(|_| ParserError::InvalidSubtag)
}

/// Relies on the derived `Default` of `unic_locale::Locale`.
pub assume_specification[ <Locale as core::default::Default>::default ]() -> Locale;

/// The locale used where a template sets none: `en-US`.
pub fn default_locale() -> Locale {
    match parse_locale_tag("en-US") {
        Ok(locale) => locale,
        Err(_) => Locale::default(),
    }
}

/// Relies on the `Display` of `unic_locale::parser::ParserError`, which
/// names the kind of failure.
#[verifier::external_body]
pub fn locale_error_message(e: &ParserError) -> String {
    e.to_string()
}

} // verus!
