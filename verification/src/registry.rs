//! The ISO 639 language registry: each known language has an ordinal, a
//! three-letter code and, for the most common ones, a two-letter code.
//!
//! The table itself belongs to the `isolang` crate. What it holds is named
//! here, not stated: the functions below say which lookup is made for which
//! code, and nothing about what the table answers.

use vstd::prelude::*;

verus! {

/// How many languages the registry knows: ordinals are below this number.
pub const ISOLANG_OVERVIEW_LEN: usize = 7916;

/// The ordinal that `isolang` gives for a two-letter (ISO 639-1) code.
pub uninterp spec fn ordinal_of_639_1(code: Seq<char>) -> Option<usize>;

/// The ordinal that `isolang` gives for a three-letter (ISO 639-3) code.
pub uninterp spec fn ordinal_of_639_3(code: Seq<char>) -> Option<usize>;

/// The two-letter code that `isolang` gives for the language with this ordinal.
pub uninterp spec fn code_639_1_of(ordinal: usize) -> Option<Seq<char>>;

/// The three-letter code that `isolang` gives for the language with this ordinal.
pub uninterp spec fn code_639_3_of(ordinal: usize) -> Option<Seq<char>>;

/// The part of a text before its first `_`, and all of it where it has none.
pub open spec fn before_underscore(text: Seq<char>) -> Seq<char>
    decreases text.len(),
{
    if text.len() == 0 || text[0] == '_' {
        Seq::empty()
    } else {
        seq![text[0]] + before_underscore(text.drop_first())
    }
}

/// The language that the text of a locale names, as systems write it
/// (`de_DE.UTF-8`): that of the two-letter code before the first `_`. A text
/// of less than three bytes names none.
pub open spec fn language_in_locale(locale: Seq<char>) -> Option<usize> {
    if byte_len(locale) < 3 {
        None
    } else {
        ordinal_of_639_1(before_underscore(locale))
    }
}

/// `isolang::Language::from_locale`: the language of a locale as systems
/// write it, as its ordinal (the enum's discriminant). It gives nothing for a
/// text of less than three bytes, and else what
/// `isolang::Language::from_639_1` gives for the part before the first `_`.
#[verifier::external_body]
fn from_locale(locale: &str) -> (r: Option<usize>)
    ensures
        r == language_in_locale(locale@),
{
    isolang::Language::from_locale(locale).map(|l| l as usize)
}

/// `isolang::Language::from_639_1`: the language with the given two-letter
/// code, as its ordinal (the enum's discriminant). Nothing is claimed of which
/// codes are known.
#[verifier::external_body]
fn from_639_1(code: &str) -> (r: Option<usize>)
    ensures
        r == ordinal_of_639_1(code@),
{
    isolang::Language::from_639_1(code).map(|l| l as usize)
}

/// `isolang::Language::from_639_3`: the language with the given three-letter
/// code, as its ordinal (the enum's discriminant). Nothing is claimed of which
/// codes are known.
#[verifier::external_body]
fn from_639_3(code: &str) -> (r: Option<usize>)
    ensures
        r == ordinal_of_639_3(code@),
{
    isolang::Language::from_639_3(code).map(|l| l as usize)
}

/// `isolang::Language::to_639_1` of the language that
/// `isolang::Language::from_usize` gives for the ordinal; `None` where there
/// is no such language or it has no two-letter code.
#[verifier::external_body]
fn to_639_1(ordinal: usize) -> (r: Option<String>)
    ensures
        r.deep_view() == code_639_1_of(ordinal),
{
    isolang::Language::from_usize(ordinal).and_then(|l| l.to_639_1()).map(|c| c.to_owned())
}

/// `isolang::Language::to_639_3` of the language that
/// `isolang::Language::from_usize` gives for the ordinal; `None` where there
/// is no such language.
#[verifier::external_body]
fn to_639_3(ordinal: usize) -> (r: Option<String>)
    ensures
        r.deep_view() == code_639_3_of(ordinal),
{
    isolang::Language::from_usize(ordinal).map(|l| l.to_639_3().to_owned())
}

/// The length of a code in bytes.
pub open spec fn byte_len(code: Seq<char>) -> nat {
    vstd::utf8::encode_utf8(code).len()
}

/// The language that a code of a locale stands for: a code of two bytes is
/// looked up as a two-letter code, one of three bytes as a three-letter code,
/// and no other code stands for a language.
pub open spec fn resolved(code: Seq<char>) -> Option<usize> {
    if byte_len(code) == 2 {
        ordinal_of_639_1(code)
    } else if byte_len(code) == 3 {
        ordinal_of_639_3(code)
    } else {
        None
    }
}

/// The two-letter code of a language, if it has one.
pub open spec fn short_code(ordinal: usize) -> Option<Seq<char>> {
    if ordinal < ISOLANG_OVERVIEW_LEN {
        code_639_1_of(ordinal)
    } else {
        None
    }
}

/// The three-letter code of a language.
pub open spec fn long_code(ordinal: usize) -> Option<Seq<char>> {
    if ordinal < ISOLANG_OVERVIEW_LEN {
        code_639_3_of(ordinal)
    } else {
        None
    }
}

/// Looks a language code up by its length: see [`resolved`].
pub fn resolve(code: &str) -> (r: Option<usize>)
    ensures
        r == resolved(code@),
{
    let n = code.as_bytes().len();
    if n == 2 {
        from_639_1(code)
    } else if n == 3 {
        from_639_3(code)
    } else {
        None
    }
}

/// The language that the text of a locale names, as systems write it.
pub fn language_of_locale(locale: &str) -> (r: Option<usize>)
    ensures
        r == match language_in_locale(locale@) {
            Some(lang) => if lang < ISOLANG_OVERVIEW_LEN {
                Some(lang)
            } else {
                None
            },
            None => None,
        },
{
    match from_locale(locale) {
        Some(lang) => if lang < ISOLANG_OVERVIEW_LEN {
            Some(lang)
        } else {
            None
        },
        None => None,
    }
}

/// The two-letter code of the language with this ordinal; `None` for a
/// language without one and for a number that is no ordinal.
pub fn to_short_code(ordinal: usize) -> (r: Option<String>)
    ensures
        r.deep_view() == short_code(ordinal),
{
    if ordinal < ISOLANG_OVERVIEW_LEN {
        to_639_1(ordinal)
    } else {
        None
    }
}

/// The three-letter code of the language with this ordinal; `None` for a
/// number that is no ordinal.
pub fn to_long_code(ordinal: usize) -> (r: Option<String>)
    ensures
        r.deep_view() == long_code(ordinal),
{
    if ordinal < ISOLANG_OVERVIEW_LEN {
        to_639_3(ordinal)
    } else {
        None
    }
}

} // verus!
