//! Reading a locale identifier from text: what a `langid!` macro is made of.
//!
//! The grammar of identifiers belongs to the `unic_langid` crate. What is
//! decided here is which bytes it is given: a text with a dot in it, such as
//! `de_DE.UTF-8`, is cut before the dot and its language code is replaced by
//! the code that the registry has for the language.

use crate::locale::{LanguageIdentifier, LocaleView};
use crate::registry::{language_of_locale, to_long_code, to_short_code};
use unic_langid::parser::ParserError as OutsideParserError;
use unic_langid::LanguageIdentifierError as OutsideError;
use vstd::prelude::*;

verus! {

/// Why a subtag was refused.
#[derive(Clone, Copy, Debug, PartialEq, Eq, Structural)]
pub enum ParserError {
    InvalidLanguage,
    InvalidSubtag,
}

/// Why a text is no locale identifier.
#[derive(Clone, Copy, Debug, PartialEq, Eq, Structural)]
pub enum LanguageIdentifierError {
    Unknown,
    ParserError(ParserError),
}

/// What `unic_langid` reads from the bytes: the locale, or why there is none.
pub uninterp spec fn parsed_langid(bytes: Seq<u8>) -> Result<LocaleView, LanguageIdentifierError>;

/// `unic_langid::LanguageIdentifier::from_bytes`, with the identifier's
/// subtags copied out as strings. The crate keeps the variants of an
/// identifier sorted and without repetition, so what it gives is normalized;
/// nothing else is claimed of what it accepts or gives.
#[verifier::external_body]
pub(crate) fn from_bytes(v: &[u8]) -> (r: Result<LanguageIdentifier, LanguageIdentifierError>)
    ensures
        match r {
            Ok(l) => parsed_langid(v@) == Ok::<LocaleView, LanguageIdentifierError>(l@)
                && l@.is_normalized(),
            Err(e) => parsed_langid(v@) == Err::<LocaleView, LanguageIdentifierError>(e),
        },
{
    match unic_langid::LanguageIdentifier::from_bytes(v) {
        Ok(id) => Ok(LanguageIdentifier {
            language: id.language.as_str().to_owned(),
            script: id.script.map(|s| s.as_str().to_owned()),
            region: id.region.map(|r| r.as_str().to_owned()),
            variants: id.variants().map(|v| v.as_str().to_owned()).collect(),
        }),
        Err(OutsideError::Unknown) => Err(LanguageIdentifierError::Unknown),
        Err(OutsideError::ParserError(e)) => Err(LanguageIdentifierError::ParserError(match e {
            OutsideParserError::InvalidLanguage => ParserError::InvalidLanguage,
            OutsideParserError::InvalidSubtag => ParserError::InvalidSubtag,
        })),
    }
}

/// `core::str::from_utf8`: the bytes as text, where they are valid UTF-8.
#[verifier::external_body]
fn from_utf8(v: &[u8]) -> (r: Option<&str>)
    ensures
        r is Some <==> vstd::utf8::valid_utf8(v@),
        r matches Some(s) ==> vstd::utf8::encode_utf8(s@) == v@,
{
    core::str::from_utf8(v).ok()
}

/// Where the first of the bytes that satisfy `stop` stands, or the number of
/// bytes where none does.
pub open spec fn first_of(bytes: Seq<u8>, stop: spec_fn(u8) -> bool) -> int
    decreases bytes.len(),
{
    if bytes.len() == 0 || stop(bytes[0]) {
        0
    } else {
        1 + first_of(bytes.drop_first(), stop)
    }
}

/// Where the first dot stands, or the number of bytes where there is none.
pub open spec fn first_dot(bytes: Seq<u8>) -> int {
    first_of(bytes, |b: u8| b == 0x2e)
}

/// How many bytes stand before the first `_` or `-`: the length of the
/// language code.
pub open spec fn code_end(bytes: Seq<u8>) -> int {
    first_of(bytes, |b: u8| b == 0x5f || b == 0x2d)
}

/// [`first_of`] lies within the bytes, no byte before it satisfies `stop`, and
/// the byte there does.
pub proof fn lemma_first_of(bytes: Seq<u8>, stop: spec_fn(u8) -> bool)
    ensures
        0 <= first_of(bytes, stop) <= bytes.len(),
        forall|k: int| 0 <= k < first_of(bytes, stop) ==> !stop(#[trigger] bytes[k]),
        first_of(bytes, stop) < bytes.len() ==> stop(bytes[first_of(bytes, stop)]),
    decreases bytes.len(),
{
    if bytes.len() > 0 && !stop(bytes[0]) {
        lemma_first_of(bytes.drop_first(), stop);
        assert forall|k: int| 0 <= k < first_of(bytes, stop) implies !stop(#[trigger] bytes[k]) by {
            if k > 0 {
                assert(bytes[k] == bytes.drop_first()[k - 1]);
            }
        }
    }
}

/// The one place that [`first_of`] can be.
pub proof fn lemma_first_of_is(bytes: Seq<u8>, stop: spec_fn(u8) -> bool, n: int)
    requires
        0 <= n <= bytes.len(),
        forall|k: int| 0 <= k < n ==> !stop(#[trigger] bytes[k]),
        n < bytes.len() ==> stop(bytes[n]),
    ensures
        first_of(bytes, stop) == n,
{
    lemma_first_of(bytes, stop);
    let f = first_of(bytes, stop);
    if f < n {
        assert(!stop(bytes[f]));
    } else if n < f {
        assert(!stop(bytes[n]));
    }
}

/// The bytes to read a locale from, where the text has a dot at `dot`: the
/// code of the language, the short one if the text's code has two bytes and
/// else the long one, and then the text from two bytes after its code up to
/// the dot. There are none where the language has no such code or the dot
/// stands too early.
pub open spec fn assembled(
    bytes: Seq<u8>,
    dot: int,
    short: Option<Seq<u8>>,
    long: Option<Seq<u8>>,
) -> Option<Seq<u8>> {
    let count = code_end(bytes);
    let code = if count == 2 {
        short
    } else {
        long
    };
    match code {
        Some(c) => if count + 2 <= dot <= bytes.len() {
            Some(c + bytes.subrange(count + 2, dot))
        } else {
            None
        },
        None => None,
    }
}

/// The bytes of a code.
pub open spec fn code_bytes(code: Option<Seq<char>>) -> Option<Seq<u8>> {
    match code {
        Some(c) => Some(vstd::utf8::encode_utf8(c)),
        None => None,
    }
}

/// The bytes to read the locale of a text with a dot from, if the text names
/// a language as systems write it.
pub open spec fn locale_bytes(text: Seq<char>, dot: int) -> Option<Seq<u8>> {
    match crate::registry::language_in_locale(text) {
        Some(lang) => assembled(
            vstd::utf8::encode_utf8(text),
            dot,
            code_bytes(crate::registry::short_code(lang)),
            code_bytes(crate::registry::long_code(lang)),
        ),
        None => None,
    }
}

/// The bytes that a text is read from: those of [`locale_bytes`] where the
/// text has a dot and names a language, and else the text as it stands.
pub open spec fn bytes_to_read(text: Seq<char>) -> Seq<u8> {
    let bytes = vstd::utf8::encode_utf8(text);
    let dot = first_dot(bytes);
    if dot < bytes.len() && locale_bytes(text, dot) is Some {
        locale_bytes(text, dot)->0
    } else {
        bytes
    }
}

/// The locale that a text stands for.
pub open spec fn langid_of_text(text: Seq<char>) -> Result<LocaleView, LanguageIdentifierError> {
    parsed_langid(bytes_to_read(text))
}

/// The locale that bytes stand for: that of their text, where they are valid
/// UTF-8; else they are read as they stand.
pub open spec fn langid_of_bytes(bytes: Seq<u8>) -> Result<LocaleView, LanguageIdentifierError> {
    if vstd::utf8::valid_utf8(bytes) {
        langid_of_text(vstd::utf8::decode_utf8(bytes))
    } else {
        parsed_langid(bytes)
    }
}

/// Where the first dot stands in `bytes`, if there is one.
pub fn find_dot(bytes: &[u8]) -> (r: Option<usize>)
    ensures
        match r {
            Some(i) => i == first_dot(bytes@) && i < bytes@.len(),
            None => first_dot(bytes@) == bytes@.len(),
        },
{
    let mut i: usize = 0;
    while i < bytes.len()
        invariant
            i <= bytes.len(),
            forall|k: int| 0 <= k < i ==> bytes@[k] != 0x2e,
        decreases bytes.len() - i,
    {
        if bytes[i] == 0x2e {
            proof {
                lemma_first_of_is(bytes@, |b: u8| b == 0x2e, i as int);
            }
            return Some(i);
        }
        i += 1;
    }
    proof {
        lemma_first_of_is(bytes@, |b: u8| b == 0x2e, i as int);
    }
    None
}

/// The bytes to read a locale from, given the text, the place of its dot and
/// the two codes of its language: see [`assembled`].
pub fn assemble(bytes: &[u8], dot: usize, short: Option<&[u8]>, long: Option<&[u8]>) -> (r: Option<
    Vec<u8>,
>)
    ensures
        r.deep_view() == assembled(bytes@, dot as int, short.deep_view(), long.deep_view()),
{
    let mut count: usize = 0;
    while count < bytes.len() && bytes[count] != 0x5f && bytes[count] != 0x2d
        invariant
            count <= bytes.len(),
            forall|k: int| 0 <= k < count ==> bytes@[k] != 0x5f && bytes@[k] != 0x2d,
        decreases bytes.len() - count,
    {
        count += 1;
    }
    proof {
        lemma_first_of_is(bytes@, |b: u8| b == 0x5f || b == 0x2d, count as int);
    }
    let code = if count == 2 {
        short
    } else {
        long
    };
    match code {
        Some(c) => {
            if dot > bytes.len() || dot < 2 || count > dot - 2 {
                return None;
            }
            let mut out: Vec<u8> = Vec::new();
            let mut i: usize = 0;
            while i < c.len()
                invariant
                    i <= c.len(),
                    out@ == c@.take(i as int),
                decreases c.len() - i,
            {
                out.push(c[i]);
                i += 1;
                assert(out@ =~= c@.take(i as int));
            }
            assert(c@.take(c.len() as int) =~= c@);
            let mut k: usize = count + 2;
            assert(out@ =~= c@ + bytes@.subrange(count + 2, k as int));
            while k < dot
                invariant
                    count + 2 <= k <= dot <= bytes.len(),
                    out@ == c@ + bytes@.subrange(count + 2, k as int),
                decreases dot - k,
            {
                out.push(bytes[k]);
                k += 1;
                assert(out@ =~= c@ + bytes@.subrange(count + 2, k as int));
            }
            assert(out.deep_view() =~= out@);
            assert(c.deep_view() =~= c@);
            Some(out)
        },
        None => None,
    }
}

/// The locale of a text with a dot at byte `i`, read from the bytes of
/// [`locale_bytes`]; `None` where there are none.
pub fn locale_str_to_langid(locale: &str, i: usize) -> (r: Option<
    Result<LanguageIdentifier, LanguageIdentifierError>,
>)
    ensures
        match r {
            Some(read) => locale_bytes(locale@, i as int) is Some && match read {
                Ok(l) => parsed_langid(locale_bytes(locale@, i as int)->0) == Ok::<
                    LocaleView,
                    LanguageIdentifierError,
                >(l@) && l@.is_normalized(),
                Err(e) => parsed_langid(locale_bytes(locale@, i as int)->0) == Err::<
                    LocaleView,
                    LanguageIdentifierError,
                >(e),
            },
            None => locale_bytes(locale@, i as int) is None,
        },
{
    let lang = match language_of_locale(locale) {
        Some(lang) => lang,
        None => {
            return None;
        },
    };
    let short = to_short_code(lang);
    let long = to_long_code(lang);
    let short_bytes = match &short {
        Some(c) => {
            let b = c.as_str().as_bytes();
            assert(b.deep_view() =~= vstd::utf8::encode_utf8(c@));
            Some(b)
        },
        None => None,
    };
    let long_bytes = match &long {
        Some(c) => {
            let b = c.as_str().as_bytes();
            assert(b.deep_view() =~= vstd::utf8::encode_utf8(c@));
            Some(b)
        },
        None => None,
    };
    assert(short_bytes.deep_view() == code_bytes(crate::registry::short_code(lang)));
    assert(long_bytes.deep_view() == code_bytes(crate::registry::long_code(lang)));
    match assemble(locale.as_bytes(), i, short_bytes, long_bytes) {
        Some(bs) => {
            assert(bs.deep_view() =~= bs@);
            Some(from_bytes(bs.as_slice()))
        },
        None => None,
    }
}

/// What can be read as a locale identifier.
pub trait IntoLangIdAble {
    /// The locale that `self` stands for, or why it stands for none.
    spec fn langid(&self) -> Result<LocaleView, LanguageIdentifierError>;

    /// Reads `self` as a locale identifier.
    fn to_langid(&self) -> (r: Result<LanguageIdentifier, LanguageIdentifierError>)
        ensures
            match r {
                Ok(l) => self.langid() == Ok::<LocaleView, LanguageIdentifierError>(l@)
                    && l@.is_normalized(),
                Err(e) => self.langid() == Err::<LocaleView, LanguageIdentifierError>(e),
            },
    ;
}

impl IntoLangIdAble for str {
    open spec fn langid(&self) -> Result<LocaleView, LanguageIdentifierError> {
        langid_of_text(self@)
    }

    fn to_langid(&self) -> (r: Result<LanguageIdentifier, LanguageIdentifierError>) {
        let bytes = self.as_bytes();
        let cut = match find_dot(bytes) {
            Some(i) => locale_str_to_langid(self, i),
            None => None,
        };
        match cut {
            Some(read) => read,
            None => from_bytes(bytes),
        }
    }
}

impl IntoLangIdAble for String {
    open spec fn langid(&self) -> Result<LocaleView, LanguageIdentifierError> {
        langid_of_text(self@)
    }

    fn to_langid(&self) -> (r: Result<LanguageIdentifier, LanguageIdentifierError>) {
        self.as_str().to_langid()
    }
}

impl IntoLangIdAble for [u8] {
    open spec fn langid(&self) -> Result<LocaleView, LanguageIdentifierError> {
        langid_of_bytes(self@)
    }

    fn to_langid(&self) -> (r: Result<LanguageIdentifier, LanguageIdentifierError>) {
        match from_utf8(self) {
            Some(text) => {
                proof {
                    vstd::utf8::encode_utf8_decode_utf8(text@);
                }
                text.to_langid()
            },
            None => from_bytes(self),
        }
    }
}

} // verus!
