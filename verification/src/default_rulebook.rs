//! The default rules: the bridge between the two lengths of a language code,
//! the rule of the language, and the widenings of what the two offer.

use crate::locale::{extend_locales, push_locale, LanguageIdentifier, LocaleView};
use crate::omit::find_rules_omit_optparts;
use crate::order::take_in_locales;
use crate::per_lang_default_rules::{apply_rule, LangRules};
use crate::registry::{resolve, to_long_code, to_short_code};
use vstd::prelude::*;

verus! {

/// The language of a locale in the other length of code: a two-letter code
/// offers the three-letter code of its language, a three-letter code the
/// two-letter code, where the language has one.
pub open spec fn bridge(l: LocaleView, lang: usize) -> Seq<LocaleView> {
    let code = if crate::registry::byte_len(l.language) == 2 {
        crate::registry::long_code(lang)
    } else if crate::registry::byte_len(l.language) == 3 {
        crate::registry::short_code(lang)
    } else {
        None
    };
    match code {
        Some(c) => seq![LocaleView::bare(c)],
        None => Seq::empty(),
    }
}

/// What the default rules offer before widening: the bridge, then the rule of
/// the language. A locale whose language the registry does not know is
/// offered nothing.
pub open spec fn direct_rules(l: LocaleView) -> Seq<LocaleView> {
    match crate::registry::resolved(l.language) {
        Some(lang) => bridge(l, lang) + crate::per_lang_default_rules::lang_offers(lang, l),
        None => Seq::empty(),
    }
}

/// The widenings of each of `rules`, in order.
pub open spec fn widen_all(rules: Seq<LocaleView>) -> Seq<LocaleView>
    decreases rules.len(),
{
    if rules.len() == 0 {
        Seq::empty()
    } else {
        widen_all(rules.drop_last()) + crate::omit::omissions(rules.last())
    }
}

/// The default direct fallbacks of `l`: what [`direct_rules`] offers, then the
/// widenings of those locales, each widening once.
pub open spec fn default_fallbacks(l: LocaleView) -> Seq<LocaleView> {
    direct_rules(l) + crate::order::unique(widen_all(direct_rules(l)))
}

/// The ordinal of the language of `l`, if the registry knows its code.
pub fn langid_to_isolang(l: &LanguageIdentifier) -> (r: Option<usize>)
    ensures
        r == crate::registry::resolved(l@.language),
{
    resolve(l.language().as_str())
}

/// The widenings of each of `rules`, in order.
pub fn widen_each(rules: &Vec<LanguageIdentifier>) -> (r: Vec<LanguageIdentifier>)
    ensures
        r.deep_view() == widen_all(rules.deep_view()),
{
    let mut out: Vec<LanguageIdentifier> = Vec::new();
    let mut i: usize = 0;
    assert(rules.deep_view().take(0) =~= Seq::empty());
    assert(out.deep_view() =~= Seq::empty());
    while i < rules.len()
        invariant
            i <= rules.len(),
            out.deep_view() == widen_all(rules.deep_view().take(i as int)),
        decreases rules.len() - i,
    {
        let weaker = find_rules_omit_optparts(&rules[i]);
        extend_locales(&mut out, &weaker);
        i += 1;
        proof {
            let done = rules.deep_view().take(i as int);
            assert(done.drop_last() =~= rules.deep_view().take(i as int - 1));
            assert(done.last() == rules[i as int - 1]@);
        }
    }
    assert(rules.deep_view().take(rules.len() as int) =~= rules.deep_view());
    out
}

/// The default direct fallbacks of `l`, with the rule table at hand.
pub fn default_rulebook_with(table: &LangRules, l: &LanguageIdentifier) -> (r: Vec<
    LanguageIdentifier,
>)
    ensures
        r.deep_view() == default_fallbacks(l@),
{
    let mut rules: Vec<LanguageIdentifier> = Vec::new();
    assert(rules.deep_view() =~= Seq::empty());
    let lang = match langid_to_isolang(l) {
        Some(lang) => lang,
        None => {
            assert(default_fallbacks(l@) =~= Seq::empty());
            return rules;
        },
    };
    let n = l.language().as_str().as_bytes().len();
    let other = if n == 2 {
        to_long_code(lang)
    } else if n == 3 {
        to_short_code(lang)
    } else {
        None
    };
    match other {
        Some(code) => {
            push_locale(&mut rules, LanguageIdentifier::bare(code.as_str()));
        },
        None => {},
    }
    assert(rules.deep_view() =~= bridge(l@, lang));
    match table.get(lang) {
        Some(rule) => {
            let offered = apply_rule(rule, l);
            extend_locales(&mut rules, &offered);
        },
        None => {},
    }
    assert(rules.deep_view() =~= direct_rules(l@));
    let widened = widen_each(&rules);
    let mut new_rules: Vec<LanguageIdentifier> = Vec::new();
    assert(new_rules.deep_view() =~= Seq::empty());
    take_in_locales(&mut new_rules, &widened);
    extend_locales(&mut rules, &new_rules);
    rules
}

/// The default direct fallbacks of `l`: the same language in the other length
/// of code, what the rule of the language offers, and the widenings of those.
///
/// This builds the rule table for one call; [`default_rulebook_with`] takes a
/// table that was built before.
pub fn default_rulebook(l: &LanguageIdentifier) -> (r: Vec<LanguageIdentifier>)
    ensures
        r.deep_view() == default_fallbacks(l@),
{
    let table = LangRules::new();
    default_rulebook_with(&table, l)
}

} // verus!
