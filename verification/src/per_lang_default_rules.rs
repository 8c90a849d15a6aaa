//! Fallback rules for specific languages, held in a table with one slot for
//! each language of the registry.

use crate::locale::{eq_ignore_ascii_case, subtag_is, LanguageIdentifier, LocaleView};
use crate::registry::ISOLANG_OVERVIEW_LEN;
use vstd::prelude::*;

verus! {

/// When a rule applies to a locale.
#[derive(Clone, Copy, Debug)]
pub enum Guard {
    /// To every locale of the language.
    Always,
    /// Only to a locale without variants.
    NoVariants,
}

/// What a rule offers.
#[derive(Clone, Copy, Debug)]
pub enum Offer {
    /// Arabic as used in the United Arab Emirates.
    Arabic,
    /// Chinese, by script and then by region.
    Chinese,
    /// Spanish of Spain, then Portuguese of Portugal.
    Spanish,
    /// Portuguese of Portugal, then Spanish of Spain.
    Portuguese,
    /// Cantonese, by script and then by region, and Chinese after it.
    Cantonese,
}

/// The rule of one language.
#[derive(Clone, Copy, Debug)]
pub struct LangRule {
    pub guard: Guard,
    pub offer: Offer,
}

/// One line of the rule list: the three-letter codes of the languages that
/// share a rule, and the rule.
pub struct RuleEntry {
    pub languages: Vec<String>,
    pub rule: LangRule,
}

impl View for RuleEntry {
    type V = (Seq<Seq<char>>, LangRule);

    open spec fn view(&self) -> (Seq<Seq<char>>, LangRule) {
        (self.languages.deep_view(), self.rule)
    }
}

impl DeepView for RuleEntry {
    type V = (Seq<Seq<char>>, LangRule);

    open spec fn deep_view(&self) -> (Seq<Seq<char>>, LangRule) {
        self@
    }
}

/// The locale `language-region`.
pub open spec fn in_region(language: Seq<char>, region: Seq<char>) -> LocaleView {
    LocaleView::tagged(language, None, Some(region))
}

/// The locale `language-script`.
pub open spec fn in_script(language: Seq<char>, script: Seq<char>) -> LocaleView {
    LocaleView::tagged(language, Some(script), None)
}

/// The locale `language-script-region`.
pub open spec fn in_script_region(
    language: Seq<char>,
    script: Seq<char>,
    region: Seq<char>,
) -> LocaleView {
    LocaleView::tagged(language, Some(script), Some(region))
}

/// Arabic of the United Arab Emirates, under each code of Arabic.
pub open spec fn arabic() -> Seq<LocaleView> {
    seq![in_region("ar"@, "AE"@), in_region("ara"@, "AE"@), in_region("arb"@, "AE"@)]
}

/// Chinese and Mandarin in the given script and region, under each of their codes.
pub open spec fn chinese_in(script: Seq<char>, region: Seq<char>) -> Seq<LocaleView> {
    seq![
        in_script_region("zh"@, script, region),
        in_script_region("zho"@, script, region),
        in_script_region("cmn"@, script, region),
    ]
}

/// What Chinese and Mandarin fall back to.
///
/// A script decides alone: Simplified goes to China and, last, to the
/// Traditional script; Traditional goes to Taiwan and, last, to the Simplified
/// script; another script gives nothing. Without a script the region decides:
/// China and Singapore are Simplified, Taiwan is Traditional, Hong Kong and
/// Macao are Traditional with Taiwan after them, and any other region is
/// offered in both scripts. Without either, both are offered.
pub open spec fn chinese(l: LocaleView) -> Seq<LocaleView> {
    match l.script {
        Some(s) => if crate::locale::same_ignoring_ascii_case(s, "Hans"@) {
            chinese_in("Hans"@, "CN"@).push(in_script("zh"@, "Hant"@))
        } else if crate::locale::same_ignoring_ascii_case(s, "Hant"@) {
            chinese_in("Hant"@, "TW"@).push(in_script("zh"@, "Hans"@))
        } else {
            Seq::empty()
        },
        None => match l.region {
            Some(r) => if r == "CN"@ || r == "SG"@ {
                chinese_in("Hans"@, "CN"@)
            } else if r == "TW"@ {
                chinese_in("Hant"@, "TW"@)
            } else if r == "HK"@ || r == "MO"@ {
                chinese_in("Hant"@, "HK"@) + chinese_in("Hant"@, "TW"@)
            } else {
                seq![in_script_region("zh"@, "Hans"@, r), in_script_region("zh"@, "Hant"@, r)]
            },
            None => chinese_in("Hans"@, "CN"@) + chinese_in("Hant"@, "TW"@),
        },
    }
}

/// What Cantonese falls back to: the dispatch of [`chinese`], on Cantonese
/// locales, and wherever it offers anything, a locale of Chinese comes last.
pub open spec fn cantonese(l: LocaleView) -> Seq<LocaleView> {
    match l.script {
        Some(s) => if crate::locale::same_ignoring_ascii_case(s, "Hans"@) {
            seq![
                in_script_region("yue"@, "Hans"@, "CN"@),
                in_script_region("yue"@, "Hant"@, "HK"@),
                in_script_region("yue"@, "Hant"@, "MO"@),
                LocaleView::bare("zho"@),
            ]
        } else if crate::locale::same_ignoring_ascii_case(s, "Hant"@) {
            seq![
                in_script_region("yue"@, "Hant"@, "HK"@),
                in_script_region("yue"@, "Hant"@, "MO"@),
                LocaleView::bare("zho"@),
            ]
        } else {
            Seq::empty()
        },
        None => match l.region {
            Some(r) => if r == "CN"@ || r == "SG"@ {
                seq![
                    in_script_region("yue"@, "Hans"@, "CN"@),
                    in_script_region("yue"@, "Hans"@, "HK"@),
                    in_script_region("zho"@, "Hans"@, "CN"@),
                ]
            } else if r == "TW"@ {
                seq![
                    in_script_region("yue"@, "Hant"@, "TW"@),
                    in_script_region("yue"@, "Hant"@, "HK"@),
                    in_script_region("zho"@, "Hant"@, "TW"@),
                ]
            } else if r == "HK"@ || r == "MO"@ {
                seq![
                    in_script_region("yue"@, "Hant"@, "HK"@),
                    in_script_region("zho"@, "Hant"@, "HK"@),
                    in_script_region("yue"@, "Hant"@, "MO"@),
                    in_script_region("zho"@, "Hant"@, "MO"@),
                    in_script_region("yue"@, "Hant"@, "TW"@),
                    in_script_region("zho"@, "Hant"@, "TW"@),
                ]
            } else {
                seq![in_script_region("yue"@, "Hans"@, r), in_script_region("zh"@, "Hant"@, r)]
            },
            None => seq![
                in_script_region("yue"@, "Hant"@, "HK"@),
                in_script_region("yue"@, "Hant"@, "MO"@),
                LocaleView::bare("zho"@),
            ],
        },
    }
}

/// Spanish of Spain, then Portuguese of Portugal.
pub open spec fn spanish() -> Seq<LocaleView> {
    seq![
        in_region("es"@, "ES"@),
        in_region("spa"@, "ES"@),
        in_region("pt"@, "PT"@),
        in_region("por"@, "PT"@),
    ]
}

/// Portuguese of Portugal, then Spanish of Spain.
pub open spec fn portuguese() -> Seq<LocaleView> {
    seq![
        in_region("pt"@, "PT"@),
        in_region("por"@, "PT"@),
        in_region("es"@, "ES"@),
        in_region("spa"@, "ES"@),
    ]
}

/// What `rule` offers for the locale `l`: nothing where its guard fails.
pub open spec fn offers(rule: LangRule, l: LocaleView) -> Seq<LocaleView> {
    if rule.guard is NoVariants && l.variants.len() != 0 {
        Seq::empty()
    } else {
        match rule.offer {
            Offer::Arabic => arabic(),
            Offer::Chinese => chinese(l),
            Offer::Spanish => spanish(),
            Offer::Portuguese => portuguese(),
            Offer::Cantonese => cantonese(l),
        }
    }
}

/// The rule list: Arabic, Spanish and Portuguese only for locales without
/// variants, Chinese and Cantonese for all.
pub open spec fn default_entries() -> Seq<(Seq<Seq<char>>, LangRule)> {
    seq![
        (seq!["ara"@, "arb"@], LangRule { guard: Guard::NoVariants, offer: Offer::Arabic }),
        (seq!["zho"@, "cmn"@], LangRule { guard: Guard::Always, offer: Offer::Chinese }),
        (seq!["spa"@], LangRule { guard: Guard::NoVariants, offer: Offer::Spanish }),
        (seq!["por"@], LangRule { guard: Guard::NoVariants, offer: Offer::Portuguese }),
        (seq!["yue"@], LangRule { guard: Guard::Always, offer: Offer::Cantonese }),
    ]
}

/// The table after `rule` is put into the slot of the language with the given
/// code. A code that the registry does not resolve changes nothing.
pub open spec fn install(slots: Seq<Option<LangRule>>, code: Seq<char>, rule: LangRule) -> Seq<
    Option<LangRule>,
> {
    match crate::registry::resolved(code) {
        Some(lang) => if lang < slots.len() {
            slots.update(lang as int, Some(rule))
        } else {
            slots
        },
        None => slots,
    }
}

/// The table after `rule` is put into the slot of each of `codes`, in order.
pub open spec fn install_all(
    slots: Seq<Option<LangRule>>,
    codes: Seq<Seq<char>>,
    rule: LangRule,
) -> Seq<Option<LangRule>>
    decreases codes.len(),
{
    if codes.len() == 0 {
        slots
    } else {
        install(install_all(slots, codes.drop_last(), rule), codes.last(), rule)
    }
}

/// The table after each of `entries` is installed, in order: a later entry
/// wins a slot from an earlier one.
pub open spec fn build(
    slots: Seq<Option<LangRule>>,
    entries: Seq<(Seq<Seq<char>>, LangRule)>,
) -> Seq<Option<LangRule>>
    decreases entries.len(),
{
    if entries.len() == 0 {
        slots
    } else {
        install_all(build(slots, entries.drop_last()), entries.last().0, entries.last().1)
    }
}

/// The table of the default rules: one slot for each language of the registry,
/// empty but for the languages of [`default_entries`].
pub open spec fn lang_rules() -> Seq<Option<LangRule>> {
    build(Seq::new(ISOLANG_OVERVIEW_LEN as nat, |i: int| None), default_entries())
}

/// The default rule of the language with the given ordinal, if it has one.
pub open spec fn lang_rule(lang: usize) -> Option<LangRule> {
    if lang < lang_rules().len() {
        lang_rules()[lang as int]
    } else {
        None
    }
}

/// What the default rule of the language `lang` offers for `l`.
pub open spec fn lang_offers(lang: usize, l: LocaleView) -> Seq<LocaleView> {
    match lang_rule(lang) {
        Some(rule) => offers(rule, l),
        None => Seq::empty(),
    }
}

/// Installing a rule keeps the number of slots.
pub proof fn lemma_build_len(slots: Seq<Option<LangRule>>, entries: Seq<(Seq<Seq<char>>, LangRule)>)
    ensures
        build(slots, entries).len() == slots.len(),
    decreases entries.len(),
{
    if entries.len() > 0 {
        lemma_build_len(slots, entries.drop_last());
        lemma_install_all_len(build(slots, entries.drop_last()), entries.last().0, entries.last().1);
    }
}

/// The table has one slot for each language of the registry.
pub proof fn lemma_lang_rules_len()
    ensures
        lang_rules().len() == ISOLANG_OVERVIEW_LEN,
{
    lemma_build_len(Seq::new(ISOLANG_OVERVIEW_LEN as nat, |i: int| None), default_entries());
}

/// Installing a rule keeps the number of slots.
pub proof fn lemma_install_all_len(slots: Seq<Option<LangRule>>, codes: Seq<Seq<char>>, rule: LangRule)
    ensures
        install_all(slots, codes, rule).len() == slots.len(),
    decreases codes.len(),
{
    if codes.len() > 0 {
        lemma_install_all_len(slots, codes.drop_last(), rule);
    }
}

/// One line of the rule list, for one language or for two.
fn entry(first: &str, second: Option<&str>, guard: Guard, offer: Offer) -> (r: RuleEntry)
    ensures
        r@ == (
            match second {
                Some(s) => seq![first@, s@],
                None => seq![first@],
            },
            LangRule { guard, offer },
        ),
{
    let mut languages: Vec<String> = Vec::new();
    languages.push(first.to_owned());
    match second {
        Some(s) => {
            languages.push(s.to_owned());
            assert(languages.deep_view() =~= seq![first@, s@]);
        },
        None => {
            assert(languages.deep_view() =~= seq![first@]);
        },
    }
    RuleEntry { languages, rule: LangRule { guard, offer } }
}

/// The rule list of [`default_entries`].
pub fn lang_rule_entries() -> (r: Vec<RuleEntry>)
    ensures
        r.deep_view() == default_entries(),
{
    let mut out: Vec<RuleEntry> = Vec::new();
    out.push(entry("ara", Some("arb"), Guard::NoVariants, Offer::Arabic));
    out.push(entry("zho", Some("cmn"), Guard::Always, Offer::Chinese));
    out.push(entry("spa", None, Guard::NoVariants, Offer::Spanish));
    out.push(entry("por", None, Guard::NoVariants, Offer::Portuguese));
    out.push(entry("yue", None, Guard::Always, Offer::Cantonese));
    assert(out.deep_view() =~= default_entries());
    out
}

/// The table of the default rules, indexed by the ordinal of a language.
pub struct LangRules {
    slots: Vec<Option<LangRule>>,
}

impl View for LangRules {
    type V = Seq<Option<LangRule>>;

    closed spec fn view(&self) -> Seq<Option<LangRule>> {
        self.slots@
    }
}

impl LangRules {
    /// Every table holds the default rules.
    #[verifier::type_invariant]
    spec fn holds_default_rules(self) -> bool {
        self.slots@ == lang_rules()
    }

    /// Builds the table from the rule list.
    pub fn new() -> (r: LangRules)
        ensures
            r@ == lang_rules(),
    {
        let entries = lang_rule_entries();
        let mut slots: Vec<Option<LangRule>> = Vec::new();
        let mut n: usize = 0;
        while n < ISOLANG_OVERVIEW_LEN
            invariant
                n <= ISOLANG_OVERVIEW_LEN,
                slots.len() == n,
                forall|i: int| 0 <= i < n ==> slots[i] is None,
            decreases ISOLANG_OVERVIEW_LEN - n,
        {
            slots.push(None);
            n += 1;
        }
        let ghost empty = slots@;
        assert(empty =~= Seq::new(ISOLANG_OVERVIEW_LEN as nat, |i: int| None));
        let mut e: usize = 0;
        assert(entries.deep_view().take(0) =~= Seq::empty());
        while e < entries.len()
            invariant
                e <= entries.len(),
                slots@ == build(empty, entries.deep_view().take(e as int)),
            decreases entries.len() - e,
        {
            let ghost before = slots@;
            let ghost codes = entries[e as int].languages.deep_view();
            let rule = entries[e].rule;
            let mut c: usize = 0;
            assert(codes.take(0) =~= Seq::empty());
            while c < entries[e].languages.len()
                invariant
                    e < entries.len(),
                    codes == entries[e as int].languages.deep_view(),
                    rule == entries[e as int].rule,
                    c <= entries[e as int].languages.len(),
                    slots@ == install_all(before, codes.take(c as int), rule),
                decreases entries[e as int].languages.len() - c,
            {
                let found = crate::registry::resolve(entries[e].languages[c].as_str());
                match found {
                    Some(lang) => {
                        if lang < slots.len() {
                            slots.set(lang, Some(rule));
                        }
                    },
                    None => {},
                }
                c += 1;
                proof {
                    lemma_install_all_len(before, codes.take(c as int - 1), rule);
                    assert(codes.take(c as int).drop_last() =~= codes.take(c as int - 1));
                    assert(codes.take(c as int).last() == entries[e as int].languages[c as int - 1]@);
                }
            }
            e += 1;
            proof {
                let done = entries.deep_view().take(e as int);
                assert(codes.take(codes.len() as int) =~= codes);
                assert(done.drop_last() =~= entries.deep_view().take(e as int - 1));
                assert(done.last() == entries[e as int - 1]@);
            }
        }
        assert(entries.deep_view().take(entries.len() as int) =~= entries.deep_view());
        LangRules { slots }
    }

    /// The rule of the language with the given ordinal, if it has one.
    pub fn get(&self, lang: usize) -> (r: Option<LangRule>)
        ensures
            self@ == lang_rules(),
            r == lang_rule(lang),
    {
        proof {
            use_type_invariant(self);
        }
        if lang < self.slots.len() {
            self.slots[lang]
        } else {
            None
        }
    }
}

/// Appends the locale of the given language, script and region to `out`.
fn push_tag(
    out: &mut Vec<LanguageIdentifier>,
    language: &str,
    script: Option<&str>,
    region: Option<&str>,
)
    ensures
        final(out).deep_view() == old(out).deep_view().push(
            LocaleView::tagged(language@, script.deep_view(), region.deep_view()),
        ),
{
    crate::locale::push_locale(out, LanguageIdentifier::tagged(language, script, region));
}

/// Appends Chinese and Mandarin in the given script and region to `out`.
fn push_chinese_in(out: &mut Vec<LanguageIdentifier>, script: &str, region: &str)
    ensures
        final(out).deep_view() == old(out).deep_view() + chinese_in(script@, region@),
{
    let ghost before = out.deep_view();
    push_tag(out, "zh", Some(script), Some(region));
    push_tag(out, "zho", Some(script), Some(region));
    push_tag(out, "cmn", Some(script), Some(region));
    assert(out.deep_view() =~= before + chinese_in(script@, region@));
}

/// Arabic of the United Arab Emirates, under each code of Arabic.
fn offer_arabic() -> (r: Vec<LanguageIdentifier>)
    ensures
        r.deep_view() == arabic(),
{
    let mut out: Vec<LanguageIdentifier> = Vec::new();
    assert(out.deep_view() =~= Seq::empty());
    push_tag(&mut out, "ar", None, Some("AE"));
    push_tag(&mut out, "ara", None, Some("AE"));
    push_tag(&mut out, "arb", None, Some("AE"));
    assert(out.deep_view() =~= arabic());
    out
}

/// Spanish and Portuguese, the one that is named first.
fn offer_iberian(spanish_first: bool) -> (r: Vec<LanguageIdentifier>)
    ensures
        r.deep_view() == if spanish_first {
            spanish()
        } else {
            portuguese()
        },
{
    let mut out: Vec<LanguageIdentifier> = Vec::new();
    assert(out.deep_view() =~= Seq::empty());
    if spanish_first {
        push_tag(&mut out, "es", None, Some("ES"));
        push_tag(&mut out, "spa", None, Some("ES"));
        push_tag(&mut out, "pt", None, Some("PT"));
        push_tag(&mut out, "por", None, Some("PT"));
        assert(out.deep_view() =~= spanish());
    } else {
        push_tag(&mut out, "pt", None, Some("PT"));
        push_tag(&mut out, "por", None, Some("PT"));
        push_tag(&mut out, "es", None, Some("ES"));
        push_tag(&mut out, "spa", None, Some("ES"));
        assert(out.deep_view() =~= portuguese());
    }
    out
}

/// What Chinese and Mandarin fall back to: see [`chinese`].
fn offer_chinese(l: &LanguageIdentifier) -> (r: Vec<LanguageIdentifier>)
    ensures
        r.deep_view() == chinese(l@),
{
    let mut out: Vec<LanguageIdentifier> = Vec::new();
    assert(out.deep_view() =~= Seq::empty());
    match l.script() {
        Some(s) => {
            if eq_ignore_ascii_case(s.as_str(), "Hans") {
                push_chinese_in(&mut out, "Hans", "CN");
                push_tag(&mut out, "zh", Some("Hant"), None);
            } else if eq_ignore_ascii_case(s.as_str(), "Hant") {
                push_chinese_in(&mut out, "Hant", "TW");
                push_tag(&mut out, "zh", Some("Hans"), None);
            }
        },
        None => match l.region() {
            Some(r) => {
                if subtag_is(r, "CN") || subtag_is(r, "SG") {
                    push_chinese_in(&mut out, "Hans", "CN");
                } else if subtag_is(r, "TW") {
                    push_chinese_in(&mut out, "Hant", "TW");
                } else if subtag_is(r, "HK") || subtag_is(r, "MO") {
                    push_chinese_in(&mut out, "Hant", "HK");
                    push_chinese_in(&mut out, "Hant", "TW");
                } else {
                    push_tag(&mut out, "zh", Some("Hans"), Some(r.as_str()));
                    push_tag(&mut out, "zh", Some("Hant"), Some(r.as_str()));
                }
            },
            None => {
                push_chinese_in(&mut out, "Hans", "CN");
                push_chinese_in(&mut out, "Hant", "TW");
            },
        },
    }
    assert(out.deep_view() =~= chinese(l@));
    out
}

/// What Cantonese falls back to: see [`cantonese`].
fn offer_cantonese(l: &LanguageIdentifier) -> (r: Vec<LanguageIdentifier>)
    ensures
        r.deep_view() == cantonese(l@),
{
    let mut out: Vec<LanguageIdentifier> = Vec::new();
    assert(out.deep_view() =~= Seq::empty());
    match l.script() {
        Some(s) => {
            if eq_ignore_ascii_case(s.as_str(), "Hans") {
                push_tag(&mut out, "yue", Some("Hans"), Some("CN"));
                push_tag(&mut out, "yue", Some("Hant"), Some("HK"));
                push_tag(&mut out, "yue", Some("Hant"), Some("MO"));
                push_tag(&mut out, "zho", None, None);
            } else if eq_ignore_ascii_case(s.as_str(), "Hant") {
                push_tag(&mut out, "yue", Some("Hant"), Some("HK"));
                push_tag(&mut out, "yue", Some("Hant"), Some("MO"));
                push_tag(&mut out, "zho", None, None);
            }
        },
        None => match l.region() {
            Some(r) => {
                if subtag_is(r, "CN") || subtag_is(r, "SG") {
                    push_tag(&mut out, "yue", Some("Hans"), Some("CN"));
                    push_tag(&mut out, "yue", Some("Hans"), Some("HK"));
                    push_tag(&mut out, "zho", Some("Hans"), Some("CN"));
                } else if subtag_is(r, "TW") {
                    push_tag(&mut out, "yue", Some("Hant"), Some("TW"));
                    push_tag(&mut out, "yue", Some("Hant"), Some("HK"));
                    push_tag(&mut out, "zho", Some("Hant"), Some("TW"));
                } else if subtag_is(r, "HK") || subtag_is(r, "MO") {
                    push_tag(&mut out, "yue", Some("Hant"), Some("HK"));
                    push_tag(&mut out, "zho", Some("Hant"), Some("HK"));
                    push_tag(&mut out, "yue", Some("Hant"), Some("MO"));
                    push_tag(&mut out, "zho", Some("Hant"), Some("MO"));
                    push_tag(&mut out, "yue", Some("Hant"), Some("TW"));
                    push_tag(&mut out, "zho", Some("Hant"), Some("TW"));
                } else {
                    push_tag(&mut out, "yue", Some("Hans"), Some(r.as_str()));
                    push_tag(&mut out, "zh", Some("Hant"), Some(r.as_str()));
                }
            },
            None => {
                push_tag(&mut out, "yue", Some("Hant"), Some("HK"));
                push_tag(&mut out, "yue", Some("Hant"), Some("MO"));
                push_tag(&mut out, "zho", None, None);
            },
        },
    }
    assert(out.deep_view() =~= cantonese(l@));
    out
}

/// What `rule` offers for the locale `l`, in order.
pub fn apply_rule(rule: LangRule, l: &LanguageIdentifier) -> (r: Vec<LanguageIdentifier>)
    ensures
        r.deep_view() == offers(rule, l@),
{
    let blocked = match rule.guard {
        Guard::Always => false,
        Guard::NoVariants => l.variants().len() != 0,
    };
    if blocked {
        let out: Vec<LanguageIdentifier> = Vec::new();
        assert(out.deep_view() =~= Seq::empty());
        out
    } else {
        match rule.offer {
            Offer::Arabic => offer_arabic(),
            Offer::Chinese => offer_chinese(l),
            Offer::Spanish => offer_iberian(true),
            Offer::Portuguese => offer_iberian(false),
            Offer::Cantonese => offer_cantonese(l),
        }
    }
}

} // verus!
