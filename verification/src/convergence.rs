//! The search by the default rules ends: from any locale it can reach
//! finitely many locales only.
//!
//! Whatever the default rules and widening lead to has a language code of the
//! registry or of a rule, one of two scripts or none, a region of a rule or
//! the region of the locale that the search started from, and no variant.

use crate::locale::LocaleView;
use crate::rulebook::PolyL10nRulebook;
use vstd::prelude::*;

verus! {

/// The pairs of an item of `a` and an item of `b`.
pub open spec fn pairs<X, Y>(a: Set<X>, b: Set<Y>) -> Set<(X, Y)> {
    Set::new(|p: (X, Y)| a.contains(p.0) && b.contains(p.1))
}

/// Two finite sets have finitely many pairs.
pub proof fn lemma_pairs_finite<X, Y>(a: Set<X>, b: Set<Y>)
    requires
        a.finite(),
        b.finite(),
    ensures
        pairs(a, b).finite(),
    decreases a.len(),
{
    if a.is_empty() {
        assert(pairs(a, b) =~= Set::empty());
    } else {
        let x = a.choose();
        lemma_pairs_finite(a.remove(x), b);
        let f = |y: Y| (x, y);
        b.lemma_map_finite(f);
        assert(pairs(a, b) =~= pairs(a.remove(x), b).union(b.map(f))) by {
            assert forall|p: (X, Y)| pairs(a, b).contains(p) implies pairs(a.remove(x), b).union(
                b.map(f),
            ).contains(p) by {
                if p.0 == x {
                    assert(p == f(p.1));
                }
            }
        }
        vstd::set_lib::lemma_set_union_finite_iff(pairs(a.remove(x), b), b.map(f));
    }
}

/// The codes that the registry gives for any language, short or long.
pub open spec fn registry_codes() -> Set<Seq<char>> {
    Set::new(
        |c: Seq<char>|
            exists|o: usize|
                #[trigger] crate::registry::long_code(o) == Some(c)
                    || #[trigger] crate::registry::short_code(o) == Some(c),
    )
}

/// The registry gives finitely many codes, as it has finitely many ordinals.
pub proof fn lemma_registry_codes_finite()
    ensures
        registry_codes().finite(),
{
    let ordinals = vstd::set_lib::set_int_range(0, usize::MAX as int + 1);
    vstd::set_lib::lemma_int_range(0, usize::MAX as int + 1);
    let long = |i: int|
        match crate::registry::long_code(i as usize) {
            Some(c) => c,
            None => Seq::empty(),
        };
    let short = |i: int|
        match crate::registry::short_code(i as usize) {
            Some(c) => c,
            None => Seq::empty(),
        };
    ordinals.lemma_map_finite(long);
    ordinals.lemma_map_finite(short);
    let both = ordinals.map(long).union(ordinals.map(short));
    vstd::set_lib::lemma_set_union_finite_iff(ordinals.map(long), ordinals.map(short));
    assert forall|c: Seq<char>| registry_codes().contains(c) implies both.contains(c) by {
        let o = choose|o: usize|
            #[trigger] crate::registry::long_code(o) == Some(c)
                || #[trigger] crate::registry::short_code(o) == Some(c);
        assert(ordinals.contains(o as int));
        assert((o as int) as usize == o);
        if crate::registry::long_code(o) == Some(c) {
            assert(long(o as int) == c);
        } else {
            assert(short(o as int) == c);
        }
    }
    vstd::set_lib::lemma_len_subset(registry_codes(), both);
}

/// The language codes that the rules name.
pub open spec fn rule_languages() -> Set<Seq<char>> {
    set![
        "ar"@,
        "ara"@,
        "arb"@,
        "zh"@,
        "zho"@,
        "cmn"@,
        "es"@,
        "spa"@,
        "pt"@,
        "por"@,
        "yue"@,
    ]
}

/// The scripts that the rules name, and none.
pub open spec fn rule_scripts() -> Set<Option<Seq<char>>> {
    set![None, Some("Hans"@), Some("Hant"@)]
}

/// The regions that the rules name, none, and `own`.
pub open spec fn rule_regions(own: Option<Seq<char>>) -> Set<Option<Seq<char>>> {
    set![
        None,
        Some("AE"@),
        Some("CN"@),
        Some("TW"@),
        Some("HK"@),
        Some("MO"@),
        Some("ES"@),
        Some("PT"@),
        own,
    ]
}

/// The locales that a search by the default rules can come to, where it may
/// have taken the region `own` along.
pub open spec fn universe(own: Option<Seq<char>>) -> Set<LocaleView> {
    Set::new(
        |v: LocaleView|
            {
                &&& rule_languages().contains(v.language) || registry_codes().contains(v.language)
                &&& rule_scripts().contains(v.script)
                &&& rule_regions(own).contains(v.region)
                &&& v.variants == Seq::<Seq<char>>::empty()
            },
    )
}

/// The universe is finite.
pub proof fn lemma_universe_finite(own: Option<Seq<char>>)
    ensures
        universe(own).finite(),
{
    lemma_registry_codes_finite();
    let languages = rule_languages().union(registry_codes());
    vstd::set_lib::lemma_set_union_finite_iff(rule_languages(), registry_codes());
    lemma_pairs_finite(languages, rule_scripts());
    lemma_pairs_finite(pairs(languages, rule_scripts()), rule_regions(own));
    let triples = pairs(pairs(languages, rule_scripts()), rule_regions(own));
    let build = |t: ((Seq<char>, Option<Seq<char>>), Option<Seq<char>>)|
        LocaleView { language: t.0.0, script: t.0.1, region: t.1, variants: Seq::empty() };
    triples.lemma_map_finite(build);
    assert forall|v: LocaleView| universe(own).contains(v) implies triples.map(build).contains(
        v,
    ) by {
        let t = ((v.language, v.script), v.region);
        assert(triples.contains(t));
        assert(build(t) == v);
    }
    vstd::set_lib::lemma_len_subset(universe(own), triples.map(build));
}

/// What a rule offers for a locale with the region `own` lies in the universe.
proof fn lemma_offers_in_universe(
    own: Option<Seq<char>>,
    rule: crate::per_lang_default_rules::LangRule,
    x: LocaleView,
    y: LocaleView,
)
    requires
        rule_regions(own).contains(x.region),
        crate::per_lang_default_rules::offers(rule, x).contains(y),
    ensures
        universe(own).contains(y),
{
    let given = crate::per_lang_default_rules::offers(rule, x);
    let i = choose|i: int| 0 <= i < given.len() && given[i] == y;
    assert(given[i] == y);
}

/// What the default rules offer before widening lies in the universe.
proof fn lemma_direct_rules_in_universe(own: Option<Seq<char>>, x: LocaleView, y: LocaleView)
    requires
        rule_regions(own).contains(x.region),
        crate::default_rulebook::direct_rules(x).contains(y),
    ensures
        universe(own).contains(y),
{
    let lang = crate::registry::resolved(x.language)->0;
    let bridged = crate::default_rulebook::bridge(x, lang);
    let offered = crate::per_lang_default_rules::lang_offers(lang, x);
    crate::order::lemma_concat_contains(bridged, offered, y);
    if bridged.contains(y) {
        let i = choose|i: int| 0 <= i < bridged.len() && bridged[i] == y;
        assert(bridged[i] == y);
        assert(crate::registry::long_code(lang) == Some(y.language) || crate::registry::short_code(
            lang,
        ) == Some(y.language));
    } else {
        let rule = crate::per_lang_default_rules::lang_rule(lang)->0;
        lemma_offers_in_universe(own, rule, x, y);
    }
}

/// The widenings of a locale of the universe lie in the universe.
proof fn lemma_omissions_in_universe(own: Option<Seq<char>>, x: LocaleView, y: LocaleView)
    requires
        universe(own).contains(x),
        crate::omit::omissions(x).contains(y),
    ensures
        universe(own).contains(y),
{
    crate::omit::lemma_omission_shape(x, y);
    let choices = crate::omit::variant_choices(x.variants);
    let k = choose|k: int| 0 <= k < choices.len() && choices[k] == y.variants;
    assert(choices[k] == y.variants);
}

/// A widening of one of `rules` is a widening of one of them.
proof fn lemma_widen_all_contains(rules: Seq<LocaleView>, y: LocaleView)
    requires
        crate::default_rulebook::widen_all(rules).contains(y),
    ensures
        exists|k: int| 0 <= k < rules.len() && crate::omit::omissions(#[trigger] rules[k]).contains(y),
    decreases rules.len(),
{
    if rules.len() > 0 {
        crate::order::lemma_concat_contains(
            crate::default_rulebook::widen_all(rules.drop_last()),
            crate::omit::omissions(rules.last()),
            y,
        );
        if crate::default_rulebook::widen_all(rules.drop_last()).contains(y) {
            lemma_widen_all_contains(rules.drop_last(), y);
            let k = choose|k: int|
                0 <= k < rules.drop_last().len() && crate::omit::omissions(
                    #[trigger] rules.drop_last()[k],
                ).contains(y);
            assert(rules[k] == rules.drop_last()[k]);
        } else {
            assert(rules[rules.len() - 1] == rules.last());
        }
    }
}

/// The default direct fallbacks of a locale with the region `own` lie in the
/// universe.
pub proof fn lemma_default_fallbacks_in_universe(
    own: Option<Seq<char>>,
    x: LocaleView,
    y: LocaleView,
)
    requires
        rule_regions(own).contains(x.region),
        crate::default_rulebook::default_fallbacks(x).contains(y),
    ensures
        universe(own).contains(y),
{
    let rules = crate::default_rulebook::direct_rules(x);
    let widened = crate::default_rulebook::widen_all(rules);
    crate::order::lemma_concat_contains(rules, crate::order::unique(widened), y);
    if rules.contains(y) {
        lemma_direct_rules_in_universe(own, x, y);
    } else {
        crate::order::lemma_take_in_contains(Seq::empty(), widened, y);
        lemma_widen_all_contains(rules, y);
        let k = choose|k: int|
            0 <= k < rules.len() && crate::omit::omissions(#[trigger] rules[k]).contains(y);
        assert(rules.contains(rules[k]));
        lemma_direct_rules_in_universe(own, x, rules[k]);
        lemma_omissions_in_universe(own, rules[k], y);
    }
}

/// A search by the default rules ends: from any locale `l` it can reach
/// finitely many locales only.
pub proof fn lemma_default_rules_converge<R: PolyL10nRulebook>(rb: &R, l: LocaleView)
    requires
        forall|x: LocaleView| #[trigger]
            rb.fallback_locales(x) == crate::default_rulebook::default_fallbacks(x),
        forall|x: LocaleView| #[trigger] rb.fallback_locales_ref(x) == Seq::<LocaleView>::empty(),
    ensures
        crate::solver::reachable(rb, l).finite(),
{
    let u = universe(l.region);
    lemma_universe_finite(l.region);
    assert forall|x: LocaleView| crate::solver::direct_fallbacks(rb, l).contains(x) implies u.contains(
        x,
    ) by {
        assert(crate::solver::direct_fallbacks(rb, l) =~= crate::default_rulebook::default_fallbacks(
            l,
        ));
        lemma_default_fallbacks_in_universe(l.region, l, x);
    }
    assert forall|x: LocaleView, y: LocaleView|
        u.contains(x) && #[trigger] crate::solver::neighbors(rb, x).contains(y) implies u.contains(
        y,
    ) by {
        assert(crate::solver::direct_fallbacks(rb, x) =~= crate::default_rulebook::default_fallbacks(
            x,
        ));
        crate::order::lemma_concat_contains(
            crate::default_rulebook::default_fallbacks(x),
            crate::omit::omissions(x),
            y,
        );
        if crate::default_rulebook::default_fallbacks(x).contains(y) {
            lemma_default_fallbacks_in_universe(l.region, x, y);
        } else {
            lemma_omissions_in_universe(l.region, x, y);
        }
    }
    crate::solver::lemma_finite_reach(rb, l, u);
}

} // verus!
