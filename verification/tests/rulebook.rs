use poly_l10n::rulebook::{MapRules, PolyL10nRulebook, Rule};
use poly_l10n::{LanguageIdentifier, Rulebook};
use std::rc::Rc;

fn id(language: &str, script: Option<&str>, region: Option<&str>) -> LanguageIdentifier {
    LanguageIdentifier::tagged(language, script, region)
}

fn clear_script(l: &LanguageIdentifier) -> Vec<LanguageIdentifier> {
    vec![l.without_script()]
}

fn clear_region(l: &LanguageIdentifier) -> Vec<LanguageIdentifier> {
    vec![l.without_region()]
}

fn twice(l: &LanguageIdentifier) -> Vec<LanguageIdentifier> {
    vec![l.clone(), l.clone()]
}

#[test]
fn a_rulebook_of_one_function() {
    let rb = Rulebook::from_fn(clear_script);
    let input = id("zh", Some("Hant"), Some("HK"));
    assert_eq!(rb.find_fallback_locale(&input), vec![id("zh", None, Some("HK"))]);
    assert!(rb.find_fallback_locale_ref(&input).is_empty());
    assert_eq!(rb.rules.len(), 1);
}

#[test]
fn rules_are_asked_in_their_order() {
    let first = Rulebook::from_fn(clear_script);
    let second = Rulebook::from_fn(twice);
    let mut rules = first.rules;
    rules.extend(second.rules);
    let rb = Rulebook::from_fns(rules);
    let input = id("zh", Some("Hant"), Some("HK"));
    assert_eq!(rb.find_fallback_locale(&input), vec![id("zh", None, Some("HK")), input.clone(), input.clone()]);
}

#[test]
fn no_rules_no_fallbacks() {
    let rb = Rulebook::from_fns(vec![]);
    assert!(rb.find_fallback_locale(&id("zh", None, None)).is_empty());
}

#[test]
fn combined_rulebooks_give_what_each_gives() {
    let input = id("zh", Some("Hant"), Some("HK"));
    let rb = Rulebook::from_rulebooks(vec![
        Rulebook::from_fn(clear_script),
        Rulebook::from_fn(clear_region),
        Rulebook::from_fn(twice),
    ]);
    assert_eq!(
        rb.find_fallback_locale(&input),
        vec![id("zh", None, Some("HK")), id("zh", Some("Hant"), None), input.clone(), input.clone()]
    );
    assert_eq!(rb.owned_values.len(), 3);
    assert_eq!(rb.rules.len(), 1);
    assert_eq!(rb.owned_values[1].find_fallback_locale(&input), vec![id("zh", Some("Hant"), None)]);
}

#[test]
fn combining_is_registering_one_after_the_other() {
    let input = id("zh", Some("Hant"), Some("HK"));
    let combined =
        Rulebook::from_rulebooks(vec![Rulebook::from_fn(clear_script), Rulebook::from_fn(clear_region)]);
    let mut rules = Rulebook::from_fn(clear_script).rules;
    rules.extend(Rulebook::from_fn(clear_region).rules);
    let registered = Rulebook::from_fns(rules);
    assert_eq!(combined.find_fallback_locale(&input), registered.find_fallback_locale(&input));
}

#[test]
fn combination_nests() {
    let input = id("zh", Some("Hant"), Some("HK"));
    let inner = Rulebook::from_rulebooks(vec![Rulebook::from_fn(clear_script), Rulebook::from_fn(clear_region)]);
    let left = Rulebook::from_rulebooks(vec![Rulebook::from_fns(inner.rules), Rulebook::from_fn(twice)]);
    let inner = Rulebook::from_rulebooks(vec![Rulebook::from_fn(clear_region), Rulebook::from_fn(twice)]);
    let right = Rulebook::from_rulebooks(vec![Rulebook::from_fn(clear_script), Rulebook::from_fns(inner.rules)]);
    let flat = Rulebook::from_rulebooks(vec![
        Rulebook::from_fn(clear_script),
        Rulebook::from_fn(clear_region),
        Rulebook::from_fn(twice),
    ]);
    assert_eq!(left.find_fallback_locale(&input), flat.find_fallback_locale(&input));
    assert_eq!(right.find_fallback_locale(&input), flat.find_fallback_locale(&input));
}

#[test]
fn shared_rulebooks_combine_too() {
    let input = id("zh", Some("Hant"), Some("HK"));
    let rb1 = Rc::new(Rulebook::from_fn(clear_script));
    let rb2 = Rc::new(Rulebook::from_fn(clear_region));
    let rb = Rulebook::from_ref_rulebooks(vec![rb1.clone(), rb2.clone()]);
    assert_eq!(rb.find_fallback_locale(&input), vec![id("zh", None, Some("HK")), id("zh", Some("Hant"), None)]);
    assert_eq!(rb.owned_values.len(), 2);
    assert_eq!(rb.rules.len(), 1);
    assert!(Rc::ptr_eq(&rb.owned_values[0], &rb1));
    assert_eq!(Rc::strong_count(&rb.owned_values), 2);
}

fn table() -> MapRules {
    MapRules {
        entries: vec![
            (id("zh", None, Some("HK")), vec![id("zh", None, Some("TW")), id("zh", None, None)]),
            (id("pt", None, None), vec![]),
            (id("zh", None, Some("HK")), vec![id("yue", None, None)]),
        ],
    }
}

#[test]
fn a_table_hands_out_what_it_holds() {
    let map = table();
    let got = map.find_fallback_locale_ref(&id("zh", None, Some("HK")));
    assert_eq!(got.len(), 2);
    assert!(std::ptr::eq(got[0], &map.entries[0].1[0]));
    assert!(std::ptr::eq(got[1], &map.entries[0].1[1]));
    assert!(map.find_fallback_locale(&id("zh", None, Some("HK"))).is_empty());
    assert!(map.find_fallback_locale_ref(&id("pt", None, None)).is_empty());
    assert!(map.find_fallback_locale_ref(&id("fr", None, None)).is_empty());
    assert!(map.find(&id("fr", None, None)).is_none());
    assert!(map.find(&id("pt", None, None)).is_some());
}

#[test]
fn a_rulebook_from_a_table_hands_out_copies() {
    let rb = Rulebook::from_map(table());
    assert_eq!(
        rb.find_fallback_locale(&id("zh", None, Some("HK"))),
        vec![id("zh", None, Some("TW")), id("zh", None, None)]
    );
    assert!(rb.find_fallback_locale(&id("fr", None, None)).is_empty());
    assert!(rb.find_fallback_locale_ref(&id("zh", None, Some("HK"))).is_empty());
    assert_eq!(rb.rules.len(), 1);
}

#[test]
fn the_default_rulebook_has_the_default_rules() {
    let rb = Rulebook::default();
    for l in [id("arb", None, None), id("zh", None, Some("HK")), id("xx", None, None)] {
        assert_eq!(rb.find_fallback_locale(&l), poly_l10n::default_rulebook(&l));
        assert!(rb.find_fallback_locale_ref(&l).is_empty());
    }
    assert_eq!(rb.rules.len(), 1);
}

struct Fixed(Vec<LanguageIdentifier>);

impl PolyL10nRulebook for Fixed {
    fn find_fallback_locale(&self, _: &LanguageIdentifier) -> Vec<LanguageIdentifier> {
        self.0.clone()
    }

    fn find_fallback_locale_ref<'a>(&'a self, _: &LanguageIdentifier) -> Vec<&'a LanguageIdentifier> {
        self.0.iter().collect()
    }
}

#[test]
fn a_rulebook_asks_its_rules_for_what_they_make_only() {
    let rb = Rulebook::from_fns(vec![
        Rule(Box::new(Fixed(vec![id("aa", None, None)]))),
        Rule(Box::new(Fixed(vec![id("bb", None, None)]))),
    ]);
    assert_eq!(rb.find_fallback_locale(&id("zz", None, None)), vec![id("aa", None, None), id("bb", None, None)]);
    assert!(rb.find_fallback_locale_ref(&id("zz", None, None)).is_empty());
}
