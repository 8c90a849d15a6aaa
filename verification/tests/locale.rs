use poly_l10n::LanguageIdentifier;
use std::collections::HashSet;

fn strings(items: &[&str]) -> Vec<String> {
    items.iter().map(|s| s.to_string()).collect()
}

#[test]
fn bare_has_only_a_language() {
    let l = LanguageIdentifier::bare("fr");
    assert_eq!(l.language(), "fr");
    assert_eq!(*l.script(), None);
    assert_eq!(*l.region(), None);
    assert!(l.variants().is_empty());
}

#[test]
fn tagged_keeps_script_and_region() {
    let l = LanguageIdentifier::tagged("zh", Some("Hant"), Some("HK"));
    assert_eq!(l.language(), "zh");
    assert_eq!(l.script().as_deref(), Some("Hant"));
    assert_eq!(l.region().as_deref(), Some("HK"));
    assert!(l.variants().is_empty());
}

#[test]
fn from_parts_sorts_variants_and_names_each_once() {
    let l = LanguageIdentifier::from_parts(
        "ca".to_string(),
        None,
        Some("ES".to_string()),
        strings(&["valencia", "fonipa", "valencia", "1996"]),
    );
    assert_eq!(*l.variants(), strings(&["1996", "fonipa", "valencia"]));
}

#[test]
fn a_shorter_variant_comes_before_its_continuation() {
    let l = LanguageIdentifier::from_parts("sl".to_string(), None, None, strings(&["rozaj1", "rozaj"]));
    assert_eq!(*l.variants(), strings(&["rozaj", "rozaj1"]));
}

#[test]
fn equality_does_not_depend_on_the_order_of_given_variants() {
    let a = LanguageIdentifier::from_parts("ca".to_string(), None, None, strings(&["valencia", "fonipa"]));
    let b = LanguageIdentifier::from_parts("ca".to_string(), None, None, strings(&["fonipa", "valencia"]));
    assert_eq!(a, b);
    assert!(a.same_as(&b));
}

#[test]
fn two_lengths_of_code_are_two_locales() {
    assert_ne!(LanguageIdentifier::bare("fr"), LanguageIdentifier::bare("fra"));
}

#[test]
fn locales_differ_by_each_subtag() {
    let base = LanguageIdentifier::tagged("zh", Some("Hant"), Some("HK"));
    assert_ne!(base, LanguageIdentifier::tagged("zh", Some("Hans"), Some("HK")));
    assert_ne!(base, LanguageIdentifier::tagged("zh", Some("Hant"), Some("TW")));
    assert_ne!(base, LanguageIdentifier::tagged("zh", None, Some("HK")));
    assert_ne!(base, LanguageIdentifier::tagged("zh", Some("Hant"), None));
    assert_ne!(base, LanguageIdentifier::tagged("yue", Some("Hant"), Some("HK")));
    assert_eq!(base, base.clone());
}

#[test]
fn clearing_a_subtag_gives_a_new_value() {
    let l = LanguageIdentifier::from_parts(
        "ca".to_string(),
        Some("Latn".to_string()),
        Some("ES".to_string()),
        strings(&["valencia"]),
    );
    assert_eq!(
        l.without_script(),
        LanguageIdentifier::from_parts("ca".to_string(), None, Some("ES".to_string()), strings(&["valencia"]))
    );
    assert_eq!(
        l.without_region(),
        LanguageIdentifier::from_parts("ca".to_string(), Some("Latn".to_string()), None, strings(&["valencia"]))
    );
    assert_eq!(l.without_variants(), LanguageIdentifier::tagged("ca", Some("Latn"), Some("ES")));
    assert_eq!(l.script().as_deref(), Some("Latn"));
}

#[test]
fn is_in_finds_a_locale_in_a_list() {
    let list = vec![LanguageIdentifier::bare("ar"), LanguageIdentifier::tagged("ar", None, Some("AE"))];
    assert!(LanguageIdentifier::tagged("ar", None, Some("AE")).is_in(&list));
    assert!(!LanguageIdentifier::bare("ara").is_in(&list));
}

#[test]
fn case_of_ascii_letters_can_be_ignored() {
    assert!(poly_l10n::locale::eq_ignore_ascii_case("hans", "Hans"));
    assert!(poly_l10n::locale::eq_ignore_ascii_case("HANT", "Hant"));
    assert!(!poly_l10n::locale::eq_ignore_ascii_case("Hans", "Hant"));
    assert!(!poly_l10n::locale::eq_ignore_ascii_case("Han", "Hans"));
}

#[test]
fn subtags_are_ordered_by_their_characters() {
    assert!(poly_l10n::locale::subtag_less("1996", "fonipa"));
    assert!(poly_l10n::locale::subtag_less("fonipa", "fonupa"));
    assert!(poly_l10n::locale::subtag_less("", "a"));
    assert!(!poly_l10n::locale::subtag_less("fonipa", "fonipa"));
    assert!(!poly_l10n::locale::subtag_less("valencia", "fonipa"));
}

#[test]
fn equal_locales_hash_alike() {
    let mut set = HashSet::new();
    set.insert(LanguageIdentifier::tagged("zh", Some("Hant"), Some("HK")));
    set.insert(LanguageIdentifier::from_parts(
        "zh".to_string(),
        Some("Hant".to_string()),
        Some("HK".to_string()),
        vec![],
    ));
    set.insert(LanguageIdentifier::bare("zh"));
    assert_eq!(set.len(), 2);
}
