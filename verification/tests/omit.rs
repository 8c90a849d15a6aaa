use poly_l10n::omit::find_rules_omit_optparts;
use poly_l10n::LanguageIdentifier;

fn strings(items: &[&str]) -> Vec<String> {
    items.iter().map(|s| s.to_string()).collect()
}

fn id(language: &str, script: Option<&str>, region: Option<&str>, variants: &[&str]) -> LanguageIdentifier {
    LanguageIdentifier::from_parts(
        language.to_string(),
        script.map(|s| s.to_string()),
        region.map(|s| s.to_string()),
        strings(variants),
    )
}

#[test]
fn a_bare_language_has_no_weaker_locale() {
    assert!(find_rules_omit_optparts(&id("zh", None, None, &[])).is_empty());
}

#[test]
fn script_alone() {
    assert_eq!(find_rules_omit_optparts(&id("zh", Some("Hant"), None, &[])), vec![id("zh", None, None, &[])]);
}

#[test]
fn region_alone() {
    assert_eq!(find_rules_omit_optparts(&id("zh", None, Some("HK"), &[])), vec![id("zh", None, None, &[])]);
}

#[test]
fn script_and_region() {
    let got = find_rules_omit_optparts(&id("zh", Some("Hant"), Some("HK"), &[]));
    let want = vec![
        id("zh", None, None, &[]),
        id("zh", None, Some("HK"), &[]),
        id("zh", Some("Hant"), None, &[]),
    ];
    assert_eq!(got, want);
}

#[test]
fn one_variant() {
    let got = find_rules_omit_optparts(&id("ca", None, None, &["valencia"]));
    assert_eq!(got, vec![id("ca", None, None, &[])]);
}

#[test]
fn two_variants_in_order() {
    let got = find_rules_omit_optparts(&id("ca", None, None, &["fonipa", "valencia"]));
    let want = vec![
        id("ca", None, None, &[]),
        id("ca", None, None, &["valencia"]),
        id("ca", None, None, &["fonipa"]),
    ];
    assert_eq!(got, want);
}

#[test]
fn region_and_one_variant() {
    let got = find_rules_omit_optparts(&id("ca", None, Some("ES"), &["valencia"]));
    let want = vec![
        id("ca", None, None, &[]),
        id("ca", None, None, &["valencia"]),
        id("ca", None, Some("ES"), &[]),
    ];
    assert_eq!(got, want);
}

#[test]
fn script_region_and_two_variants_give_fifteen() {
    let input = id("ca", Some("Latn"), Some("ES"), &["fonipa", "valencia"]);
    let got = find_rules_omit_optparts(&input);
    assert_eq!(got.len(), (2 * 2 * 4) - 1);
    for (i, a) in got.iter().enumerate() {
        assert_ne!(*a, input);
        assert_eq!(a.language(), "ca");
        for b in got.iter().skip(i + 1) {
            assert_ne!(a, b);
        }
    }
    assert_eq!(got[0], id("ca", None, None, &[]));
    assert_eq!(got[3], id("ca", None, None, &["fonipa", "valencia"]));
    assert_eq!(got[4], id("ca", None, Some("ES"), &[]));
    assert_eq!(got[8], id("ca", Some("Latn"), None, &[]));
    assert_eq!(got[14], id("ca", Some("Latn"), Some("ES"), &["fonipa"]));
}

#[test]
fn three_variants_give_seven() {
    let got = find_rules_omit_optparts(&id("de", None, None, &["1901", "1996", "fonipa"]));
    assert_eq!(got.len(), 7);
    assert_eq!(got[6], id("de", None, None, &["1901", "1996"]));
}
