use poly_l10n::registry::{language_of_locale, resolve, to_long_code, to_short_code, ISOLANG_OVERVIEW_LEN};

#[test]
fn isolang_overview_len() {
    assert!(isolang::Language::from_usize(ISOLANG_OVERVIEW_LEN).is_none());
    assert!(isolang::Language::from_usize(ISOLANG_OVERVIEW_LEN - 1).is_some());
}

#[test]
fn ordinals_end_where_the_registry_ends() {
    assert!(to_long_code(ISOLANG_OVERVIEW_LEN).is_none());
    assert!(to_long_code(ISOLANG_OVERVIEW_LEN - 1).is_some());
    assert!(to_short_code(ISOLANG_OVERVIEW_LEN).is_none());
    assert!(to_long_code(usize::MAX).is_none());
}

#[test]
fn a_code_is_looked_up_by_its_length() {
    let ar = resolve("ar").unwrap();
    assert_eq!(resolve("ara"), Some(ar));
    assert_eq!(ar, isolang::Language::Ara as usize);
    assert_eq!(resolve("arb"), Some(isolang::Language::Arb as usize));
    assert_ne!(resolve("arb"), Some(ar));
}

#[test]
fn a_code_of_another_length_is_no_language() {
    assert_eq!(resolve(""), None);
    assert_eq!(resolve("a"), None);
    assert_eq!(resolve("arab"), None);
    assert_eq!(resolve("english"), None);
}

#[test]
fn a_code_that_the_registry_lacks_is_no_language() {
    assert_eq!(resolve("xx"), None);
    assert_eq!(resolve("qqq"), None);
    assert_eq!(resolve("AR"), None);
}

#[test]
fn codes_of_a_language() {
    let ar = resolve("ar").unwrap();
    assert_eq!(to_short_code(ar), Some("ar".to_string()));
    assert_eq!(to_long_code(ar), Some("ara".to_string()));
    let arb = resolve("arb").unwrap();
    assert_eq!(to_short_code(arb), None);
    assert_eq!(to_long_code(arb), Some("arb".to_string()));
    let zh = resolve("zh").unwrap();
    assert_eq!(to_long_code(zh), Some("zho".to_string()));
}

#[test]
fn language_of_a_system_locale() {
    assert_eq!(language_of_locale("de_DE.UTF-8"), resolve("de"));
    assert_eq!(language_of_locale("de"), None);
    assert_eq!(language_of_locale("deu_DE"), None);
    assert_eq!(language_of_locale("de_"), resolve("de"));
    assert_eq!(language_of_locale("de_DE_x"), resolve("de"));
    assert_eq!(language_of_locale("de-DE"), None);
    assert_eq!(language_of_locale("_de"), None);
    assert_eq!(language_of_locale("xx_YY"), None);
}
