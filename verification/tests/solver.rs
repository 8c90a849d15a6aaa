use poly_l10n::rulebook::{MapRules, PolyL10nRulebook};
use poly_l10n::{LanguageIdentifier, LocaleFallbackSolver, Rulebook};
use std::rc::Rc;

fn id(language: &str, script: Option<&str>, region: Option<&str>) -> LanguageIdentifier {
    LanguageIdentifier::tagged(language, script, region)
}

fn clear_script(l: &LanguageIdentifier) -> Vec<LanguageIdentifier> {
    vec![l.without_script()]
}

fn clear_region(l: &LanguageIdentifier) -> Vec<LanguageIdentifier> {
    vec![l.without_region()]
}

fn no_duplicates(list: &[LanguageIdentifier]) -> bool {
    list.iter().enumerate().all(|(i, a)| list.iter().skip(i + 1).all(|b| a != b))
}

#[test]
fn standard_arabic_closure() {
    let solver = LocaleFallbackSolver::<Rulebook>::default();
    let got = solver.solve_locale(&LanguageIdentifier::bare("arb"));
    let want = vec![
        id("ar", None, Some("AE")),
        id("ara", None, Some("AE")),
        id("arb", None, Some("AE")),
        id("ar", None, None),
        id("ara", None, None),
        id("arb", None, None),
    ];
    assert_eq!(got, want);
}

#[test]
fn simplified_chinese_reaches_traditional() {
    let solver = LocaleFallbackSolver { rulebook: Rulebook::default() };
    let input = id("zh", Some("Hans"), Some("CN"));
    let got = solver.solve_locale(&input);
    assert!(got.contains(&id("zh", Some("Hant"), None)));
    assert!(got.iter().filter(|l| **l == input).count() <= 1);
    assert!(no_duplicates(&got));
    let first = vec![
        id("zho", None, None),
        id("zh", Some("Hans"), Some("CN")),
        id("zho", Some("Hans"), Some("CN")),
        id("cmn", Some("Hans"), Some("CN")),
        id("zh", Some("Hant"), None),
        id("zh", None, None),
        id("zh", None, Some("CN")),
        id("zh", Some("Hans"), None),
        id("zho", None, Some("CN")),
        id("zho", Some("Hans"), None),
        id("cmn", None, None),
        id("cmn", None, Some("CN")),
        id("cmn", Some("Hans"), None),
    ];
    assert_eq!(got[..first.len()], first[..]);
    assert!(got.len() > first.len());
    assert!(got[first.len()..].contains(&id("zh", Some("Hant"), Some("TW"))));
}

#[test]
fn two_rulebooks_that_find_each_others_output() {
    let rb1 = Rulebook::from_fn(clear_script);
    let rb2 = Rulebook::from_fn(clear_region);
    let rulebook = Rulebook::from_rulebooks(vec![rb1, rb2]);
    let solver = LocaleFallbackSolver { rulebook };
    let got = solver.solve_locale(&id("zh", Some("Hant"), Some("HK")));
    let want = vec![id("zh", None, Some("HK")), id("zh", Some("Hant"), None), id("zh", None, None)];
    assert_eq!(got, want);
}

#[test]
fn a_language_without_a_rule_has_its_two_codes() {
    let solver = LocaleFallbackSolver::<Rulebook>::default();
    assert_eq!(
        solver.solve_locale(&LanguageIdentifier::bare("fr")),
        vec![id("fra", None, None), id("fr", None, None)]
    );
}

#[test]
fn an_unknown_language_has_an_empty_closure() {
    let solver = LocaleFallbackSolver::<Rulebook>::default();
    assert_eq!(solver.solve_locale(&LanguageIdentifier::bare("xx")), vec![]);
    assert_eq!(solver.solve_locale(&id("english", Some("Latn"), Some("GB"))), vec![]);
}

#[test]
fn an_empty_rulebook_has_an_empty_closure() {
    let solver = LocaleFallbackSolver { rulebook: Rulebook::from_fns(vec![]) };
    assert_eq!(solver.solve_locale(&id("zh", Some("Hant"), Some("HK"))), vec![]);
}

fn chain(l: &LanguageIdentifier) -> Vec<LanguageIdentifier> {
    let next: &[&str] = match l.language().as_str() {
        "aa" => &["bb", "cc"],
        "bb" => &["dd", "aa"],
        "cc" => &["ee", "bb"],
        "dd" => &["ff"],
        "ff" => &["aa", "gg"],
        _ => &[],
    };
    next.iter().map(|code| LanguageIdentifier::bare(code)).collect()
}

#[test]
fn nearer_locales_come_first() {
    let solver = LocaleFallbackSolver { rulebook: Rulebook::from_fn(chain) };
    let got = solver.solve_locale(&LanguageIdentifier::bare("aa"));
    let want: Vec<LanguageIdentifier> =
        ["bb", "cc", "dd", "aa", "ee", "ff", "gg"].iter().map(|c| LanguageIdentifier::bare(c)).collect();
    assert_eq!(got, want);
}

#[test]
fn widenings_of_what_is_found_are_found() {
    let rulebook = Rulebook::from_fn(|l: &LanguageIdentifier| {
        if l.language() == "de" && l.region().is_none() {
            vec![LanguageIdentifier::tagged("de", Some("Latn"), Some("AT"))]
        } else {
            vec![]
        }
    });
    let solver = LocaleFallbackSolver { rulebook };
    let got = solver.solve_locale(&LanguageIdentifier::bare("de"));
    let want = vec![
        id("de", Some("Latn"), Some("AT")),
        id("de", None, None),
        id("de", None, Some("AT")),
        id("de", Some("Latn"), None),
    ];
    assert_eq!(got, want);
}

struct Both {
    held: Vec<LanguageIdentifier>,
}

impl PolyL10nRulebook for Both {
    fn find_fallback_locale(&self, l: &LanguageIdentifier) -> Vec<LanguageIdentifier> {
        if l.language() == "nb" {
            vec![LanguageIdentifier::bare("no")]
        } else {
            vec![]
        }
    }

    fn find_fallback_locale_ref<'a>(&'a self, l: &LanguageIdentifier) -> Vec<&'a LanguageIdentifier> {
        if l.language() == "nb" {
            self.held.iter().collect()
        } else {
            vec![]
        }
    }
}

#[test]
fn made_fallbacks_come_before_held_ones() {
    let rulebook = Both { held: vec![LanguageIdentifier::bare("nn"), LanguageIdentifier::bare("no")] };
    let solver = LocaleFallbackSolver { rulebook };
    assert_eq!(
        solver.direct_fallbacks(&LanguageIdentifier::bare("nb")),
        vec![LanguageIdentifier::bare("no"), LanguageIdentifier::bare("nn"), LanguageIdentifier::bare("no")]
    );
    assert_eq!(
        solver.solve_locale(&LanguageIdentifier::bare("nb")),
        vec![LanguageIdentifier::bare("no"), LanguageIdentifier::bare("nn")]
    );
}

#[test]
fn a_table_as_rulebook() {
    let rulebook = MapRules {
        entries: vec![
            (id("zh", None, Some("HK")), vec![id("zh", None, Some("TW")), id("zh", None, None)]),
            (id("zh", None, Some("TW")), vec![id("zh", None, Some("HK"))]),
            (id("zh", None, Some("HK")), vec![id("yue", None, None)]),
        ],
    };
    let solver = LocaleFallbackSolver { rulebook };
    assert_eq!(
        solver.solve_locale(&id("zh", None, Some("HK"))),
        vec![id("zh", None, Some("TW")), id("zh", None, None), id("zh", None, Some("HK"))]
    );
    assert_eq!(solver.solve_locale(&id("zh", None, Some("MO"))), vec![]);
}

#[test]
fn two_shared_rulebooks_that_find_each_others_output() {
    let rb1 = Rc::new(Rulebook::from_fn(clear_script));
    let rb2 = Rc::new(Rulebook::from_fn(clear_region));
    let rulebook = Rulebook::from_ref_rulebooks(vec![rb1, rb2]);
    let solver = LocaleFallbackSolver { rulebook };
    let got = solver.solve_locale(&id("zh", Some("Hant"), Some("HK")));
    let want = vec![id("zh", None, Some("HK")), id("zh", Some("Hant"), None), id("zh", None, None)];
    assert_eq!(got, want);
}

#[test]
fn the_closure_of_a_locale_with_variants_has_each_selection_once() {
    let rulebook = Rulebook::from_fn(|l: &LanguageIdentifier| vec![l.without_region()]);
    let solver = LocaleFallbackSolver { rulebook };
    let input = LanguageIdentifier::from_parts(
        "ca".to_string(),
        None,
        Some("ES".to_string()),
        vec!["valencia".to_string(), "fonipa".to_string()],
    );
    let got = solver.solve_locale(&input);
    assert_eq!(got.len(), 4);
    assert!(no_duplicates(&got));
    assert_eq!(got[0], input.without_region());
    assert_eq!(got[1], LanguageIdentifier::bare("ca"));
    assert!(!got.contains(&input));
}
