use poly_l10n::macros::{assemble, find_dot, IntoLangIdAble, LanguageIdentifierError, ParserError};
use poly_l10n::LanguageIdentifier;

fn strings(items: &[&str]) -> Vec<String> {
    items.iter().map(|s| s.to_string()).collect()
}

#[test]
fn reads_language_script_and_region() {
    assert_eq!("zh-Hant-HK".to_langid(), Ok(LanguageIdentifier::tagged("zh", Some("Hant"), Some("HK"))));
    assert_eq!("zho".to_langid(), Ok(LanguageIdentifier::bare("zho")));
    assert_eq!("es-419".to_langid(), Ok(LanguageIdentifier::tagged("es", None, Some("419"))));
}

#[test]
fn both_separators_are_the_same() {
    assert_eq!("en_US".to_langid(), "en-US".to_langid());
    assert_eq!("en_US".to_langid(), Ok(LanguageIdentifier::tagged("en", None, Some("US"))));
}

#[test]
fn case_is_normalized() {
    assert_eq!(
        "eN_latn_Us-Valencia".to_langid(),
        Ok(LanguageIdentifier::from_parts(
            "en".to_string(),
            Some("Latn".to_string()),
            Some("US".to_string()),
            strings(&["valencia"])
        ))
    );
}

#[test]
fn variants_come_sorted() {
    let l = "ca-valencia-fonipa-valencia".to_langid().unwrap();
    assert_eq!(*l.variants(), strings(&["fonipa", "valencia"]));
    assert_eq!(l, LanguageIdentifier::from_parts("ca".to_string(), None, None, strings(&["valencia", "fonipa"])));
}

#[test]
fn two_lengths_of_code_stay_apart() {
    assert_ne!("fr".to_langid(), "fra".to_langid());
}

#[test]
fn a_bad_language_is_refused() {
    let bad = Err(LanguageIdentifierError::ParserError(ParserError::InvalidLanguage));
    assert_eq!("".to_langid(), bad);
    assert_eq!("e".to_langid(), bad);
    assert_eq!("e1".to_langid(), bad);
    assert_eq!("abcd".to_langid(), bad);
    assert_eq!("C.UTF-8".to_langid(), bad);
}

#[test]
fn a_bad_subtag_is_refused() {
    let bad = Err(LanguageIdentifierError::ParserError(ParserError::InvalidSubtag));
    assert_eq!("en-!!".to_langid(), bad);
    assert_eq!("en-US-x".to_langid(), bad);
    assert_eq!("en-US-a!cde".to_langid(), bad);
    assert_eq!("en-Latn-US-DE".to_langid(), bad);
}

#[test]
fn a_system_locale_is_cut_before_its_dot() {
    assert_eq!("en_US.UTF-8".to_langid(), Ok(LanguageIdentifier::bare("ens")));
    assert_eq!("en_US.UTF-8".to_string().to_langid(), Ok(LanguageIdentifier::bare("ens")));
    assert_eq!(b"en_US.UTF-8".as_slice().to_langid(), Ok(LanguageIdentifier::bare("ens")));
    assert_eq!("pt_x-BR.ISO-8859-1".to_langid(), Ok(LanguageIdentifier::tagged("pt", None, Some("BR"))));
}

#[test]
fn a_dot_right_behind_the_code_leaves_the_text_as_it_stands() {
    let bad = Err(LanguageIdentifierError::ParserError(ParserError::InvalidSubtag));
    assert_eq!("en_.UTF-8".to_langid(), bad);
}

#[test]
fn a_text_with_a_dot_that_names_no_language_is_read_as_it_stands() {
    let bad = Err(LanguageIdentifierError::ParserError(ParserError::InvalidSubtag));
    assert_eq!("xx_YY.UTF-8".to_langid(), bad);
    assert_eq!("en-US.UTF-8".to_langid(), bad);
}

#[test]
fn bytes_and_strings_read_alike() {
    assert_eq!(b"zh-Hant-HK".as_slice().to_langid(), "zh-Hant-HK".to_langid());
    assert_eq!("zh-Hant-HK".to_string().to_langid(), "zh-Hant-HK".to_langid());
}

#[test]
fn bytes_that_are_no_text_are_refused() {
    let bad = Err(LanguageIdentifierError::ParserError(ParserError::InvalidLanguage));
    assert_eq!([0xffu8, 0xfe].as_slice().to_langid(), bad);
    assert_eq!([0x65u8, 0x6e, 0xff, 0x2e].as_slice().to_langid(), bad);
}

#[test]
fn the_first_dot_is_found() {
    assert_eq!(find_dot(b"en_US.UTF-8.x"), Some(5));
    assert_eq!(find_dot(b".").map(|i| i + 1), Some(1));
    assert_eq!(find_dot(b"en_US"), None);
    assert_eq!(find_dot(b""), None);
}

#[test]
fn bytes_are_put_together_from_code_and_text() {
    let short = Some(b"en".as_slice());
    let long = Some(b"eng".as_slice());
    assert_eq!(assemble(b"en_US.UTF-8", 5, short, long), Some(b"enS".to_vec()));
    assert_eq!(assemble(b"en_US.UTF-8", 4, short, long), Some(b"en".to_vec()));
    assert_eq!(assemble(b"en_US.UTF-8", 3, short, long), None);
    assert_eq!(assemble(b"en_US.UTF-8", 12, short, long), None);
    assert_eq!(assemble(b"eng-US.UTF-8", 6, short, long), Some(b"engS".to_vec()));
    assert_eq!(assemble(b"eng-US.UTF-8", 6, short, None), None);
    assert_eq!(assemble(b"en_US.UTF-8", 5, None, long), None);
    assert_eq!(assemble(b"english_x.y", 9, short, long), Some(b"eng".to_vec()));
    assert_eq!(assemble(b"english.x", 9, short, long), None);
}
