use poly_l10n::getlang::{
    macos_parse_want_langids, names_in_buffer, read_each, split_bytes, unix_parse_want_langids,
    unix_variables, unix_want_langids, MacSysLangidsIterator,
};
use poly_l10n::LanguageIdentifier;

fn id(language: &str, script: Option<&str>, region: Option<&str>) -> LanguageIdentifier {
    LanguageIdentifier::tagged(language, script, region)
}

fn all(mut it: MacSysLangidsIterator) -> Vec<LanguageIdentifier> {
    let mut out = Vec::new();
    while let Some(l) = it.next() {
        out.push(l);
    }
    assert_eq!(it.next(), None);
    out
}

#[test]
fn a_list_is_split_at_each_colon() {
    assert_eq!(split_bytes(b"a::b:", b':'), vec![b"a".to_vec(), b"".to_vec(), b"b".to_vec(), b"".to_vec()]);
    assert_eq!(split_bytes(b"", b':'), vec![b"".to_vec()]);
    assert_eq!(split_bytes(b"en_US", b':'), vec![b"en_US".to_vec()]);
    assert_eq!(split_bytes(b":", b':'), vec![b"".to_vec(), b"".to_vec()]);
}

#[test]
fn entries_that_are_no_locales_are_passed_over() {
    let got = unix_parse_want_langids(b"en_US:zh-Hant-HK::not a locale:fr:en_US.UTF-8:de");
    assert_eq!(
        got,
        vec![id("en", None, Some("US")), id("zh", Some("Hant"), Some("HK")), id("fr", None, None), id("de", None, None)]
    );
    assert_eq!(unix_parse_want_langids(b""), vec![]);
    assert_eq!(unix_parse_want_langids(b"C"), vec![]);
}

#[test]
fn names_are_read_in_order() {
    let names = vec![b"de-AT".to_vec(), b"??".to_vec(), b"de".to_vec(), b"de-AT".to_vec()];
    assert_eq!(
        read_each(&names),
        vec![id("de", None, Some("AT")), id("de", None, None), id("de", None, Some("AT"))]
    );
}

#[test]
fn every_entry_of_the_list_is_read() {
    let stdout = b"(\n    \"en-US\",\n    \"zh-Hant-HK\",\n    \"fr-FR\"\n)\n".to_vec();
    assert_eq!(
        all(macos_parse_want_langids(stdout)),
        vec![id("en", None, Some("US")), id("zh", Some("Hant"), Some("HK")), id("fr", None, Some("FR"))]
    );
}

#[test]
fn a_list_on_one_line() {
    let mut it = macos_parse_want_langids(b"(\"en-US\", \"fr-FR\")".to_vec());
    assert_eq!(it.next(), Some(id("en", None, Some("US"))));
    assert_eq!(it.next(), Some(id("fr", None, Some("FR"))));
    assert_eq!(it.next(), None);
}

#[test]
fn a_piece_that_names_no_locale_is_passed_over() {
    let stdout = b"x, \"en\" , \"not a locale\",fr,\t(nl),(de)\r\n,\"\",\"it\n".to_vec();
    let mut it = MacSysLangidsIterator::new(stdout);
    assert_eq!(it.next(), Some(id("en", None, None)));
    assert_eq!(it.next(), Some(id("fr", None, None)));
    assert_eq!(it.next(), Some(id("de", None, None)));
    assert_eq!(it.next(), None);
    assert_eq!(it.next(), None);
}

#[test]
fn the_first_and_the_last_piece_are_pieces_too() {
    assert_eq!(
        all(macos_parse_want_langids(b"it,??,nl".to_vec())),
        vec![id("it", None, None), id("nl", None, None)]
    );
    assert_eq!(all(macos_parse_want_langids(b"it,".to_vec())), vec![id("it", None, None)]);
    assert_eq!(all(macos_parse_want_langids(b",it".to_vec())), vec![id("it", None, None)]);
    assert_eq!(all(macos_parse_want_langids(b",,".to_vec())), vec![]);
}

#[test]
fn a_list_of_one_entry_has_no_comma() {
    assert_eq!(
        all(macos_parse_want_langids(b"(\n    \"en-US\"\n)\n".to_vec())),
        vec![id("en", None, Some("US"))]
    );
    assert_eq!(all(macos_parse_want_langids(b"()".to_vec())), vec![]);
    assert_eq!(all(macos_parse_want_langids(Vec::new())), vec![]);
}

#[test]
fn brackets_blanks_and_quotation_marks_are_taken_off() {
    assert_eq!(all(macos_parse_want_langids(b"(\"pt-BR\")".to_vec())), vec![id("pt", None, Some("BR"))]);
    assert_eq!(all(macos_parse_want_langids(b"  pt-BR  ) ".to_vec())), vec![id("pt", None, Some("BR"))]);
    assert_eq!(all(macos_parse_want_langids(b"\"pt-BR".to_vec())), vec![]);
    assert_eq!(all(macos_parse_want_langids(b"( \"pt-BR\")".to_vec())), vec![id("pt", None, Some("BR"))]);
    assert_eq!(all(macos_parse_want_langids(b"\" pt-BR\"".to_vec())), vec![]);
    assert_eq!(all(macos_parse_want_langids(b" (pt-BR)".to_vec())), vec![]);
}

#[test]
fn the_variables_are_read_in_their_order() {
    assert_eq!(unix_variables(), ["LC_ALL", "LC_MESSAGES", "LANG", "LANGUAGE", "LANGUAGES"]);
    assert_eq!(
        unix_want_langids(Some("de"), None, Some("fr:it"), Some("en_US"), Some("pt")),
        vec![
            id("de", None, None),
            id("fr", None, None),
            id("it", None, None),
            id("en", None, Some("US")),
            id("pt", None, None)
        ]
    );
    assert_eq!(
        unix_want_langids(None, Some("nl"), None, None, Some("sv:nl")),
        vec![id("nl", None, None), id("sv", None, None), id("nl", None, None)]
    );
    assert_eq!(unix_want_langids(Some("C"), Some("C.UTF-8"), Some("en_US.UTF-8"), None, Some("")), vec![]);
    assert_eq!(unix_want_langids(None, None, None, None, None), vec![]);
}

fn utf16(text: &str) -> Vec<u16> {
    text.encode_utf16().collect()
}

#[test]
fn names_end_at_a_zero() {
    assert_eq!(names_in_buffer(&utf16("en-US\0fr-FR\0\0")), vec!["en-US".to_string(), "fr-FR".to_string()]);
    assert_eq!(names_in_buffer(&utf16("de")), vec!["de".to_string()]);
    assert_eq!(names_in_buffer(&utf16("\0\0zh-Hant-HK")), vec!["zh-Hant-HK".to_string()]);
    assert_eq!(names_in_buffer(&utf16("\u{1F600}\0\u{e9}")), vec!["\u{1F600}".to_string(), "\u{e9}".to_string()]);
    assert_eq!(names_in_buffer(&[]), Vec::<String>::new());
    assert_eq!(names_in_buffer(&[0, 0, 0]), Vec::<String>::new());
}

#[test]
fn a_name_that_is_no_utf16_is_left_out() {
    let mut buffer = utf16("en\0");
    buffer.extend([0xd800, 0x0041, 0]);
    buffer.extend(utf16("fr\0"));
    buffer.extend([0xdc00]);
    assert_eq!(names_in_buffer(&buffer), vec!["en".to_string(), "fr".to_string()]);
    let names: Vec<Vec<u8>> = names_in_buffer(&buffer).into_iter().map(String::into_bytes).collect();
    assert_eq!(read_each(&names), vec![id("en", None, None), id("fr", None, None)]);
}
