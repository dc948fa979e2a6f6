use speakhuman::i18n::{
    decimal_separator, gettext, ngettext, pgettext, read_u32_be, read_u32_le,
    thousands_separator, Translations,
};

#[test]
fn test_default_separators() {
    assert_eq!(thousands_separator(None), ",");
    assert_eq!(decimal_separator(None), ".");
}

#[test]
fn test_null_translation() {
    let t = Translations::null();
    assert_eq!(gettext(&t, "hello"), "hello");
    assert_eq!(pgettext(&t, "ctx", "hello"), "hello");
    assert_eq!(ngettext(&t, "1 item", "%d items", 1), "1 item");
    assert_eq!(ngettext(&t, "1 item", "%d items", 2), "%d items");
}

#[test]
fn test_locale_separators() {
    assert_eq!(thousands_separator(Some("de_DE")), ".");
    assert_eq!(thousands_separator(Some("fr_FR")), "\u{a0}");
    assert_eq!(thousands_separator(Some("en_US")), ",");
    assert_eq!(decimal_separator(Some("de_DE")), ",");
    assert_eq!(decimal_separator(Some("fr_FR")), ".");
    assert_eq!(decimal_separator(Some("en_US")), ".");
}

#[test]
fn test_catalog_lookup() {
    let t = Translations {
        messages: vec![
            ("a moment".to_string(), "un momento".to_string()),
            ("ctx\u{4}hello".to_string(), "hola".to_string()),
        ],
        plurals: vec![(
            "%d day".to_string(),
            vec!["%d dia".to_string(), "%d dias".to_string()],
        )],
        nplurals: 2,
        thousands_sep: ",".to_string(),
    };
    assert_eq!(gettext(&t, "a moment"), "un momento");
    assert_eq!(gettext(&t, "missing"), "missing");
    assert_eq!(pgettext(&t, "ctx", "hello"), "hola");
    assert_eq!(ngettext(&t, "%d day", "%d days", 1), "%d dia");
    assert_eq!(ngettext(&t, "%d day", "%d days", 5), "%d dias");
}

#[test]
fn test_three_form_plural_rule() {
    let t = Translations {
        messages: vec![],
        plurals: vec![(
            "%d year".to_string(),
            vec!["%d god".to_string(), "%d goda".to_string(), "%d let".to_string()],
        )],
        nplurals: 3,
        thousands_sep: ",".to_string(),
    };
    assert_eq!(ngettext(&t, "%d year", "%d years", 1), "%d god");
    assert_eq!(ngettext(&t, "%d year", "%d years", 3), "%d goda");
    assert_eq!(ngettext(&t, "%d year", "%d years", 5), "%d let");
    assert_eq!(ngettext(&t, "%d year", "%d years", 11), "%d let");
    assert_eq!(ngettext(&t, "%d year", "%d years", 21), "%d god");
}

#[test]
fn test_read_u32() {
    let data: Vec<u8> = vec![0xde, 0x12, 0x04, 0x95, 0x01];
    assert_eq!(read_u32_le(&data, 0), 0x950412de);
    assert_eq!(read_u32_be(&data, 0), 0xde120495);
    assert_eq!(read_u32_le(&data, 1), 0x01950412);
}
