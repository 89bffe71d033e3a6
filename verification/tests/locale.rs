use xdg_desktop_entry::locale::{parse_locale, Locale};

#[test]
fn test_parse_locale() {
    assert_eq!(parse_locale("C"), Some(Locale::new("C", None, None)));

    assert_eq!(parse_locale("en_US.UTF-8"), Some(Locale::new("en", Some("US"), None)));
    assert_eq!(parse_locale("en_US"), Some(Locale::new("en", Some("US"), None)));
    assert_eq!(parse_locale("en"), Some(Locale::new("en", None, None)));
    assert_eq!(parse_locale("en.UTF-8"), Some(Locale::new("en", None, None)));

    assert_eq!(parse_locale("sr@latin"), Some(Locale::new("sr", None, Some("latin"))));
    assert_eq!(parse_locale("sr.UTF-8@latin"), Some(Locale::new("sr", None, Some("latin"))));

    assert_eq!(parse_locale(""), None);
    assert_eq!(parse_locale("sr.UTF@8@latin"), None);
    assert_eq!(parse_locale("en-US"), None);
    assert_eq!(parse_locale("abc xyz"), None);
    assert_eq!(parse_locale("0x0407"), None);
}
