//! Plain and locale-aware lookups.

use xdg_desktop_entry::locale::parse_locale;
use xdg_desktop_entry::parser::parse_desktop_entry;
use xdg_desktop_entry::{DesktopEntry, Locale, StandardKey};

fn names(variants: Vec<(&'static str, &'static str)>) -> DesktopEntry<'static> {
    DesktopEntry::from_group_values(vec![("Desktop Entry", variants)])
}

fn all_variants() -> DesktopEntry<'static> {
    names(vec![
        ("Name", "plain"),
        ("Name[en]", "en"),
        ("Name[de]", "de"),
        ("Name[de_DE]", "de_DE"),
        ("Name[de@nord]", "de@nord"),
        ("Name[de_DE@nord]", "de_DE@nord"),
    ])
}

#[test]
fn language_and_country_count_before_language_and_plain() {
    let entry = names(vec![
        ("Name", "App"),
        ("Name[en]", "App"),
        ("Name[de]", "Anw"),
        ("Name[de_DE]", "Anwend"),
        ("Name[de_DE@nord]", "Anwendung"),
    ]);
    assert_eq!(entry.localized_get("Name", &parse_locale("de_DE")), Some("Anwend"));
}

#[test]
fn the_candidates_count_in_their_order() {
    let entry = all_variants();
    assert_eq!(entry.localized_get("Name", &parse_locale("de_DE@nord")), Some("de_DE@nord"));
    assert_eq!(entry.localized_get("Name", &parse_locale("de_DE")), Some("de_DE"));
    assert_eq!(entry.localized_get("Name", &parse_locale("de@nord")), Some("de@nord"));
    assert_eq!(entry.localized_get("Name", &parse_locale("de")), Some("de"));
    assert_eq!(entry.localized_get("Name", &parse_locale("de_AT@sued")), Some("de"));
    assert_eq!(entry.localized_get("Name", &parse_locale("fr_FR@nord")), Some("plain"));
    assert_eq!(entry.localized_get("Name", &parse_locale("en_US.UTF-8")), Some("en"));
}

#[test]
fn country_counts_before_modifier() {
    let entry = names(vec![("Name[de@nord]", "modifier"), ("Name[de_DE]", "country")]);
    assert_eq!(entry.localized_get("Name", &parse_locale("de_DE@nord")), Some("country"));

    let entry = names(vec![("Name[de@nord]", "modifier"), ("Name[de]", "language")]);
    assert_eq!(entry.localized_get("Name", &parse_locale("de_DE@nord")), Some("modifier"));
}

#[test]
fn a_variant_that_was_not_asked_for_is_never_found() {
    let entry = names(vec![("Name[de_DE@nord]", "x"), ("Name[en]", "y"), ("Name[de_AT]", "z")]);
    assert_eq!(entry.localized_get("Name", &parse_locale("de_DE")), None);
    assert_eq!(entry.localized_get("Name", &parse_locale("de")), None);
    assert_eq!(entry.localized_get("Name", &None), None);
}

#[test]
fn the_encoding_of_a_locale_does_not_count() {
    let entry = names(vec![("Name[de_DE.UTF-8]", "x"), ("Name[de_DE]", "y")]);
    assert_eq!(entry.localized_get("Name", &parse_locale("de_DE.UTF-8")), Some("y"));
}

#[test]
fn the_plain_value_is_found_for_any_locale_where_it_stands_alone() {
    let entry = names(vec![("Name", "App")]);
    for text in ["de_DE", "de", "sr@latin", "en_US.UTF-8@euro", "C", "x_Y@z"] {
        let locale = parse_locale(text);
        assert!(locale.is_some());
        assert_eq!(entry.localized_get("Name", &locale), Some("App"));
    }
}

#[test]
fn without_a_locale_the_lookup_is_the_plain_one() {
    let entry = all_variants();
    for key in ["Name", "Name[de]", "Name[de_DE@nord]", "Exec", "", "Name[", "name"] {
        assert_eq!(entry.localized_get(key, &None), entry.get(key));
        assert_eq!(
            entry.group_localized_get("Desktop Entry", key, &None),
            entry.group_get("Desktop Entry", key)
        );
        assert_eq!(entry.group_localized_get("Other", key, &None), entry.group_get("Other", key));
    }
    assert_eq!(entry.localized_get("Name", &None), Some("plain"));
}

#[test]
fn a_group_that_is_not_there_has_no_keys_and_no_values() {
    let entry = names(vec![("Name", "App")]);
    assert_eq!(entry.group_keys("Desktop Action X"), Vec::<&str>::new());
    assert_eq!(entry.group_get("Desktop Action X", "Name"), None);
    assert_eq!(entry.group_localized_get("Desktop Action X", "Name", &parse_locale("de")), None);
    assert_eq!(entry.group_localized_get("Desktop Action X", "Name", &None), None);

    let empty = DesktopEntry::from_group_values(vec![]);
    assert_eq!(empty.keys(), Vec::<&str>::new());
    assert_eq!(empty.get("Name"), None);
    assert_eq!(empty.localized_get("Name", &parse_locale("de")), None);
}

#[test]
fn lookups_in_other_groups() {
    let entry = DesktopEntry::parse_string(
        "[Desktop Entry]\nName=Foo\n[Desktop Action Gallery]\nName=Browse\n\
         Name[de]=Stöbern\nExec=foo --gallery\n",
    )
    .unwrap();
    assert_eq!(entry.group_get("Desktop Action Gallery", "Exec"), Some("foo --gallery"));
    assert_eq!(entry.group_get("Desktop Action Gallery", "Name"), Some("Browse"));
    assert_eq!(
        entry.group_localized_get("Desktop Action Gallery", "Name", &parse_locale("de_DE")),
        Some("Stöbern")
    );
    assert_eq!(entry.get("Exec"), None);
    let mut keys = entry.group_keys("Desktop Action Gallery");
    keys.sort();
    assert_eq!(keys, vec!["Exec", "Name", "Name[de]"]);
    assert_eq!(entry.keys(), vec!["Name"]);
}

#[test]
fn lookups_are_the_same_each_time() {
    let entry = all_variants();
    let locale = parse_locale("de_DE");
    let first = entry.localized_get("Name", &locale);
    for _ in 0..3 {
        assert_eq!(entry.localized_get("Name", &locale), first);
        assert_eq!(entry.get("Name"), Some("plain"));
        assert_eq!(entry.keys().len(), 6);
    }
}

#[test]
fn group_values_with_one_name_or_key_twice() {
    let entry = DesktopEntry::from_group_values(vec![
        ("g", vec![("k", "1"), ("j", "2"), ("k", "3")]),
        ("h", vec![("k", "4")]),
        ("g", vec![("k", "5")]),
    ]);
    assert_eq!(entry.group_get("g", "k"), Some("5"));
    assert_eq!(entry.group_get("g", "j"), None);
    assert_eq!(entry.group_get("h", "k"), Some("4"));
}

#[test]
fn a_document_that_was_read_can_be_looked_into() {
    let groups = parse_desktop_entry("[Desktop Entry]\nType=Application\nURL=x\n").unwrap();
    let entry = DesktopEntry::from_groups(groups);
    assert_eq!(entry.get_key(StandardKey::Type), Some("Application"));
    assert_eq!(entry.get_key(StandardKey::Url), Some("x"));
    assert_eq!(entry.get_key(StandardKey::Name), None);
}

#[test]
fn the_names_of_the_standard_keys() {
    let names = [
        (StandardKey::Type, "Type"),
        (StandardKey::Version, "Version"),
        (StandardKey::Name, "Name"),
        (StandardKey::GenericName, "GenericName"),
        (StandardKey::NoDisplay, "NoDisplay"),
        (StandardKey::Comment, "Comment"),
        (StandardKey::Icon, "Icon"),
        (StandardKey::Hidden, "Hidden"),
        (StandardKey::OnlyShowIn, "OnlyShowIn"),
        (StandardKey::NotShowIn, "NotShowIn"),
        (StandardKey::DbusActivatable, "DBusActivatable"),
        (StandardKey::TryExec, "TryExec"),
        (StandardKey::Exec, "Exec"),
        (StandardKey::Path, "Path"),
        (StandardKey::Terminal, "Terminal"),
        (StandardKey::Actions, "Actions"),
        (StandardKey::MimeType, "MimeType"),
        (StandardKey::Categories, "Categories"),
        (StandardKey::Implements, "Implements"),
        (StandardKey::Keywords, "Keywords"),
        (StandardKey::StartupNotify, "StartupNotify"),
        (StandardKey::StartupWmClass, "StartupWMClass"),
        (StandardKey::Url, "URL"),
    ];
    for (key, name) in names {
        assert_eq!(key.key_name(), name);
    }
    assert_eq!(StandardKey::Name, StandardKey::Name);
    assert_ne!(StandardKey::Name, StandardKey::GenericName);
}

#[test]
fn the_parts_of_a_locale() {
    let locale = parse_locale("sr.UTF-8@latin").unwrap();
    assert_eq!(locale.lang(), "sr");
    assert_eq!(locale.country(), None);
    assert_eq!(locale.modifier(), Some("latin"));

    let locale = Locale::from_string("de_DE.ISO-8859-15@euro").unwrap();
    assert_eq!(locale.lang(), "de");
    assert_eq!(locale.country(), Some("DE"));
    assert_eq!(locale.modifier(), Some("euro"));

    let locale = Locale::new("x", Some("Y"), None);
    assert_eq!(locale.lang(), "x");
    assert_eq!(locale.country(), Some("Y"));
    assert_eq!(locale.modifier(), None);

    assert_eq!(parse_locale("en-US"), None);
    assert_eq!(parse_locale(""), None);
    assert_eq!(Locale::from_string("en-US"), None);
}

#[test]
fn texts_that_are_no_locale() {
    for text in [
        "", "_DE", "@x", ".UTF-8", "de_", "de_DE_AT", "de_1", "de.", "de@", "de@a@b", "de.a@",
        "de@x.UTF-8@y", "d e", "dé", "de\n", "de_DE ", "1",
    ] {
        assert_eq!(parse_locale(text), None, "{:?}", text);
    }
    assert_eq!(parse_locale("de@x.UTF-8"), Some(Locale::new("de", None, Some("x.UTF-8"))));
    assert_eq!(parse_locale("de.a.b_c"), Some(Locale::new("de", None, None)));
    assert_eq!(parse_locale("de@é"), Some(Locale::new("de", None, Some("é"))));
}

#[test]
fn locales_are_equal_when_all_parts_are() {
    assert_eq!(
        Locale::new("de", Some("DE"), Some("euro")),
        Locale::new("de", Some("DE"), Some("euro"))
    );
    assert_ne!(Locale::new("de", Some("DE"), None), Locale::new("de", None, None));
    assert_ne!(Locale::new("de", Some("DE"), None), Locale::new("de", Some("de"), None));
    assert_ne!(Locale::new("de", None, Some("x")), Locale::new("de", None, None));
    assert_ne!(Locale::new("de", None, None), Locale::new("DE", None, None));
    assert_ne!(Locale::new("de", Some("x"), None), Locale::new("de", None, Some("x")));
}

#[test]
fn the_setting_for_messages_counts_before_the_one_for_all() {
    assert_eq!(Locale::from_env(Some("de_DE"), Some("en_US")), parse_locale("de_DE"));
    assert_eq!(Locale::from_env(None, Some("en_US")), parse_locale("en_US"));
    assert_eq!(Locale::from_env(Some("de_DE"), None), parse_locale("de_DE"));
    assert_eq!(Locale::from_env(None, None), None);
    assert_eq!(Locale::from_env(Some("not a locale"), Some("en_US")), None);
    assert_eq!(Locale::from_env(Some(""), Some("en_US")), None);
    assert_eq!(Locale::from_env(None, Some("en-US")), None);
}
