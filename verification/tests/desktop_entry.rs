use xdg_desktop_entry::{DesktopEntry, Locale, StandardKey};

#[test]
fn test_raw_access() {
    let entry = DesktopEntry::from_group_values(vec![("Desktop Entry", vec![("Name", "Test")])]);

    assert_eq!(entry.get("Name"), Some("Test"));
    assert_eq!(entry.get("Exec"), None);
    assert_eq!(entry.keys(), vec!["Name"]);
    assert_eq!(entry.get_key(StandardKey::Name), Some("Test"));
}

#[test]
fn test_local_access_all() {
    let locale = Locale::from_string("de_DE");
    let entry = DesktopEntry::from_group_values(vec![(
        "Desktop Entry",
        vec![
            ("Name[en]", "App"),
            ("Name[de]", "Anw"),
            ("Name[de_DE]", "Anwend"),
            ("Name[de_DE@nord]", "Anwendung"),
        ],
    )]);

    assert_eq!(entry.localized_get("Name", &locale), Some("Anwend"));
}

#[test]
fn test_local_access_inaccurate() {
    let locale = Locale::from_string("de_DE");
    let entry = DesktopEntry::from_group_values(vec![(
        "Desktop Entry",
        vec![("Name", "App"), ("Name[de]", "Anw")],
    )]);

    assert_eq!(entry.localized_get("Name", &locale), Some("Anw"));
}

#[test]
fn test_local_access_no() {
    let locale = Locale::from_string("de_DE");
    let entry = DesktopEntry::from_group_values(vec![("Desktop Entry", vec![("Name", "App")])]);

    assert_eq!(entry.localized_get("Name", &locale), Some("App"));
}
