use xdg_desktop_entry::parser::{
    comment, entries, entry, group_header, parse_desktop_entry, NoMatch,
};
use xdg_desktop_entry::tables::{Entries, Groups};

fn groups_of<'a>(list: Vec<(&'a str, Vec<(&'a str, &'a str)>)>) -> Groups<'a> {
    let mut groups = Groups::new();
    for (name, pairs) in list {
        groups.insert(name, Entries::from_pairs(&pairs));
    }
    groups
}

#[test]
fn test_parse_comment() {
    assert_eq!(Ok(("Y", " abc")), comment("# abc\nY"));
    assert_eq!(Ok(("Y", " abc def ## []")), comment("# abc def ## []\nY"));
    assert_eq!(Ok(("Y", "## abc ###   ")), comment("### abc ###   \nY"));
    assert_eq!(Ok(("Y", "## abc ###   ")), comment("### abc ###   \nY"));

    assert_eq!(comment("  \nY"), Err(NoMatch::Declined));
    assert!(matches!(comment("  #\nY".into()), Err(NoMatch::Declined)));
    assert!(matches!(comment("[#abc]\nY".into()), Err(NoMatch::Declined)));
}

#[test]
fn test_parse_group_header() {
    assert_eq!(Ok(("Y", "a")), group_header("[a]\nY"));
    assert_eq!(Ok(("Y", "abc def")), group_header("[abc def]\nY"));

    assert!(matches!(group_header(" [a]\nY"), Err(NoMatch::Declined)));
    assert!(matches!(group_header("[\nY"), Err(NoMatch::Broken(_))));
    assert!(matches!(group_header("[a\nY"), Err(NoMatch::Broken(_))));
    assert!(matches!(group_header("[abc]def\nY"), Err(NoMatch::Broken(_))));
}

#[test]
fn test_parse_entry() {
    assert_eq!(Ok(("Y", ("abc", "def"))), entry("abc=def\nY"));

    // blanks before and after `=` are dropped
    assert_eq!(Ok(("Y", ("abc", "def"))), entry("abc   = def\nY"));
    assert_eq!(Ok(("Y", ("abc", ""))), entry("abc =\nY"));
    assert_eq!(Ok(("Y", ("abc", "def  "))), entry("abc =  def  \nY"));

    // key
    assert_eq!(Ok(("Y", ("-a-b-c-", "def"))), entry("-a-b-c-=def\nY"));
    assert_eq!(Ok(("Y", ("ABC", "def"))), entry("ABC=def\nY"));
    assert!(matches!(entry("a b=\nY"), Err(NoMatch::Declined)));
    assert!(matches!(entry("[a=b]\nY"), Err(NoMatch::Declined)));

    // empty key
    assert_eq!(Ok(("Y", ("", "def"))), entry("=def\nY"));
    assert_eq!(Ok(("Y", ("", ""))), entry("=\nY"));
    assert_eq!(Ok(("Y", ("", ""))), entry("  =   \nY"));
}

#[test]
fn test_parse_entries() {
    assert_eq!(
        Ok(("[group]\n", Entries::from_pairs(&[("abc", "def"), ("def", "abc")]))),
        entries("abc=def\ndef=abc\n\n[group]\n")
    );

    // blank lines
    assert_eq!(
        Ok(("[group]\n", Entries::from_pairs(&[("abc", "def"), ("def", "abc")]))),
        entries("abc=def\n\n\t\t\ndef=abc\n\n[group]\n")
    );

    // comments
    assert_eq!(
        Ok(("[group]\n", Entries::from_pairs(&[("abc", "def"), ("def", "abc")]))),
        entries("abc=def\n# this is a comment\ndef=abc\n\n[group]\n")
    );
}

#[test]
fn test_parse_desktop_entry_comments() {
    assert_eq!(
        Ok(groups_of(vec![
            ("Desktop Entry", vec![("Version", "1.0")]),
            ("Desktop Action Gallery", vec![("Exec", "fooview --gallery")]),
        ])),
        parse_desktop_entry(
            "\n# Copyright by\n#          Dr. Who\n\n[Desktop Entry]\n\n# app version\n\n\
             Version=1.0\n\n## Actions\n\n[Desktop Action Gallery]\nExec=fooview --gallery\n\n\
             # Last Line"
        )
    );
}

#[test]
fn test_parse_desktop_entry_non_empty_last_line() {
    assert_eq!(
        Ok(groups_of(vec![("Desktop Entry", vec![("Version", "1.0")])])),
        parse_desktop_entry("[Desktop Entry]\nVersion=1.0")
    );

    assert_eq!(
        Ok(groups_of(vec![("Desktop Entry", vec![])])),
        parse_desktop_entry("[Desktop Entry]")
    );
}

#[test]
fn test_parse_desktop_entry_spec_example() {
    assert_eq!(
        Ok(groups_of(vec![
            (
                "Desktop Entry",
                vec![
                    ("Version", "1.0"),
                    ("Type", "Application"),
                    ("Name", "Foo Viewer"),
                    ("Comment", "The best viewer for Foo objects available!"),
                    ("TryExec", "fooview"),
                    ("Exec", "fooview %F"),
                    ("Icon", "fooview"),
                    ("MimeType", "image/x-foo;"),
                    ("Actions", "Gallery;Create;"),
                ]
            ),
            (
                "Desktop Action Gallery",
                vec![("Exec", "fooview --gallery"), ("Name", "Browse Gallery")]
            ),
            (
                "Desktop Action Create",
                vec![
                    ("Exec", "fooview --create-new"),
                    ("Name", "Create a new Foo!"),
                    ("Icon", "fooview-new"),
                ]
            ),
        ])),
        parse_desktop_entry(
            "[Desktop Entry]\n\
             Version=1.0\n\
             Type=Application\n\
             Name=Foo Viewer\n\
             Comment=The best viewer for Foo objects available!\n\
             TryExec=fooview\n\
             Exec=fooview %F\n\
             Icon=fooview\n\
             MimeType=image/x-foo;\n\
             Actions=Gallery;Create;\n\
             \n\
             [Desktop Action Gallery]\n\
             Exec=fooview --gallery\n\
             Name=Browse Gallery\n\
             \n\
             [Desktop Action Create]\n\
             Exec=fooview --create-new\n\
             Name=Create a new Foo!\n\
             Icon=fooview-new\n"
        )
    );
}
