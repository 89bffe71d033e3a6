//! Where desktop entry files are looked for.

use xdg_desktop_entry::discover::{
    get_data_dirs, has_desktop_extension, search_dirs, split_path_list, visit, FileKind, Visit,
};
use xdg_desktop_entry::text::{append_bytes, same_bytes, ByteClass};

fn list(dirs: &[&str]) -> Vec<Vec<u8>> {
    dirs.iter().map(|dir| dir.as_bytes().to_vec()).collect()
}

#[test]
fn a_path_list_is_parted_at_its_colons() {
    assert_eq!(split_path_list(b"/a:/b/c:/d"), list(&["/a", "/b/c", "/d"]));
    assert_eq!(split_path_list(b"/a"), list(&["/a"]));
    assert_eq!(split_path_list(b""), list(&[""]));
    assert_eq!(split_path_list(b":"), list(&["", ""]));
    assert_eq!(split_path_list(b"/a::/b:"), list(&["/a", "", "/b", ""]));
    assert_eq!(split_path_list(b"/a b:/c;d"), list(&["/a b", "/c;d"]));
}

#[test]
fn the_default_data_dirs_stand_in_for_none() {
    assert_eq!(get_data_dirs(None), list(&["/usr/local/share", "/usr/share"]));
    assert_eq!(get_data_dirs(Some(b"")), list(&["/usr/local/share", "/usr/share"]));
    assert_eq!(get_data_dirs(Some(b"/opt/share")), list(&["/opt/share"]));
    assert_eq!(get_data_dirs(Some(b"/opt/share:/usr/share")), list(&["/opt/share", "/usr/share"]));
    assert_eq!(get_data_dirs(Some(b":")), list(&["", ""]));
}

#[test]
fn the_users_own_directory_is_searched_last() {
    assert_eq!(
        search_dirs(Some(b"/a:/b"), Some(b"/home/u/.local/share")),
        list(&["/a", "/b", "/home/u/.local/share"])
    );
    assert_eq!(search_dirs(Some(b"/a:/b"), None), list(&["/a", "/b"]));
    assert_eq!(
        search_dirs(None, Some(b"/home/u/.local/share")),
        list(&["/usr/local/share", "/usr/share", "/home/u/.local/share"])
    );
    assert_eq!(search_dirs(None, None), list(&["/usr/local/share", "/usr/share"]));
}

#[test]
fn desktop_files_are_known_by_their_extension() {
    assert!(has_desktop_extension(b"foo.desktop"));
    assert!(has_desktop_extension(b"org.example.Foo.desktop"));
    assert!(has_desktop_extension(b"..desktop"));
    assert!(has_desktop_extension(b" .desktop"));
    assert!(!has_desktop_extension(b".desktop"));
    assert!(!has_desktop_extension(b"desktop"));
    assert!(!has_desktop_extension(b""));
    assert!(!has_desktop_extension(b"foo.desktop.bak"));
    assert!(!has_desktop_extension(b"foo.Desktop"));
    assert!(!has_desktop_extension(b"foo.desktop."));
    assert!(!has_desktop_extension(b"foodesktop"));
}

#[test]
fn links_are_not_followed_and_directories_are_walked() {
    assert_eq!(visit(FileKind::Symlink, b"foo.desktop"), Visit::Skip);
    assert_eq!(visit(FileKind::Symlink, b"dir"), Visit::Skip);
    assert_eq!(visit(FileKind::Directory, b"dir"), Visit::Descend);
    assert_eq!(visit(FileKind::Directory, b"dir.desktop"), Visit::Descend);
    assert_eq!(visit(FileKind::Other, b"foo.desktop"), Visit::Collect);
    assert_eq!(visit(FileKind::Other, b"foo.txt"), Visit::Skip);
    assert_eq!(visit(FileKind::Other, b".desktop"), Visit::Skip);
}

#[test]
fn classes_of_bytes() {
    for b in 0..=255u8 {
        let c = b as char;
        assert_eq!(ByteClass::Blank.test(b), c == ' ' || c == '\t');
        assert_eq!(ByteClass::Letter.test(b), c.is_ascii_alphabetic());
        assert_eq!(ByteClass::KeyByte.test(b), c.is_ascii_alphanumeric() || c == '-');
        assert_eq!(ByteClass::Except(b'\n').test(b), c != '\n');
        assert_eq!(ByteClass::Except(b).test(b), false);
    }
}

#[test]
fn bytes_are_compared_and_appended() {
    assert!(same_bytes(b"", b""));
    assert!(same_bytes(b"abc", b"abc"));
    assert!(!same_bytes(b"abc", b"abd"));
    assert!(!same_bytes(b"abc", b"ab"));
    assert!(!same_bytes(b"", b"a"));

    let mut bytes = b"Name".to_vec();
    append_bytes(&mut bytes, b"[de]");
    append_bytes(&mut bytes, b"");
    assert_eq!(bytes, b"Name[de]");
}
