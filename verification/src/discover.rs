//! Where desktop entry files are looked for, and which files of a
//! directory tree count as desktop entry files.
//!
//! Nothing here touches the environment or the file system: a caller hands
//! in what it has read there, as bytes, and walks the directories itself.

use vstd::prelude::*;
use vstd::slice::slice_subrange;
use crate::text::{
    bytes_of, lemma_run_end, lemma_run_end_is, run_end, same_bytes, scan, ByteClass,
};

verus! {

/// `:`, which parts the directories of a path list.
pub const COLON: u8 = 0x3a;

/// The directories of a colon-separated path list, in its order. Between
/// two colons, before the first and behind the last there is a directory,
/// if only one with an empty name.
pub open spec fn split_paths(list: Seq<u8>) -> Seq<Seq<u8>>
    decreases list.len(),
{
    let end = run_end(list, 0, ByteClass::Except(COLON));
    if 0 <= end < list.len() {
        seq![list.take(end)] + split_paths(list.skip(end + 1))
    } else {
        seq![list]
    }
}

/// The data directories that are searched where `XDG_DATA_DIRS` is not set
/// or empty.
pub open spec fn default_data_dirs() -> Seq<Seq<u8>> {
    seq![bytes_of("/usr/local/share"), bytes_of("/usr/share")]
}

/// The data directories for a value of `XDG_DATA_DIRS`: the directories of
/// the list, or the default ones where the variable is not set or empty.
pub open spec fn data_dirs_for(value: Option<Seq<u8>>) -> Seq<Seq<u8>> {
    match value {
        Some(list) => if list.len() > 0 {
            split_paths(list)
        } else {
            default_data_dirs()
        },
        None => default_data_dirs(),
    }
}

/// The directories that are searched for application desktop files, by a
/// value of `XDG_DATA_DIRS` and the user's own data directory: the data
/// directories first, the user's own last, if there is one.
pub open spec fn search_dirs_for(value: Option<Seq<u8>>, data_home: Option<Seq<u8>>) -> Seq<
    Seq<u8>,
> {
    match data_home {
        Some(home) => data_dirs_for(value).push(home),
        None => data_dirs_for(value),
    }
}

/// The bytes of each slice of a list.
pub open spec fn each_slice(list: Seq<&[u8]>) -> Seq<Seq<u8>> {
    Seq::new(list.len(), |i: int| list[i]@)
}

/// The bytes of an optional slice.
pub open spec fn opt_slice(s: Option<&[u8]>) -> Option<Seq<u8>> {
    match s {
        Some(s) => Some(s@),
        None => None,
    }
}

/// Splits a colon-separated path list into its directories.
pub fn split_path_list<'a>(list: &'a [u8]) -> (r: Vec<&'a [u8]>)
    ensures
        each_slice(r@) == split_paths(list@),
{
    let mut r: Vec<&'a [u8]> = Vec::new();
    let mut from: usize = 0;
    assert(list@.skip(0) =~= list@);
    assert(each_slice(r@) + split_paths(list@) =~= split_paths(list@));
    loop
        invariant
            from <= list@.len(),
            split_paths(list@) == each_slice(r@) + split_paths(list@.skip(from as int)),
        decreases list@.len() - from,
    {
        let end = scan(list, from, ByteClass::Except(COLON));
        let piece = slice_subrange(list, from, end);
        let ghost left = list@.skip(from as int);
        let ghost before = each_slice(r@);
        proof {
            lemma_run_shifts(list@, from as int, ByteClass::Except(COLON));
            assert(left.take(end - from) =~= piece@);
        }
        r.push(piece);
        assert(each_slice(r@) =~= before.push(piece@));
        if end == list.len() {
            assert(left =~= piece@);
            assert(before + seq![left] =~= each_slice(r@));
            return r;
        }
        proof {
            assert(left.skip(end - from + 1) =~= list@.skip(end + 1));
            assert(before + (seq![piece@] + split_paths(list@.skip(end + 1))) =~= each_slice(r@)
                + split_paths(list@.skip(end + 1)));
        }
        from = end + 1;
    }
}

/// A run in the text behind an offset ends where the run from that offset
/// ends in the whole text.
pub proof fn lemma_run_shifts(t: Seq<u8>, from: int, class: ByteClass)
    requires
        0 <= from <= t.len(),
    ensures
        run_end(t.skip(from), 0, class) == run_end(t, from, class) - from,
{
    lemma_run_end(t, from, class);
    let end = run_end(t, from, class);
    let left = t.skip(from);
    assert forall|i: int| 0 <= i < end - from implies class.holds(#[trigger] left[i]) by {
        assert(left[i] == t[from + i]);
    }
    if end < t.len() {
        assert(left[end - from] == t[end]);
    }
    lemma_run_end_is(left, 0, class, end - from);
}

/// The data directories for a value of `XDG_DATA_DIRS`.
pub fn get_data_dirs<'a>(value: Option<&'a [u8]>) -> (r: Vec<&'a [u8]>)
    ensures
        each_slice(r@) == data_dirs_for(opt_slice(value)),
{
    if let Some(list) = value {
        if list.len() > 0 {
            return split_path_list(list);
        }
    }
    let mut r: Vec<&'a [u8]> = Vec::new();
    r.push("/usr/local/share".as_bytes());
    r.push("/usr/share".as_bytes());
    assert(each_slice(r@) =~= default_data_dirs());
    r
}

/// The directories that are searched for application desktop files.
pub fn search_dirs<'a>(value: Option<&'a [u8]>, data_home: Option<&'a [u8]>) -> (r: Vec<&'a [u8]>)
    ensures
        each_slice(r@) == search_dirs_for(opt_slice(value), opt_slice(data_home)),
{
    let mut r = get_data_dirs(value);
    if let Some(home) = data_home {
        let ghost before = each_slice(r@);
        r.push(home);
        assert(each_slice(r@) =~= before.push(home@));
    }
    r
}

/// What an entry of a directory is.
#[derive(Clone, Copy, Debug, PartialEq, Eq)]
pub enum FileKind {
    /// A symbolic link, whatever it points to.
    Symlink,
    /// A directory.
    Directory,
    /// Anything else.
    Other,
}

/// What a walk over a directory tree does with an entry.
#[derive(Clone, Copy, Debug, PartialEq, Eq)]
pub enum Visit {
    /// Pass over the entry.
    Skip,
    /// Walk the entries of this directory too.
    Descend,
    /// Take the entry as a desktop entry file.
    Collect,
}

/// Whether a file name is a name, a dot and `desktop`.
pub open spec fn is_desktop_file_name(name: Seq<u8>) -> bool {
    name.len() > bytes_of(".desktop").len() && name.skip(name.len() - bytes_of(".desktop").len())
        == bytes_of(".desktop")
}

/// What a walk does with an entry of the given kind and file name:
/// symbolic links are not followed, directories are walked, and of the
/// other entries those with the extension `desktop` are taken.
pub open spec fn visit_for(kind: FileKind, name: Seq<u8>) -> Visit {
    match kind {
        FileKind::Symlink => Visit::Skip,
        FileKind::Directory => Visit::Descend,
        FileKind::Other => if is_desktop_file_name(name) {
            Visit::Collect
        } else {
            Visit::Skip
        },
    }
}

/// Whether a file name has the extension `desktop`.
pub fn has_desktop_extension(name: &[u8]) -> (r: bool)
    ensures
        r == is_desktop_file_name(name@),
{
    let extension = ".desktop".as_bytes();
    if name.len() <= extension.len() {
        return false;
    }
    let end = slice_subrange(name, name.len() - extension.len(), name.len());
    same_bytes(end, extension)
}

/// What a walk does with an entry of the given kind and file name.
pub fn visit(kind: FileKind, name: &[u8]) -> (r: Visit)
    ensures
        r == visit_for(kind, name@),
{
    match kind {
        FileKind::Symlink => Visit::Skip,
        FileKind::Directory => Visit::Descend,
        FileKind::Other => if has_desktop_extension(name) {
            Visit::Collect
        } else {
            Visit::Skip
        },
    }
}

} // verus!
