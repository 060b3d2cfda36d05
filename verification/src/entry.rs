//! The data model of a listing: one record per filesystem child, carrying the
//! child's final name segment, its full path, and its classification.

use vstd::prelude::*;
use vstd::string::StringExecFns;
use vstd::string::StrSliceExecFns;

verus! {

/// One filesystem child discovered during a listing.
#[derive(Clone)]
pub struct FileEntry {
    /// Final path segment, verbatim from the directory entry.
    pub name: String,
    /// Full path: the listed directory joined with `name`.
    pub path: String,
    /// Classification at the moment the child was examined.
    pub is_directory: bool,
}

/// Mathematical content of a `FileEntry`.
pub ghost struct FileEntryView {
    pub name: Seq<char>,
    pub path: Seq<char>,
    pub is_directory: bool,
}

impl View for FileEntry {
    type V = FileEntryView;

    open spec fn view(&self) -> FileEntryView {
        FileEntryView { name: self.name@, path: self.path@, is_directory: self.is_directory }
    }
}

/// What the surrounding application hands over for one child it managed to
/// read: the child's name and whether a fresh query classified it as a
/// directory.  The full path is derived here, not taken on trust.
#[derive(Clone)]
pub struct RawEntry {
    pub name: String,
    pub is_directory: bool,
}

/// Mathematical content of a `RawEntry`.
pub ghost struct RawEntryView {
    pub name: Seq<char>,
    pub is_directory: bool,
}

impl View for RawEntry {
    type V = RawEntryView;

    open spec fn view(&self) -> RawEntryView {
        RawEntryView { name: self.name@, is_directory: self.is_directory }
    }
}

/// A directory path joined with a child name: a separator is inserted unless
/// the directory already ends with one or is empty.
pub open spec fn joined(dir: Seq<char>, name: Seq<char>) -> Seq<char> {
    if dir.len() == 0 {
        name
    } else if dir[dir.len() - 1] == '/' {
        dir + name
    } else {
        dir + "/"@ + name
    }
}

/// Joins a directory path with a child name, as `joined` describes.
pub fn join_path(dir: &str, name: &str) -> (r: String)
    ensures
        r@ == joined(dir@, name@),
{
    let n: usize = dir.unicode_len();
    if n == 0 {
        name.to_owned()
    } else if dir.get_char(n - 1) == '/' {
        dir.to_owned().concat(name)
    } else {
        dir.to_owned().concat("/").concat(name)
    }
}

/// The listing record for a child of `dir` named `name`: the full path is
/// `dir` joined with `name`, the name and classification are kept as given.
pub fn make_entry(dir: &str, name: String, is_directory: bool) -> (e: FileEntry)
    ensures
        e@ == (FileEntryView { name: name@, path: joined(dir@, name@), is_directory }),
{
    let path: String = join_path(dir, name.as_str());
    FileEntry { name, path, is_directory }
}

} // verus!
