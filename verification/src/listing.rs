//! The directory-listing command: validation of the queried path, the
//! skip-and-continue policy for children that could not be read, derivation
//! of each child's record, and the deterministic ordering of the result.

use vstd::prelude::*;
use vstd::string::StringExecFns;
use crate::entry::{FileEntry, FileEntryView, RawEntry, RawEntryView, joined, make_entry};
use crate::sort::{
    views_of, ordered_entries, sorted_entries, sort_entries, lemma_ordered_entries_sorted,
    lemma_ordered_entries_permutes, lemma_ordered_entries_stable, lemma_sorted_entries_grouped,
};
use crate::order::{entry_tied, lex_lt, lower_of};
use vstd::seq_lib::group_to_multiset_ensures;

verus! {

/// Why a filesystem command failed.
#[derive(Debug)]
pub enum FsError {
    /// The queried path names no filesystem node.
    NotFound,
    /// The queried path names a node that is not a directory.
    NotADirectory,
    /// The underlying read failed; the field carries the reported message.
    ReadFailed(String),
}

/// The message shown for a failed directory listing.
pub open spec fn directory_message_of(e: FsError) -> Seq<char> {
    match e {
        FsError::NotFound => "Directory does not exist"@,
        FsError::NotADirectory => "Path is not a directory"@,
        FsError::ReadFailed(m) => "Failed to read directory: "@ + m@,
    }
}

impl FsError {
    /// Renders the error of a directory listing as its human-readable text.
    pub fn directory_message(&self) -> (r: String)
        ensures
            r@ == directory_message_of(*self),
    {
        match self {
            FsError::NotFound => "Directory does not exist".to_owned(),
            FsError::NotADirectory => "Path is not a directory".to_owned(),
            FsError::ReadFailed(m) => "Failed to read directory: ".to_owned().concat(m.as_str()),
        }
    }

    /// Renders the error of a file read as its human-readable text.
    pub fn file_message(&self) -> (r: String)
        requires
            self is ReadFailed,
        ensures
            r@ == "Failed to read file: "@ + self->ReadFailed_0@,
    {
        match self {
            FsError::ReadFailed(m) => "Failed to read file: ".to_owned().concat(m.as_str()),
            _ => "Failed to read file: ".to_owned(),
        }
    }
}

/// The views of a sequence of raw children.
pub open spec fn raw_views(s: Seq<RawEntry>) -> Seq<RawEntryView> {
    s.map_values(|r: RawEntry| r@)
}

/// The children that were read successfully, in their reported order; the
/// ones whose read failed are skipped.
pub open spec fn readable_views(reads: Seq<Result<RawEntry, String>>) -> Seq<RawEntryView>
    decreases reads.len(),
{
    if reads.len() == 0 {
        Seq::empty()
    } else {
        let front = readable_views(reads.drop_last());
        match reads.last() {
            Ok(r) => front + seq![r@],
            Err(_) => front,
        }
    }
}

/// The listing record derived for one child of `dir`.
pub open spec fn entry_of(dir: Seq<char>, raw: RawEntryView) -> FileEntryView {
    FileEntryView { name: raw.name, path: joined(dir, raw.name), is_directory: raw.is_directory }
}

/// The listing records derived for all children of `dir`, in reported order.
pub open spec fn entries_of(dir: Seq<char>, raws: Seq<RawEntryView>) -> Seq<FileEntryView> {
    raws.map_values(|r: RawEntryView| entry_of(dir, r))
}

/// The full listing of `dir` given its readable children: each child's
/// record, stably ordered under the listing order.
pub open spec fn listing_of(dir: Seq<char>, raws: Seq<RawEntryView>) -> Seq<FileEntryView> {
    ordered_entries(entries_of(dir, raws))
}

/// Keeps the children that were read successfully, skipping failed ones.
pub fn collect_readable(reads: &Vec<Result<RawEntry, String>>) -> (r: Vec<RawEntry>)
    ensures
        raw_views(r@) == readable_views(reads@),
{
    let mut out: Vec<RawEntry> = Vec::new();
    let mut i: usize = 0;
    proof {
        assert(reads@.take(0) =~= Seq::<Result<RawEntry, String>>::empty());
        assert(raw_views(out@) =~= readable_views(reads@.take(0)));
    }
    while i < reads.len()
        invariant
            i <= reads@.len(),
            raw_views(out@) == readable_views(reads@.take(i as int)),
        decreases reads@.len() - i,
    {
        proof {
            assert(reads@.take(i + 1).drop_last() =~= reads@.take(i as int));
            assert(reads@.take(i + 1).last() == reads@[i as int]);
        }
        match &reads[i] {
            Ok(r) => {
                let copied = RawEntry { name: r.name.clone(), is_directory: r.is_directory };
                out.push(copied);
                proof {
                    assert(raw_views(out@) =~= readable_views(reads@.take(i as int)) + seq![
                        reads@[i as int]->Ok_0@,
                    ]);
                }
            },
            Err(_) => {},
        }
        i = i + 1;
    }
    proof {
        assert(reads@.take(reads@.len() as int) =~= reads@);
    }
    out
}

/// Derives the listing record of every raw child of `dir`, in order.
pub fn build_entries(dir: &str, raws: &Vec<RawEntry>) -> (r: Vec<FileEntry>)
    ensures
        views_of(r@) == entries_of(dir@, raw_views(raws@)),
{
    let mut out: Vec<FileEntry> = Vec::new();
    let mut i: usize = 0;
    proof {
        assert(views_of(out@) =~= entries_of(dir@, raw_views(raws@.take(0))));
    }
    while i < raws.len()
        invariant
            i <= raws@.len(),
            views_of(out@) == entries_of(dir@, raw_views(raws@.take(i as int))),
        decreases raws@.len() - i,
    {
        let ghost prev = out@;
        let e = make_entry(dir, raws[i].name.clone(), raws[i].is_directory);
        out.push(e);
        proof {
            let lhs = views_of(out@);
            let rhs = entries_of(dir@, raw_views(raws@.take(i + 1)));
            assert(views_of(prev).len() == prev.len());
            assert(entries_of(dir@, raw_views(raws@.take(i as int))).len() == i as int);
            assert(prev.len() == i as int);
            assert(out@ == prev.push(e));
            assert forall|j: int| 0 <= j < lhs.len() implies lhs[j] == rhs[j] by {
                assert(lhs[j] == out@[j]@);
                assert(rhs[j] == entry_of(dir@, raw_views(raws@.take(i + 1))[j]));
                assert(raw_views(raws@.take(i + 1))[j] == raws@.take(i + 1)[j]@);
                assert(raws@.take(i + 1)[j] == raws@[j]);
                if j < i {
                    assert(out@[j] == prev[j]);
                    assert(views_of(prev)[j] == prev[j]@);
                    assert(views_of(prev)[j] == entries_of(
                        dir@,
                        raw_views(raws@.take(i as int)),
                    )[j]);
                    assert(entries_of(dir@, raw_views(raws@.take(i as int)))[j] == entry_of(
                        dir@,
                        raw_views(raws@.take(i as int))[j],
                    ));
                    assert(raw_views(raws@.take(i as int))[j] == raws@.take(i as int)[j]@);
                    assert(raws@.take(i as int)[j] == raws@[j]);
                } else {
                    assert(out@[j] == e);
                }
            }
            assert(lhs =~= rhs);
        }
        i = i + 1;
    }
    proof {
        assert(raws@.take(raws@.len() as int) =~= raws@);
    }
    out
}

/// The directory-listing command, over what the filesystem reported:
/// whether the path exists, whether it is a directory, and — where both
/// held and enumeration was attempted — the outcome per child or the
/// message of a whole-read failure.  Validation is checked in this order,
/// unreadable children are skipped, and the surviving children are returned
/// as ordered listing records.
pub fn read_directory(
    dir_path: &str,
    path_exists: bool,
    path_is_dir: bool,
    raw_reads: Result<Vec<Result<RawEntry, String>>, String>,
) -> (r: Result<Vec<FileEntry>, FsError>)
    ensures
        !path_exists ==> (r matches Err(e) && e is NotFound),
        path_exists && !path_is_dir ==> (r matches Err(e) && e is NotADirectory),
        path_exists && path_is_dir && raw_reads is Err ==> (r matches Err(e)
            && e matches FsError::ReadFailed(got) && got@ == raw_reads->Err_0@),
        path_exists && path_is_dir && raw_reads is Ok ==> (r matches Ok(out) && views_of(out@)
            == listing_of(dir_path@, readable_views(raw_reads->Ok_0@))),
{
    if !path_exists {
        Err(FsError::NotFound)
    } else if !path_is_dir {
        Err(FsError::NotADirectory)
    } else {
        match raw_reads {
            Err(m) => Err(FsError::ReadFailed(m)),
            Ok(reads) => {
                let raws = collect_readable(&reads);
                let entries = build_entries(dir_path, &raws);
                Ok(sort_entries(entries))
            },
        }
    }
}

/// A listing is ordered: every directory precedes every file, and entries of
/// the same classification come in ascending order of their case-folded
/// names.
pub proof fn lemma_listing_ordered(dir: Seq<char>, raws: Seq<RawEntryView>)
    ensures
        sorted_entries(listing_of(dir, raws)),
        forall|i: int, j: int|
            0 <= i < j < listing_of(dir, raws).len() && listing_of(dir, raws)[j].is_directory
                ==> listing_of(dir, raws)[i].is_directory,
        forall|i: int, j: int|
            0 <= i < j < listing_of(dir, raws).len() && listing_of(dir, raws)[i].is_directory
                == listing_of(dir, raws)[j].is_directory ==> !lex_lt(
                lower_of(listing_of(dir, raws)[j].name),
                lower_of(listing_of(dir, raws)[i].name),
            ),
{
    lemma_ordered_entries_sorted(entries_of(dir, raws));
    lemma_sorted_entries_grouped(listing_of(dir, raws));
}

/// A listing holds exactly the records derived from the readable children:
/// ordering drops nothing, adds nothing, and repeats nothing.
pub proof fn lemma_listing_complete(dir: Seq<char>, raws: Seq<RawEntryView>)
    ensures
        listing_of(dir, raws).to_multiset() =~= entries_of(dir, raws).to_multiset(),
{
    lemma_ordered_entries_permutes(entries_of(dir, raws));
}

/// A listing is stable: for any reference entry `k`, the entries the
/// listing order ties with `k` — same classification, equal case-folded
/// name — appear in the listing exactly in the order their children were
/// reported.
pub proof fn lemma_listing_stable(dir: Seq<char>, raws: Seq<RawEntryView>, k: FileEntryView)
    ensures
        listing_of(dir, raws).filter(|e: FileEntryView| entry_tied(e, k)) == entries_of(
            dir,
            raws,
        ).filter(|e: FileEntryView| entry_tied(e, k)),
{
    lemma_ordered_entries_stable(entries_of(dir, raws), k);
}

/// Every entry of a listing of `dir` carries as its path `dir` joined with
/// the entry's own name.
pub proof fn lemma_listing_paths(dir: Seq<char>, raws: Seq<RawEntryView>)
    ensures
        forall|i: int|
            0 <= i < listing_of(dir, raws).len() ==> listing_of(dir, raws)[i].path == joined(
                dir,
                listing_of(dir, raws)[i].name,
            ),
{
    broadcast use group_to_multiset_ensures;

    let base = entries_of(dir, raws);
    let out = listing_of(dir, raws);
    lemma_ordered_entries_permutes(base);
    assert forall|i: int|
        0 <= i < out.len() implies out[i].path == joined(dir, out[i].name) by {
        assert(out.contains(out[i]));
        assert(out.to_multiset().count(out[i]) > 0);
        assert(base.to_multiset().count(out[i]) > 0);
        assert(base.contains(out[i]));
        let k = choose|k: int| 0 <= k < base.len() && base[k] == out[i];
        assert(base[k] == entry_of(dir, raws[k]));
    }
}

} // verus!
