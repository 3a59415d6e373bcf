//! The policy of the directory walk: what becomes of each entry of a
//! directory once its kind and its metadata are known.

use vstd::prelude::*;
use crate::model::{copy_bytes, records, File, FileRecord, Timestamp};
use crate::snapshot::{has_path, insert, is_snapshot, lemma_contained_has_path};

verus! {

/// What a fetch of a file's metadata gave.
#[derive(Clone, Copy, Debug, PartialEq, Eq, Structural)]
pub enum Metadata {
    /// The fetch failed: the entry is gone, or may not be read.
    Unreadable,
    /// The metadata came, but this platform reports no modification time.
    NoModTime,
    /// The metadata came, with the time of the last modification.
    Modified(Timestamp),
}

/// What kind of thing a directory entry is.
#[derive(Clone, Copy, Debug, PartialEq, Eq, Structural)]
pub enum EntryKind {
    /// A directory, to be read in turn.
    Directory,
    /// A regular file, with what the fetch of its metadata gave.
    Regular(Metadata),
    /// A symbolic link, whatever it points to.
    Symlink,
    /// Anything else: a socket, a device, an entry whose kind could not be read.
    Other,
}

/// One entry of a directory.
#[derive(Debug)]
pub struct DirEntry {
    pub path: Vec<u8>,
    pub kind: EntryKind,
}

/// What reading one directory gave: the directories below it, still to be
/// read, and its regular files.
#[derive(Debug)]
pub struct Listing {
    pub dirs: Vec<Vec<u8>>,
    pub files: Vec<File>,
}

/// Why a scan was given up.
#[derive(Clone, Copy, Debug, PartialEq, Eq, Structural)]
pub enum ScanError {
    /// The platform reports no modification time for a file it could read.
    NoModificationTime,
}

/// The paths of a sequence of byte vectors, in order.
pub open spec fn path_views(dirs: Seq<Vec<u8>>) -> Seq<Seq<u8>> {
    dirs.map_values(|d: Vec<u8>| d@)
}

/// The record that an entry gives: a regular file whose modification time is known.
pub open spec fn file_of(e: DirEntry) -> Option<FileRecord> {
    match e.kind {
        EntryKind::Regular(Metadata::Modified(t)) => Some(FileRecord { path: e.path@, last_mod_date: t }),
        _ => None,
    }
}

/// Some entry is a regular file without a modification time.
pub open spec fn lacks_mod_time(entries: Seq<DirEntry>) -> bool {
    exists|i: int| 0 <= i < entries.len() && #[trigger] entries[i].kind == EntryKind::Regular(Metadata::NoModTime)
}

/// The paths of the entries that are directories, in order.
pub open spec fn subdirs(entries: Seq<DirEntry>) -> Seq<Seq<u8>>
    decreases entries.len(),
{
    if entries.len() == 0 {
        Seq::empty()
    } else {
        let rest = subdirs(entries.drop_last());
        if entries.last().kind == EntryKind::Directory {
            rest.push(entries.last().path@)
        } else {
            rest
        }
    }
}

/// The entries list the record `r`: some entry gives it, and no entry
/// before that one gives a record with the same path.
pub open spec fn lists(entries: Seq<DirEntry>, r: FileRecord) -> bool
    decreases entries.len(),
{
    if entries.len() == 0 {
        false
    } else {
        let init = entries.drop_last();
        lists(init, r) || (file_of(entries.last()) == Some(r) && !lists_path(init, r.path))
    }
}

/// The entries list some record with the path `p`.
pub open spec fn lists_path(entries: Seq<DirEntry>, p: Seq<u8>) -> bool
    decreases entries.len(),
{
    if entries.len() == 0 {
        false
    } else {
        lists_path(entries.drop_last(), p) || (file_of(entries.last()).is_some() && entries.last().path@ == p)
    }
}

/// Every listed record comes from an entry that is a regular file with a
/// known modification time: no symbolic link, directory or other entry is
/// ever listed.
pub proof fn lemma_listed_is_regular(entries: Seq<DirEntry>, r: FileRecord)
    requires
        lists(entries, r),
    ensures
        exists|i: int|
            0 <= i < entries.len() && (#[trigger] entries[i]).kind == EntryKind::Regular(
                Metadata::Modified(r.last_mod_date),
            ) && entries[i].path@ == r.path,
    decreases entries.len(),
{
    let init = entries.drop_last();
    if lists(init, r) {
        lemma_listed_is_regular(init, r);
        let i = choose|i: int|
            0 <= i < init.len() && (#[trigger] init[i]).kind == EntryKind::Regular(
                Metadata::Modified(r.last_mod_date),
            ) && init[i].path@ == r.path;
        assert(entries[i] == init[i]);
    } else {
        assert(entries[entries.len() - 1] == entries.last());
    }
}

/// Sorts the entries of one directory. Directories are handed back to be
/// read in turn. A regular file whose modification time is known is
/// recorded. A regular file whose metadata could not be fetched is passed
/// over, and so are symbolic links and all other entries. A regular file
/// without a modification time ends the scan.
pub fn read_path(entries: &Vec<DirEntry>) -> (r: Result<Listing, ScanError>)
    ensures
        r.is_err() <==> lacks_mod_time(entries@),
        r matches Ok(l) ==> {
            &&& path_views(l.dirs@) == subdirs(entries@)
            &&& is_snapshot(records(l.files@))
            &&& forall|f: FileRecord| #[trigger] records(l.files@).contains(f) <==> lists(entries@, f)
        },
{
    let mut dirs: Vec<Vec<u8>> = Vec::new();
    let mut files: Vec<File> = Vec::new();
    let mut i: usize = 0;
    proof {
        assert(entries@.take(0) =~= Seq::<DirEntry>::empty());
        assert(path_views(dirs@) =~= subdirs(entries@.take(0)));
    }
    while i < entries.len()
        invariant
            i <= entries.len(),
            path_views(dirs@) == subdirs(entries@.take(i as int)),
            is_snapshot(records(files@)),
            forall|f: FileRecord| #[trigger] records(files@).contains(f) <==> lists(entries@.take(i as int), f),
            forall|p: Seq<u8>| #[trigger] has_path(records(files@), p) <==> lists_path(entries@.take(i as int), p),
            forall|j: int| 0 <= j < i ==> (#[trigger] entries@[j]).kind != EntryKind::Regular(Metadata::NoModTime),
        decreases entries.len() - i,
    {
        let ghost seen = entries@.take(i as int);
        let ghost upto = entries@.take(i + 1);
        let ghost before = records(files@);
        let ghost dirs_before = path_views(dirs@);
        proof {
            assert(upto.drop_last() =~= seen);
            assert(upto.last() == entries@[i as int]);
        }
        let entry = &entries[i];
        match entry.kind {
            EntryKind::Directory => {
                dirs.push(copy_bytes(&entry.path));
                proof {
                    assert(path_views(dirs@) =~= dirs_before.push(entry.path@));
                }
            },
            EntryKind::Regular(Metadata::Modified(t)) => {
                let file = File { path: copy_bytes(&entry.path), last_mod_date: t };
                let ghost rec = file@;
                let added = insert(&mut files, file);
                proof {
                    let after = records(files@);
                    assert(file_of(entries@[i as int]) == Some(rec));
                    assert forall|p: Seq<u8>| #[trigger] has_path(after, p) <==> lists_path(upto, p) by {
                        if has_path(after, p) {
                            let k = choose|k: int| 0 <= k < after.len() && after[k].path == p;
                            assert(after.contains(after[k]));
                            if before.contains(after[k]) {
                                lemma_contained_has_path(before, after[k]);
                            }
                        }
                        if has_path(before, p) {
                            let k = choose|k: int| 0 <= k < before.len() && before[k].path == p;
                            assert(before.contains(before[k]));
                            lemma_contained_has_path(after, before[k]);
                        }
                        if p == rec.path {
                            if added {
                                assert(after.contains(rec));
                                lemma_contained_has_path(after, rec);
                            }
                        }
                    }
                }
            },
            EntryKind::Regular(Metadata::NoModTime) => {
                return Err(ScanError::NoModificationTime);
            },
            _ => {},
        }
        i += 1;
    }
    proof {
        assert(entries@.take(entries.len() as int) =~= entries@);
    }
    Ok(Listing { dirs, files })
}

} // verus!
