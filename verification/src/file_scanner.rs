//! The scan-and-diff engine: it keeps the snapshots of the last two scans
//! and turns each new scan into the events that tell it from the one before.

use vstd::prelude::*;
use crate::diff::{diff, diff_events};
use crate::model::{copy_bytes, event_records, records, DBuffer, Event, File, FileRecord};
use crate::snapshot::{absorb, has_path, is_snapshot, lemma_contained_has_path};
use crate::walker::{path_views, Listing};

verus! {

/// The files of each listing, as records.
pub open spec fn listed_files(listings: Seq<Listing>) -> Seq<Seq<FileRecord>> {
    listings.map_values(|l: Listing| records(l.files@))
}

/// The files of every listing are a snapshot.
pub open spec fn all_snapshots(found: Seq<Seq<FileRecord>>) -> bool {
    forall|i: int| 0 <= i < found.len() ==> is_snapshot(#[trigger] found[i])
}

/// The walk gathers the record `r`. The listings are taken from the last to
/// the first; a record is gathered from the listing that is the first taken
/// to hold its path.
pub open spec fn gathers(found: Seq<Seq<FileRecord>>, r: FileRecord) -> bool
    decreases found.len(),
{
    if found.len() == 0 {
        false
    } else {
        let later = found.skip(1);
        gathers(later, r) || (found[0].contains(r) && !gathers_path(later, r.path))
    }
}

/// The walk gathers some record with the path `p`.
pub open spec fn gathers_path(found: Seq<Seq<FileRecord>>, p: Seq<u8>) -> bool
    decreases found.len(),
{
    if found.len() == 0 {
        false
    } else {
        gathers_path(found.skip(1), p) || has_path(found[0], p)
    }
}

/// A copy of `files`, record for record.
pub fn copy_files(files: &Vec<File>) -> (r: Vec<File>)
    ensures
        records(r@) == records(files@),
{
    let mut out: Vec<File> = Vec::new();
    let mut i: usize = 0;
    while i < files.len()
        invariant
            i <= files.len(),
            records(out@) == records(files@).take(i as int),
        decreases files.len() - i,
    {
        let ghost sofar = records(out@);
        out.push(files[i].clone());
        proof {
            assert(records(out@) =~= sofar.push(files@[i as int]@));
            assert(records(files@).take(i + 1) =~= sofar.push(files@[i as int]@));
        }
        i += 1;
    }
    proof {
        assert(records(files@).take(files.len() as int) =~= records(files@));
    }
    out
}

/// The engine: the directory it watches and the snapshots of its last two scans.
#[derive(Debug)]
pub struct FileScanner {
    folder_path: Vec<u8>,
    buff: DBuffer<File>,
}

impl FileScanner {
    /// The directory that is watched.
    pub closed spec fn root(&self) -> Seq<u8> {
        self.folder_path@
    }

    /// The snapshot of the scan under way, or of the last one once it is done.
    pub closed spec fn current(&self) -> Seq<FileRecord> {
        records(self.buff.curr())
    }

    /// The snapshot of the scan before the current one.
    pub closed spec fn previous(&self) -> Seq<FileRecord> {
        records(self.buff.prev())
    }

    /// Both slots hold snapshots: no path occurs twice in either.
    pub open spec fn wf(&self) -> bool {
        is_snapshot(self.current()) && is_snapshot(self.previous())
    }

    /// An engine for the directory `path`, with two empty snapshots.
    pub fn new(path: &Vec<u8>) -> (r: FileScanner)
        ensures
            r.wf(),
            r.root() == path@,
            r.current() == Seq::<FileRecord>::empty(),
            r.previous() == Seq::<FileRecord>::empty(),
    {
        let r = FileScanner { folder_path: copy_bytes(path), buff: DBuffer::new() };
        proof {
            assert(r.current() =~= Seq::<FileRecord>::empty());
            assert(r.previous() =~= Seq::<FileRecord>::empty());
        }
        r
    }

    /// The directory that is watched: where every walk starts.
    pub fn folder(&self) -> (r: &Vec<u8>)
        ensures
            r@ == self.root(),
    {
        &self.folder_path
    }

    /// A copy of the current snapshot, in path order.
    pub fn get_curr_read_copy(&self) -> (r: Vec<File>)
        ensures
            records(r@) == self.current(),
    {
        let (_, curr) = self.buff.get_buffers();
        copy_files(curr)
    }

    /// A copy of the previous snapshot, in path order.
    pub fn get_prev_read_copy(&self) -> (r: Vec<File>)
        ensures
            records(r@) == self.previous(),
    {
        let (prev, _) = self.buff.get_buffers();
        copy_files(prev)
    }

    /// Takes in what reading one directory gave. Its files go into the
    /// current snapshot, but for those whose path is there already; its
    /// directories are handed back, to be read next. The previous snapshot
    /// stays as it is.
    pub fn read_path_recursive(&mut self, listing: Listing) -> (next: Vec<Vec<u8>>)
        requires
            old(self).wf(),
            is_snapshot(records(listing.files@)),
        ensures
            final(self).wf(),
            final(self).root() == old(self).root(),
            final(self).previous() == old(self).previous(),
            forall|r: FileRecord| #[trigger]
                final(self).current().contains(r) <==> old(self).current().contains(r) || (records(
                    listing.files@,
                ).contains(r) && !has_path(old(self).current(), r.path)),
            path_views(next@) == path_views(listing.dirs@),
    {
        let Listing { dirs, files } = listing;
        let curr = self.buff.get_curr();
        absorb(curr, files);
        dirs
    }

    /// One scan cycle, from the listings of a finished walk. The current
    /// snapshot becomes the previous one; the files of the listings make up
    /// the new current one; and the events between the two are returned:
    /// the new files, then the deleted ones, then the modified ones.
    pub fn read_and_compare(&mut self, listings: Vec<Listing>) -> (events: Vec<Event>)
        requires
            old(self).wf(),
            all_snapshots(listed_files(listings@)),
        ensures
            final(self).wf(),
            final(self).root() == old(self).root(),
            final(self).previous() == old(self).current(),
            forall|r: FileRecord| #[trigger]
                final(self).current().contains(r) <==> gathers(listed_files(listings@), r),
            event_records(events@) == diff_events(final(self).previous(), final(self).current()),
    {
        let ghost found = listed_files(listings@);
        let mut listings = listings;
        self.buff.next();
        proof {
            assert(found.skip(found.len() as int) =~= Seq::<Seq<FileRecord>>::empty());
            assert(self.current() =~= Seq::<FileRecord>::empty());
        }
        while listings.len() > 0
            invariant
                self.wf(),
                self.root() == old(self).root(),
                self.previous() == old(self).current(),
                listings.len() <= found.len(),
                listed_files(listings@) == found.take(listings.len() as int),
                all_snapshots(found),
                forall|r: FileRecord| #[trigger]
                    self.current().contains(r) <==> gathers(found.skip(listings.len() as int), r),
                forall|p: Seq<u8>| #[trigger]
                    has_path(self.current(), p) <==> gathers_path(found.skip(listings.len() as int), p),
            decreases listings.len(),
        {
            let ghost m = listings.len() - 1;
            let ghost was = listings@;
            let ghost before = self.current();
            let listing = listings.pop().unwrap();
            proof {
                assert(listed_files(was)[m] == records(listing.files@));
                assert(found[m] == records(listing.files@));
                assert(listed_files(listings@) =~= found.take(m));
                assert(found.skip(m).skip(1) =~= found.skip(m + 1));
                assert(found.skip(m)[0] == found[m]);
            }
            let _ = self.read_path_recursive(listing);
            proof {
                let after = self.current();
                let taken = found[m];
                assert forall|p: Seq<u8>| #[trigger]
                    has_path(after, p) <==> gathers_path(found.skip(m), p) by {
                    if has_path(after, p) {
                        let k = choose|k: int| 0 <= k < after.len() && after[k].path == p;
                        assert(after.contains(after[k]));
                        if before.contains(after[k]) {
                            lemma_contained_has_path(before, after[k]);
                        } else {
                            lemma_contained_has_path(taken, after[k]);
                        }
                    }
                    if has_path(before, p) {
                        let k = choose|k: int| 0 <= k < before.len() && before[k].path == p;
                        assert(before.contains(before[k]));
                        lemma_contained_has_path(after, before[k]);
                    }
                    if has_path(taken, p) && !has_path(before, p) {
                        let k = choose|k: int| 0 <= k < taken.len() && taken[k].path == p;
                        assert(taken.contains(taken[k]));
                        lemma_contained_has_path(after, taken[k]);
                    }
                }
            }
        }
        proof {
            assert(found.skip(0) =~= found);
        }
        let (prev, curr) = self.buff.get_buffers();
        diff(prev, curr)
    }
}

} // verus!
