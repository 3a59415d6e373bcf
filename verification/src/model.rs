//! File records, change events, and the two-slot buffer that holds the
//! snapshots of the last two scans.

use vstd::prelude::*;
use vstd::std_specs::cmp::PartialEqSpecImpl;
use crate::paths::{path_lt, path_order, PathOrder, SEPARATOR};

verus! {

/// A point in time: whole seconds since the Unix epoch and the nanoseconds
/// within that second.
#[derive(Clone, Copy, Debug, PartialEq, Eq, Structural)]
pub struct Timestamp {
    pub secs: i64,
    pub nanos: u32,
}

/// One regular file seen by a scan.
#[derive(Debug)]
pub struct File {
    /// The absolute, normalized path, as bytes.
    pub path: Vec<u8>,
    /// When the file was last modified, as the filesystem reported it.
    pub last_mod_date: Timestamp,
}

/// What a `File` holds, as a mathematical value.
pub struct FileRecord {
    pub path: Seq<u8>,
    pub last_mod_date: Timestamp,
}

impl View for File {
    type V = FileRecord;

    open spec fn view(&self) -> FileRecord {
        FileRecord { path: self.path@, last_mod_date: self.last_mod_date }
    }
}

impl PartialEq for File {
    /// Full equality: the same path and the same modification time.
    fn eq(&self, other: &File) -> (r: bool) {
        let same_path = path_order(&self.path, &other.path) == PathOrder::Equal;
        proof {
            if same_path && self.last_mod_date == other.last_mod_date {
                assert(self@ == other@);
            }
        }
        same_path && self.last_mod_date == other.last_mod_date
    }
}

impl PartialEqSpecImpl for File {
    open spec fn obeys_eq_spec() -> bool {
        true
    }

    open spec fn eq_spec(&self, other: &File) -> bool {
        self@ == other@
    }
}

impl Eq for File {

}

impl Clone for File {
    fn clone(&self) -> (r: File)
        ensures
            r@ == self@,
    {
        File { path: copy_bytes(&self.path), last_mod_date: self.last_mod_date }
    }
}

/// A fresh vector with the same bytes.
pub fn copy_bytes(src: &Vec<u8>) -> (r: Vec<u8>)
    ensures
        r@ == src@,
{
    let mut out: Vec<u8> = Vec::new();
    let mut i: usize = 0;
    while i < src.len()
        invariant
            i <= src.len(),
            out@ == src@.take(i as int),
        decreases src.len() - i,
    {
        out.push(src[i]);
        proof {
            assert(src@.take(i + 1) =~= src@.take(i as int).push(src@[i as int]));
        }
        i += 1;
    }
    proof {
        assert(src@.take(src.len() as int) =~= src@);
    }
    out
}

/// The views of a sequence of files, in order.
pub open spec fn records(files: Seq<File>) -> Seq<FileRecord> {
    files.map_values(|f: File| f@)
}

/// `path` is `base` itself or lies below it: it starts with `base`, and
/// what follows, if anything, starts a new component. An empty `base` is
/// above every path.
pub open spec fn is_under(path: Seq<u8>, base: Seq<u8>) -> bool {
    &&& path.len() >= base.len()
    &&& path.take(base.len() as int) == base
    &&& (base.len() == 0 || path.len() == base.len() || base.last() == SEPARATOR
        || path[base.len() as int] == SEPARATOR)
}

/// What is left of `path` once `base` and the separator after it are taken off.
pub open spec fn relative_to(path: Seq<u8>, base: Seq<u8>) -> Seq<u8> {
    if base.len() == 0 || path.len() == base.len() || base.last() == SEPARATOR {
        path.skip(base.len() as int)
    } else {
        path.skip(base.len() as int + 1)
    }
}

/// Whether `path` is `base` or lies below it.
pub fn lies_under(path: &Vec<u8>, base: &Vec<u8>) -> (r: bool)
    ensures
        r == is_under(path@, base@),
{
    if path.len() < base.len() {
        return false;
    }
    let mut i: usize = 0;
    while i < base.len()
        invariant
            i <= base.len() <= path.len(),
            forall|j: int| 0 <= j < i ==> path@[j] == base@[j],
        decreases base.len() - i,
    {
        if path[i] != base[i] {
            proof {
                assert(path@.take(base.len() as int)[i as int] == path@[i as int]);
            }
            return false;
        }
        i += 1;
    }
    proof {
        assert(path@.take(base.len() as int) =~= base@);
    }
    base.len() == 0 || path.len() == base.len() || base[base.len() - 1] == SEPARATOR
        || path[base.len()] == SEPARATOR
}

impl File {
    /// How this file stands to `other` in the order of a snapshot, which
    /// goes by the path alone.
    pub fn key_order(&self, other: &File) -> (r: PathOrder)
        ensures
            r == PathOrder::Less <==> path_lt(self@.path, other@.path),
            r == PathOrder::Equal <==> self@.path == other@.path,
            r == PathOrder::Greater <==> path_lt(other@.path, self@.path),
    {
        path_order(&self.path, &other.path)
    }

    /// The path of this file below the directory `base`.
    pub fn get_relative_path(&self, base: &Vec<u8>) -> (r: Vec<u8>)
        requires
            is_under(self@.path, base@),
        ensures
            r@ == relative_to(self@.path, base@),
    {
        let start: usize = if base.len() == 0 || self.path.len() == base.len() || base[base.len() - 1]
            == SEPARATOR {
            base.len()
        } else {
            base.len() + 1
        };
        let mut out: Vec<u8> = Vec::new();
        let mut i: usize = start;
        while i < self.path.len()
            invariant
                start <= i <= self.path.len(),
                out@ == self.path@.subrange(start as int, i as int),
            decreases self.path.len() - i,
        {
            out.push(self.path[i]);
            proof {
                assert(self.path@.subrange(start as int, i + 1) =~= self.path@.subrange(
                    start as int,
                    i as int,
                ).push(self.path@[i as int]));
            }
            i += 1;
        }
        proof {
            assert(self.path@.subrange(start as int, self.path.len() as int) =~= self.path@.skip(
                start as int,
            ));
        }
        out
    }
}

/// The kind of a change between two scans.
#[derive(Clone, Copy, Debug, PartialEq, Eq, Structural)]
pub enum EventType {
    NEW,
    MOD,
    DEL,
}

impl EventType {
    /// The three-letter tag under which the kind is shown.
    pub fn label(&self) -> (r: &'static str)
        ensures
            r@ == self.label_spec(),
    {
        match self {
            EventType::NEW => "NEW",
            EventType::MOD => "MOD",
            EventType::DEL => "DEL",
        }
    }

    pub open spec fn label_spec(&self) -> Seq<char> {
        match self {
            EventType::NEW => "NEW"@,
            EventType::MOD => "MOD"@,
            EventType::DEL => "DEL"@,
        }
    }
}

/// One change: its kind and the file it is about.
#[derive(Debug)]
pub struct Event {
    pub ev_type: EventType,
    pub file: File,
}

/// What an `Event` holds, as a mathematical value.
pub struct EventRecord {
    pub ev_type: EventType,
    pub file: FileRecord,
}

impl View for Event {
    type V = EventRecord;

    open spec fn view(&self) -> EventRecord {
        EventRecord { ev_type: self.ev_type, file: self.file@ }
    }
}

/// The views of a sequence of events, in order.
pub open spec fn event_records(events: Seq<Event>) -> Seq<EventRecord> {
    events.map_values(|e: Event| e@)
}

/// Two slots of items, one of them current (written by the scan under way)
/// and the other previous (the scan before it, read only). Rotation swaps
/// the roles and empties the slot that becomes current, keeping its storage.
#[derive(Debug)]
pub struct DBuffer<T> {
    second_is_curr: bool,
    first: Vec<T>,
    second: Vec<T>,
}

impl<T> DBuffer<T> {
    /// The index, 0 or 1, of the current slot.
    pub closed spec fn curr_index(&self) -> int {
        if self.second_is_curr {
            1
        } else {
            0
        }
    }

    /// The contents of the current slot.
    pub closed spec fn curr(&self) -> Seq<T> {
        if self.second_is_curr {
            self.second@
        } else {
            self.first@
        }
    }

    /// The contents of the previous slot.
    pub closed spec fn prev(&self) -> Seq<T> {
        if self.second_is_curr {
            self.first@
        } else {
            self.second@
        }
    }

    /// Two empty slots, the first of them current.
    pub fn new() -> (r: DBuffer<T>)
        ensures
            r.curr_index() == 0,
            r.curr() == Seq::<T>::empty(),
            r.prev() == Seq::<T>::empty(),
    {
        DBuffer { second_is_curr: false, first: Vec::new(), second: Vec::new() }
    }

    /// The index, 0 or 1, of the previous slot.
    #[inline]
    pub fn prev_buff(&self) -> (r: usize)
        ensures
            r == 1 - self.curr_index(),
    {
        if self.second_is_curr {
            0
        } else {
            1
        }
    }

    /// The current slot, to be filled. The previous slot and the roles stay.
    pub fn get_curr<'a>(&'a mut self) -> (r: &'a mut Vec<T>)
        ensures
            r@ == old(self).curr(),
            final(self).curr() == final(r)@,
            final(self).prev() == old(self).prev(),
            final(self).curr_index() == old(self).curr_index(),
    {
        if self.second_is_curr {
            &mut self.second
        } else {
            &mut self.first
        }
    }

    /// The two slots for reading: the previous one, then the current one.
    pub fn get_buffers<'a>(&'a self) -> (r: (&'a Vec<T>, &'a Vec<T>))
        ensures
            r.0@ == self.prev(),
            r.1@ == self.curr(),
    {
        if self.second_is_curr {
            (&self.first, &self.second)
        } else {
            (&self.second, &self.first)
        }
    }

    /// Moves on to the next scan: the current slot becomes the previous one
    /// with its contents kept, and the other slot becomes current and empty.
    pub fn next(&mut self)
        ensures
            final(self).prev() == old(self).curr(),
            final(self).curr() == Seq::<T>::empty(),
            final(self).curr_index() == 1 - old(self).curr_index(),
    {
        self.second_is_curr = !self.second_is_curr;
        if self.second_is_curr {
            self.second.clear();
        } else {
            self.first.clear();
        }
    }
}

} // verus!
