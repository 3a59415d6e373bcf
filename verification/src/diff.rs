//! The diff of two consecutive snapshots: which files are new, which are
//! gone, and which were modified.

use vstd::prelude::*;
use crate::model::{event_records, records, Event, EventRecord, EventType, File, FileRecord};
use crate::snapshot::{find_path, has_path, is_snapshot, lemma_snapshot_paths_distinct};

verus! {

/// Whether the record `r` of one snapshot gives an event of the kind `kind`
/// when held against the snapshot `other`. New and deleted go by the path
/// alone: no record of `other` has it. Modified goes by both notions of
/// equality: `other` has the path, but not the record itself.
pub open spec fn reports(kind: EventType, r: FileRecord, other: Seq<FileRecord>) -> bool {
    match kind {
        EventType::NEW => !has_path(other, r.path),
        EventType::DEL => !has_path(other, r.path),
        EventType::MOD => has_path(other, r.path) && !other.contains(r),
    }
}

/// The events of the kind `kind` that the records of `s` give against
/// `other`, in the order of `s`.
pub open spec fn select(kind: EventType, s: Seq<FileRecord>, other: Seq<FileRecord>) -> Seq<
    EventRecord,
>
    decreases s.len(),
{
    if s.len() == 0 {
        Seq::empty()
    } else {
        let rest = select(kind, s.drop_last(), other);
        if reports(kind, s.last(), other) {
            rest.push(EventRecord { ev_type: kind, file: s.last() })
        } else {
            rest
        }
    }
}

/// The records of `curr` whose path `prev` does not hold.
pub open spec fn new_events(prev: Seq<FileRecord>, curr: Seq<FileRecord>) -> Seq<EventRecord> {
    select(EventType::NEW, curr, prev)
}

/// The records of `prev` whose path `curr` does not hold.
pub open spec fn deleted_events(prev: Seq<FileRecord>, curr: Seq<FileRecord>) -> Seq<EventRecord> {
    select(EventType::DEL, prev, curr)
}

/// The records of `curr` whose path `prev` holds with another modification time.
pub open spec fn modified_events(prev: Seq<FileRecord>, curr: Seq<FileRecord>) -> Seq<EventRecord> {
    select(EventType::MOD, curr, prev)
}

/// All events between `prev` and `curr`: the new files, then the deleted
/// ones, then the modified ones, each group in path order.
pub open spec fn diff_events(prev: Seq<FileRecord>, curr: Seq<FileRecord>) -> Seq<EventRecord> {
    new_events(prev, curr) + deleted_events(prev, curr) + modified_events(prev, curr)
}

/// Whether `file` gives an event of the kind `kind` against `other`.
pub fn gives_event(kind: EventType, file: &File, other: &Vec<File>) -> (r: bool)
    requires
        is_snapshot(records(other@)),
    ensures
        r == reports(kind, file@, records(other@)),
{
    let ghost recs = records(other@);
    let found = find_path(other, &file.path);
    match found {
        None => match kind {
            EventType::MOD => false,
            _ => true,
        },
        Some(j) => match kind {
            EventType::MOD => {
                let same = other[j].last_mod_date == file.last_mod_date;
                proof {
                    assert(recs[j as int] == other@[j as int]@);
                    lemma_snapshot_paths_distinct(recs);
                    if same {
                        assert(recs[j as int] == file@);
                    } else if recs.contains(file@) {
                        let k = choose|k: int| 0 <= k < recs.len() && recs[k] == file@;
                        assert(recs[k].path == recs[j as int].path);
                    }
                }
                !same
            },
            _ => false,
        },
    }
}

/// Appends to `out` the events of the kind `kind` that the files of `from`
/// give against `other`.
pub fn collect(kind: EventType, from: &Vec<File>, other: &Vec<File>, out: &mut Vec<Event>)
    requires
        is_snapshot(records(other@)),
    ensures
        event_records(final(out)@) == event_records(old(out)@) + select(
            kind,
            records(from@),
            records(other@),
        ),
{
    let ghost start = event_records(out@);
    let ghost src = records(from@);
    let ghost oth = records(other@);
    let mut i: usize = 0;
    proof {
        assert(src.take(0) =~= Seq::<FileRecord>::empty());
        assert(start + select(kind, src.take(0), oth) =~= start);
    }
    while i < from.len()
        invariant
            i <= from.len(),
            src == records(from@),
            oth == records(other@),
            is_snapshot(oth),
            event_records(out@) == start + select(kind, src.take(i as int), oth),
        decreases from.len() - i,
    {
        let ghost sofar = event_records(out@);
        proof {
            assert(src.take(i + 1).drop_last() =~= src.take(i as int));
            assert(src.take(i + 1).last() == from@[i as int]@);
        }
        if gives_event(kind, &from[i], other) {
            out.push(Event { ev_type: kind, file: from[i].clone() });
            proof {
                let e = EventRecord { ev_type: kind, file: from@[i as int]@ };
                assert(event_records(out@) =~= sofar.push(e));
                assert(sofar.push(e) =~= start + select(kind, src.take(i + 1), oth));
            }
        }
        i += 1;
    }
    proof {
        assert(src.take(from.len() as int) =~= src);
    }
}

/// The events between two consecutive snapshots.
pub fn diff(prev: &Vec<File>, curr: &Vec<File>) -> (events: Vec<Event>)
    requires
        is_snapshot(records(prev@)),
        is_snapshot(records(curr@)),
    ensures
        event_records(events@) == diff_events(records(prev@), records(curr@)),
{
    let mut events: Vec<Event> = Vec::new();
    proof {
        assert(event_records(events@) =~= Seq::<EventRecord>::empty());
    }
    collect(EventType::NEW, curr, prev, &mut events);
    collect(EventType::DEL, prev, curr, &mut events);
    collect(EventType::MOD, curr, prev, &mut events);
    proof {
        let p = records(prev@);
        let c = records(curr@);
        assert(event_records(events@) =~= new_events(p, c) + deleted_events(p, c) + modified_events(
            p,
            c,
        ));
    }
    events
}

} // verus!
