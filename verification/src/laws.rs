//! What holds of every diff of two snapshots.

use vstd::prelude::*;
use crate::diff::{deleted_events, diff_events, modified_events, new_events, reports, select};
use crate::model::{EventRecord, EventType, FileRecord};
use crate::paths::lemma_path_lt_asymmetric;
use crate::snapshot::{
    has_path, is_snapshot, lemma_contained_has_path, lemma_snapshot_drop_last,
    lemma_snapshot_paths_distinct,
};

verus! {

/// An event is selected exactly if it has the kind asked for and its file
/// is a record of the source that reports that kind.
pub proof fn lemma_select_members(kind: EventType, s: Seq<FileRecord>, other: Seq<FileRecord>)
    ensures
        forall|e: EventRecord| #[trigger]
            select(kind, s, other).contains(e) <==> (e.ev_type == kind && s.contains(e.file) && reports(
                kind,
                e.file,
                other,
            )),
    decreases s.len(),
{
    let out = select(kind, s, other);
    if s.len() > 0 {
        let init = s.drop_last();
        let rest = select(kind, init, other);
        lemma_select_members(kind, init, other);
        assert forall|e: EventRecord| #[trigger]
            out.contains(e) <==> (e.ev_type == kind && s.contains(e.file) && reports(
                kind,
                e.file,
                other,
            )) by {
            let pushed = EventRecord { ev_type: kind, file: s.last() };
            if out.contains(e) {
                let k = choose|k: int| 0 <= k < out.len() && out[k] == e;
                if k < rest.len() {
                    assert(rest[k] == e);
                    assert(rest.contains(e));
                    let i = choose|i: int| 0 <= i < init.len() && init[i] == e.file;
                    assert(s[i] == e.file);
                } else {
                    assert(e == pushed);
                    assert(s[s.len() - 1] == e.file);
                }
            }
            if e.ev_type == kind && s.contains(e.file) && reports(kind, e.file, other) {
                let i = choose|i: int| 0 <= i < s.len() && s[i] == e.file;
                if i < init.len() {
                    assert(init[i] == e.file);
                    assert(rest.contains(e));
                    let k = choose|k: int| 0 <= k < rest.len() && rest[k] == e;
                    assert(out[k] == e);
                } else {
                    assert(e == pushed);
                    assert(out[out.len() - 1] == e);
                }
            }
        }
    }
}

/// The events selected from a snapshot have pairwise different paths.
pub proof fn lemma_select_paths_distinct(kind: EventType, s: Seq<FileRecord>, other: Seq<FileRecord>)
    requires
        is_snapshot(s),
    ensures
        forall|a: int, b: int|
            0 <= a < b < select(kind, s, other).len() ==> #[trigger] select(kind, s, other)[a].file.path
                != #[trigger] select(kind, s, other)[b].file.path,
    decreases s.len(),
{
    let out = select(kind, s, other);
    if s.len() > 0 {
        let init = s.drop_last();
        let rest = select(kind, init, other);
        lemma_snapshot_drop_last(s);
        lemma_select_paths_distinct(kind, init, other);
        lemma_select_members(kind, init, other);
        assert forall|a: int, b: int| 0 <= a < b < out.len() implies #[trigger] out[a].file.path
            != #[trigger] out[b].file.path by {
            if b < rest.len() {
                assert(out[a] == rest[a] && out[b] == rest[b]);
            } else {
                assert(out[a] == rest[a]);
                assert(rest.contains(rest[a]));
                let i = choose|i: int| 0 <= i < init.len() && init[i] == rest[a].file;
                assert(s[i] == init[i]);
                assert(out[b].file == s[s.len() - 1]);
                lemma_path_lt_asymmetric(s[i].path, s[s.len() - 1].path);
            }
        }
    }
}

/// Where an event of a diff comes from. A new one is a record of `curr`
/// whose path `prev` lacks; a deleted one is a record of `prev` whose path
/// `curr` lacks; a modified one is a record of `curr` whose path `prev`
/// holds with another modification time. And each such record gives its event.
pub proof fn lemma_diff_members(prev: Seq<FileRecord>, curr: Seq<FileRecord>)
    ensures
        forall|e: EventRecord| #[trigger]
            diff_events(prev, curr).contains(e) <==> match e.ev_type {
                EventType::NEW => curr.contains(e.file) && !has_path(prev, e.file.path),
                EventType::DEL => prev.contains(e.file) && !has_path(curr, e.file.path),
                EventType::MOD => curr.contains(e.file) && has_path(prev, e.file.path) && !prev.contains(
                    e.file,
                ),
            },
{
    let n = new_events(prev, curr);
    let d = deleted_events(prev, curr);
    let m = modified_events(prev, curr);
    let all = diff_events(prev, curr);
    lemma_select_members(EventType::NEW, curr, prev);
    lemma_select_members(EventType::DEL, prev, curr);
    lemma_select_members(EventType::MOD, curr, prev);
    assert forall|e: EventRecord| #[trigger]
        all.contains(e) <==> (n.contains(e) || d.contains(e) || m.contains(e)) by {
        if all.contains(e) {
            let k = choose|k: int| 0 <= k < all.len() && all[k] == e;
            if k < n.len() {
                assert(n[k] == e);
            } else if k < n.len() + d.len() {
                assert(d[k - n.len()] == e);
            } else {
                assert(m[k - n.len() - d.len()] == e);
            }
        }
        if n.contains(e) {
            let k = choose|k: int| 0 <= k < n.len() && n[k] == e;
            assert(all[k] == e);
        }
        if d.contains(e) {
            let k = choose|k: int| 0 <= k < d.len() && d[k] == e;
            assert(all[n.len() + k] == e);
        }
        if m.contains(e) {
            let k = choose|k: int| 0 <= k < m.len() && m[k] == e;
            assert(all[n.len() + d.len() + k] == e);
        }
    }
}

/// A diff of two snapshots holds at most one event for each path.
pub proof fn lemma_one_event_per_path(prev: Seq<FileRecord>, curr: Seq<FileRecord>)
    requires
        is_snapshot(prev),
        is_snapshot(curr),
    ensures
        forall|a: int, b: int|
            0 <= a < diff_events(prev, curr).len() && 0 <= b < diff_events(prev, curr).len()
                && #[trigger] diff_events(prev, curr)[a].file.path == #[trigger] diff_events(
                prev,
                curr,
            )[b].file.path ==> a == b,
{
    let n = new_events(prev, curr);
    let d = deleted_events(prev, curr);
    let m = modified_events(prev, curr);
    let all = diff_events(prev, curr);
    lemma_select_members(EventType::NEW, curr, prev);
    lemma_select_members(EventType::DEL, prev, curr);
    lemma_select_members(EventType::MOD, curr, prev);
    lemma_select_paths_distinct(EventType::NEW, curr, prev);
    lemma_select_paths_distinct(EventType::DEL, prev, curr);
    lemma_select_paths_distinct(EventType::MOD, curr, prev);
    assert forall|a: int, b: int| 0 <= a < b < all.len() implies #[trigger] all[a].file.path
        != #[trigger] all[b].file.path by {
        let ea = all[a];
        let eb = all[b];
        if a < n.len() {
            assert(n[a] == ea);
            assert(n.contains(ea));
            lemma_contained_has_path(curr, ea.file);
            if b < n.len() {
                assert(n[b] == eb);
            } else if b < n.len() + d.len() {
                assert(d[b - n.len()] == eb);
                assert(d.contains(eb));
                lemma_contained_has_path(prev, eb.file);
            } else {
                assert(m[b - n.len() - d.len()] == eb);
                assert(m.contains(eb));
            }
        } else if a < n.len() + d.len() {
            assert(d[a - n.len()] == ea);
            assert(d.contains(ea));
            if b < n.len() + d.len() {
                assert(d[b - n.len()] == eb);
            } else {
                assert(m[b - n.len() - d.len()] == eb);
                assert(m.contains(eb));
                lemma_contained_has_path(curr, eb.file);
            }
        } else {
            assert(m[a - n.len() - d.len()] == ea);
            assert(m[b - n.len() - d.len()] == eb);
        }
    }
    assert forall|a: int, b: int|
        0 <= a < all.len() && 0 <= b < all.len() && #[trigger] all[a].file.path
            == #[trigger] all[b].file.path implies a == b by {
        if a < b {
            assert(all[a].file.path != all[b].file.path);
        } else if b < a {
            assert(all[b].file.path != all[a].file.path);
        }
    }
}

/// A path that only `curr` holds gives one event, a new one with the record
/// of `curr`; and the diff holds no deleted or modified event for it.
pub proof fn lemma_created(prev: Seq<FileRecord>, curr: Seq<FileRecord>, j: int)
    requires
        is_snapshot(prev),
        is_snapshot(curr),
        0 <= j < curr.len(),
        !has_path(prev, curr[j].path),
    ensures
        diff_events(prev, curr).contains(EventRecord { ev_type: EventType::NEW, file: curr[j] }),
        forall|k: int|
            0 <= k < diff_events(prev, curr).len() && #[trigger] diff_events(prev, curr)[k].file.path
                == curr[j].path ==> diff_events(prev, curr)[k] == (EventRecord {
                ev_type: EventType::NEW,
                file: curr[j],
            }),
{
    let all = diff_events(prev, curr);
    let e = EventRecord { ev_type: EventType::NEW, file: curr[j] };
    lemma_diff_members(prev, curr);
    lemma_one_event_per_path(prev, curr);
    assert(curr.contains(curr[j]));
    assert(all.contains(e));
    let w = choose|w: int| 0 <= w < all.len() && all[w] == e;
    assert forall|k: int| 0 <= k < all.len() && #[trigger] all[k].file.path == curr[j].path implies all[k]
        == e by {
        assert(all[w].file.path == all[k].file.path);
    }
}

/// A path that only `prev` holds gives one event, a deleted one with the
/// record of `prev`; and the diff holds no new or modified event for it.
pub proof fn lemma_removed(prev: Seq<FileRecord>, curr: Seq<FileRecord>, i: int)
    requires
        is_snapshot(prev),
        is_snapshot(curr),
        0 <= i < prev.len(),
        !has_path(curr, prev[i].path),
    ensures
        diff_events(prev, curr).contains(EventRecord { ev_type: EventType::DEL, file: prev[i] }),
        forall|k: int|
            0 <= k < diff_events(prev, curr).len() && #[trigger] diff_events(prev, curr)[k].file.path
                == prev[i].path ==> diff_events(prev, curr)[k] == (EventRecord {
                ev_type: EventType::DEL,
                file: prev[i],
            }),
{
    let all = diff_events(prev, curr);
    let e = EventRecord { ev_type: EventType::DEL, file: prev[i] };
    lemma_diff_members(prev, curr);
    lemma_one_event_per_path(prev, curr);
    assert(prev.contains(prev[i]));
    assert(all.contains(e));
    let w = choose|w: int| 0 <= w < all.len() && all[w] == e;
    assert forall|k: int| 0 <= k < all.len() && #[trigger] all[k].file.path == prev[i].path implies all[k]
        == e by {
        assert(all[w].file.path == all[k].file.path);
    }
}

/// A path that both snapshots hold with the same modification time gives no event.
pub proof fn lemma_untouched(prev: Seq<FileRecord>, curr: Seq<FileRecord>, i: int, j: int)
    requires
        is_snapshot(prev),
        is_snapshot(curr),
        0 <= i < prev.len(),
        0 <= j < curr.len(),
        prev[i] == curr[j],
    ensures
        forall|k: int|
            0 <= k < diff_events(prev, curr).len() ==> #[trigger] diff_events(prev, curr)[k].file.path
                != curr[j].path,
{
    let all = diff_events(prev, curr);
    lemma_diff_members(prev, curr);
    lemma_snapshot_paths_distinct(prev);
    lemma_snapshot_paths_distinct(curr);
    assert forall|k: int| 0 <= k < all.len() implies #[trigger] all[k].file.path != curr[j].path by {
        let e = all[k];
        assert(all.contains(e));
        if e.file.path == curr[j].path {
            assert(prev[i].path == e.file.path);
            assert(curr[j].path == e.file.path);
            assert(has_path(prev, e.file.path));
            assert(has_path(curr, e.file.path));
            assert(e.ev_type == EventType::MOD);
            let c = choose|c: int| 0 <= c < curr.len() && curr[c] == e.file;
            assert(curr[c].path == curr[j].path);
            assert(c == j);
            assert(prev.contains(e.file));
        }
    }
}

/// A path that both snapshots hold with different modification times gives
/// one event, a modified one with the record of `curr`.
pub proof fn lemma_modified(prev: Seq<FileRecord>, curr: Seq<FileRecord>, i: int, j: int)
    requires
        is_snapshot(prev),
        is_snapshot(curr),
        0 <= i < prev.len(),
        0 <= j < curr.len(),
        prev[i].path == curr[j].path,
        prev[i].last_mod_date != curr[j].last_mod_date,
    ensures
        diff_events(prev, curr).contains(EventRecord { ev_type: EventType::MOD, file: curr[j] }),
        forall|k: int|
            0 <= k < diff_events(prev, curr).len() && #[trigger] diff_events(prev, curr)[k].file.path
                == curr[j].path ==> diff_events(prev, curr)[k] == (EventRecord {
                ev_type: EventType::MOD,
                file: curr[j],
            }),
{
    let all = diff_events(prev, curr);
    let e = EventRecord { ev_type: EventType::MOD, file: curr[j] };
    lemma_diff_members(prev, curr);
    lemma_one_event_per_path(prev, curr);
    lemma_snapshot_paths_distinct(prev);
    assert(curr.contains(curr[j]));
    assert(has_path(prev, curr[j].path)) by {
        assert(prev[i].path == curr[j].path);
    }
    if prev.contains(curr[j]) {
        let p = choose|p: int| 0 <= p < prev.len() && prev[p] == curr[j];
        assert(prev[p].path == prev[i].path);
    }
    assert(all.contains(e));
    let w = choose|w: int| 0 <= w < all.len() && all[w] == e;
    assert forall|k: int| 0 <= k < all.len() && #[trigger] all[k].file.path == curr[j].path implies all[k]
        == e by {
        assert(all[w].file.path == all[k].file.path);
    }
}

/// Two scans that saw the same files give no event.
pub proof fn lemma_same_files_no_events(prev: Seq<FileRecord>, curr: Seq<FileRecord>)
    requires
        forall|r: FileRecord| prev.contains(r) <==> curr.contains(r),
    ensures
        diff_events(prev, curr) == Seq::<EventRecord>::empty(),
{
    let all = diff_events(prev, curr);
    lemma_diff_members(prev, curr);
    if all.len() > 0 {
        let e = all[0];
        assert(all.contains(e));
        match e.ev_type {
            EventType::NEW => {
                assert(prev.contains(e.file));
                lemma_contained_has_path(prev, e.file);
            },
            EventType::DEL => {
                assert(curr.contains(e.file));
                lemma_contained_has_path(curr, e.file);
            },
            EventType::MOD => {},
        }
    }
    assert(all =~= Seq::<EventRecord>::empty());
}

} // verus!
