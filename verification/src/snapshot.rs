//! Snapshot sets: the files of one scan, held in a vector that is strictly
//! increasing in path order, so that no path occurs twice.

use vstd::prelude::*;
use crate::model::{records, File, FileRecord};
use crate::paths::{lemma_path_lt_asymmetric, lemma_path_lt_transitive, path_lt, path_order, PathOrder};

verus! {

/// The records are strictly increasing in path order.
pub open spec fn is_snapshot(s: Seq<FileRecord>) -> bool {
    forall|i: int, j: int| 0 <= i < j < s.len() ==> path_lt(#[trigger] s[i].path, #[trigger] s[j].path)
}

/// Some record of `s` has the path `p`.
pub open spec fn has_path(s: Seq<FileRecord>, p: Seq<u8>) -> bool {
    exists|i: int| 0 <= i < s.len() && #[trigger] s[i].path == p
}

/// A record that a sequence contains has a path that the sequence holds.
pub proof fn lemma_contained_has_path(s: Seq<FileRecord>, r: FileRecord)
    requires
        s.contains(r),
    ensures
        has_path(s, r.path),
{
    let k = choose|k: int| 0 <= k < s.len() && s[k] == r;
    assert(s[k].path == r.path);
}

/// A snapshot holds at most one record for each path.
pub proof fn lemma_snapshot_paths_distinct(s: Seq<FileRecord>)
    requires
        is_snapshot(s),
    ensures
        forall|i: int, j: int|
            0 <= i < s.len() && 0 <= j < s.len() && #[trigger] s[i].path == #[trigger] s[j].path ==> i == j,
{
    assert forall|i: int, j: int|
        0 <= i < s.len() && 0 <= j < s.len() && #[trigger] s[i].path == #[trigger] s[j].path implies i
        == j by {
        if i < j {
            lemma_path_lt_asymmetric(s[i].path, s[j].path);
        } else if j < i {
            lemma_path_lt_asymmetric(s[j].path, s[i].path);
        }
    }
}

/// A snapshot without its last record is a snapshot.
pub proof fn lemma_snapshot_drop_last(s: Seq<FileRecord>)
    requires
        is_snapshot(s),
        s.len() > 0,
    ensures
        is_snapshot(s.drop_last()),
{
    let init = s.drop_last();
    assert forall|i: int, j: int| 0 <= i < j < init.len() implies path_lt(
        #[trigger] init[i].path,
        #[trigger] init[j].path,
    ) by {
        assert(init[i] == s[i] && init[j] == s[j]);
    }
}

/// The last record of a snapshot is the last record of every snapshot
/// with the same records.
proof fn lemma_same_last(a: Seq<FileRecord>, b: Seq<FileRecord>)
    requires
        is_snapshot(a),
        is_snapshot(b),
        a.len() > 0,
        forall|r: FileRecord| a.contains(r) <==> b.contains(r),
    ensures
        b.len() > 0,
        a.last() == b.last(),
{
    assert(a[a.len() - 1] == a.last());
    assert(a.contains(a.last()));
    let k = choose|k: int| 0 <= k < b.len() && b[k] == a.last();
    if k < b.len() - 1 {
        assert(b[b.len() - 1] == b.last());
        assert(b.contains(b.last()));
        let j = choose|j: int| 0 <= j < a.len() && a[j] == b.last();
        assert(path_lt(b[k].path, b[b.len() - 1].path));
        lemma_path_lt_asymmetric(b[k].path, b.last().path);
        if j < a.len() - 1 {
            assert(path_lt(a[j].path, a[a.len() - 1].path));
        }
    }
}

/// A snapshot is determined by the records it holds: two snapshots with
/// the same records are the same sequence.
pub proof fn lemma_snapshot_determined(a: Seq<FileRecord>, b: Seq<FileRecord>)
    requires
        is_snapshot(a),
        is_snapshot(b),
        forall|r: FileRecord| a.contains(r) <==> b.contains(r),
    ensures
        a == b,
    decreases a.len(),
{
    if a.len() == 0 {
        if b.len() > 0 {
            assert(b.contains(b[0]));
        }
        assert(a =~= b);
    } else {
        lemma_same_last(a, b);
        lemma_snapshot_drop_last(a);
        lemma_snapshot_drop_last(b);
        lemma_snapshot_paths_distinct(a);
        lemma_snapshot_paths_distinct(b);
        let x = a.drop_last();
        let y = b.drop_last();
        assert forall|r: FileRecord| x.contains(r) <==> y.contains(r) by {
            if x.contains(r) {
                let i = choose|i: int| 0 <= i < x.len() && x[i] == r;
                assert(a[i] == r);
                assert(a.contains(r));
                let m = choose|m: int| 0 <= m < b.len() && b[m] == r;
                if m == b.len() - 1 {
                    assert(a[i].path == a[a.len() - 1].path);
                }
                assert(y[m] == r);
            }
            if y.contains(r) {
                let i = choose|i: int| 0 <= i < y.len() && y[i] == r;
                assert(b[i] == r);
                assert(b.contains(r));
                let m = choose|m: int| 0 <= m < a.len() && a[m] == r;
                if m == a.len() - 1 {
                    assert(b[i].path == b[b.len() - 1].path);
                }
                assert(x[m] == r);
            }
        }
        lemma_snapshot_determined(x, y);
        assert(a =~= x.push(a.last()));
        assert(b =~= y.push(b.last()));
    }
}

/// The first index of `set` whose path does not come before `p`.
pub fn lower_bound(set: &Vec<File>, p: &Vec<u8>) -> (r: usize)
    requires
        is_snapshot(records(set@)),
    ensures
        r <= set.len(),
        forall|j: int| 0 <= j < r ==> path_lt(#[trigger] records(set@)[j].path, p@),
        forall|j: int| r <= j < set.len() ==> !path_lt(#[trigger] records(set@)[j].path, p@),
{
    let ghost recs = records(set@);
    let mut lo: usize = 0;
    let mut hi: usize = set.len();
    while lo < hi
        invariant
            lo <= hi <= set.len(),
            recs == records(set@),
            is_snapshot(recs),
            forall|j: int| 0 <= j < lo ==> path_lt(#[trigger] recs[j].path, p@),
            forall|j: int| hi <= j < set.len() ==> !path_lt(#[trigger] recs[j].path, p@),
        decreases hi - lo,
    {
        let mid: usize = lo + (hi - lo) / 2;
        assert(recs[mid as int].path == set@[mid as int].path@);
        match path_order(&set[mid].path, p) {
            PathOrder::Less => {
                proof {
                    assert forall|j: int| 0 <= j < mid + 1 implies path_lt(
                        #[trigger] recs[j].path,
                        p@,
                    ) by {
                        if j < mid {
                            lemma_path_lt_transitive(recs[j].path, recs[mid as int].path, p@);
                        }
                    }
                }
                lo = mid + 1;
            },
            _ => {
                proof {
                    assert forall|j: int| mid <= j < set.len() implies !path_lt(
                        #[trigger] recs[j].path,
                        p@,
                    ) by {
                        if mid < j && path_lt(recs[j].path, p@) {
                            lemma_path_lt_transitive(recs[mid as int].path, recs[j].path, p@);
                        }
                    }
                }
                hi = mid;
            },
        }
    }
    lo
}

/// Where in `set` the record with the path `p` stands, if there is one.
pub fn find_path(set: &Vec<File>, p: &Vec<u8>) -> (r: Option<usize>)
    requires
        is_snapshot(records(set@)),
    ensures
        r.is_some() <==> has_path(records(set@), p@),
        r matches Some(i) ==> i < set.len() && records(set@)[i as int].path == p@,
{
    let ghost recs = records(set@);
    let i = lower_bound(set, p);
    if i < set.len() {
        assert(recs[i as int].path == set@[i as int].path@);
        match path_order(&set[i].path, p) {
            PathOrder::Equal => {
                return Some(i);
            },
            _ => {},
        }
    }
    proof {
        assert forall|j: int| 0 <= j < recs.len() implies #[trigger] recs[j].path != p@ by {
            if j < i {
                lemma_path_lt_asymmetric(recs[j].path, p@);
            } else if j > i {
                if recs[j].path == p@ {
                    assert(path_lt(recs[i as int].path, recs[j].path));
                }
            }
        }
    }
    None
}

/// Adds `file` to `set` unless a record with its path is there already;
/// says whether it was added. A record that is there already stays as it is.
pub fn insert(set: &mut Vec<File>, file: File) -> (added: bool)
    requires
        is_snapshot(records(old(set)@)),
    ensures
        is_snapshot(records(final(set)@)),
        added == !has_path(records(old(set)@), file@.path),
        !added ==> records(final(set)@) == records(old(set)@),
        added ==> records(final(set)@).len() == records(old(set)@).len() + 1,
        forall|r: FileRecord|
            records(final(set)@).contains(r) <==> records(old(set)@).contains(r) || (added && r == file@),
{
    let ghost before = records(set@);
    let ghost rec = file@;
    let i = lower_bound(set, &file.path);
    if i < set.len() {
        assert(before[i as int].path == set@[i as int].path@);
        match path_order(&set[i].path, &file.path) {
            PathOrder::Equal => {
                return false;
            },
            _ => {},
        }
    }
    proof {
        assert forall|j: int| 0 <= j < before.len() implies #[trigger] before[j].path != rec.path by {
            if j < i {
                lemma_path_lt_asymmetric(before[j].path, rec.path);
            } else if j > i {
                if before[j].path == rec.path {
                    assert(path_lt(before[i as int].path, before[j].path));
                }
            }
        }
        assert forall|j: int| i <= j < before.len() implies path_lt(rec.path, #[trigger] before[j].path) by {
            assert(path_lt(rec.path, before[i as int].path));
            if j > i {
                lemma_path_lt_transitive(rec.path, before[i as int].path, before[j].path);
            }
        }
    }
    set.insert(i, file);
    proof {
        let after = records(set@);
        assert(after =~= before.insert(i as int, rec));
        assert forall|a: int, b: int| 0 <= a < b < after.len() implies path_lt(
            #[trigger] after[a].path,
            #[trigger] after[b].path,
        ) by {
            if b < i {
                assert(after[a] == before[a] && after[b] == before[b]);
            } else if b == i {
                assert(after[a] == before[a]);
            } else if a < i {
                assert(after[a] == before[a] && after[b] == before[b - 1]);
            } else if a == i {
                assert(after[b] == before[b - 1]);
            } else {
                assert(after[a] == before[a - 1] && after[b] == before[b - 1]);
            }
        }
        assert forall|r: FileRecord| after.contains(r) <==> before.contains(r) || r == rec by {
            if after.contains(r) {
                let k = choose|k: int| 0 <= k < after.len() && after[k] == r;
                if k < i {
                    assert(before[k] == r);
                } else if k > i {
                    assert(before[k - 1] == r);
                }
            }
            if before.contains(r) {
                let k = choose|k: int| 0 <= k < before.len() && before[k] == r;
                if k < i {
                    assert(after[k] == r);
                } else {
                    assert(after[k + 1] == r);
                }
            }
            if r == rec {
                assert(after[i as int] == r);
            }
        }
    }
    true
}

/// Moves the records of `other` into `set`. A record of `other` whose path
/// `set` holds already is dropped.
pub fn absorb(set: &mut Vec<File>, other: Vec<File>)
    requires
        is_snapshot(records(old(set)@)),
        is_snapshot(records(other@)),
    ensures
        is_snapshot(records(final(set)@)),
        forall|r: FileRecord| #[trigger]
            records(final(set)@).contains(r) <==> records(old(set)@).contains(r) || (records(
                other@,
            ).contains(r) && !has_path(records(old(set)@), r.path)),
{
    let ghost before = records(set@);
    let ghost extra = records(other@);
    let mut other = other;
    proof {
        lemma_snapshot_paths_distinct(extra);
        assert(extra.take(extra.len() as int) =~= extra);
    }
    while other.len() > 0
        invariant
            is_snapshot(records(set@)),
            other.len() <= extra.len(),
            records(other@) == extra.take(other.len() as int),
            forall|r: FileRecord| #[trigger]
                records(set@).contains(r) <==> before.contains(r) || (extra.skip(
                    other.len() as int,
                ).contains(r) && !has_path(before, r.path)),
            forall|i: int, j: int|
                0 <= i < extra.len() && 0 <= j < extra.len() && #[trigger] extra[i].path
                    == #[trigger] extra[j].path ==> i == j,
        decreases other.len(),
    {
        let ghost sofar = records(set@);
        let ghost m = other.len() - 1;
        let ghost was = other@;
        let file = other.pop().unwrap();
        proof {
            assert(records(was)[m] == file@);
            assert(extra[m] == file@);
            assert(records(other@) =~= extra.take(m));
        }
        let added = insert(set, file);
        proof {
            let rec = extra[m];
            let now = records(set@);
            let tail = extra.skip(m + 1);
            let tail_now = extra.skip(m);
            assert forall|r: FileRecord| tail_now.contains(r) <==> tail.contains(r) || r == rec by {
                if tail_now.contains(r) {
                    let k = choose|k: int| 0 <= k < tail_now.len() && tail_now[k] == r;
                    if k > 0 {
                        assert(tail[k - 1] == r);
                    }
                }
                if tail.contains(r) {
                    let k = choose|k: int| 0 <= k < tail.len() && tail[k] == r;
                    assert(tail_now[k + 1] == r);
                }
                if r == rec {
                    assert(tail_now[0] == r);
                }
            }
            if has_path(sofar, rec.path) && !has_path(before, rec.path) {
                let k = choose|k: int| 0 <= k < sofar.len() && sofar[k].path == rec.path;
                assert(sofar.contains(sofar[k]));
                if before.contains(sofar[k]) {
                    let b = choose|b: int| 0 <= b < before.len() && before[b] == sofar[k];
                    assert(before[b].path == rec.path);
                }
                assert(tail.contains(sofar[k]));
                let t = choose|t: int| 0 <= t < tail.len() && tail[t] == sofar[k];
                assert(extra[m + 1 + t].path == extra[m].path);
            }
            if !has_path(sofar, rec.path) && has_path(before, rec.path) {
                let b = choose|b: int| 0 <= b < before.len() && before[b].path == rec.path;
                assert(before.contains(before[b]));
                assert(sofar.contains(before[b]));
                let k = choose|k: int| 0 <= k < sofar.len() && sofar[k] == before[b];
                assert(sofar[k].path == rec.path);
            }
            assert(added == !has_path(before, rec.path));
            assert forall|r: FileRecord| #[trigger]
                now.contains(r) <==> before.contains(r) || (tail_now.contains(r) && !has_path(
                    before,
                    r.path,
                )) by {
                assert(sofar.contains(r) <==> before.contains(r) || (tail.contains(r) && !has_path(
                    before,
                    r.path,
                )));
            }
        }
    }
    proof {
        assert(extra.skip(0) =~= extra);
    }
}

} // verus!
