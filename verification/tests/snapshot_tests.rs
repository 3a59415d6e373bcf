use dirwatch::model::{copy_bytes, DBuffer, File, Timestamp};
use dirwatch::paths::{path_order, PathOrder};
use dirwatch::snapshot::{absorb, find_path, insert, lower_bound};
use std::path::Path;

fn file(path: &str, secs: i64) -> File {
    File { path: path.as_bytes().to_vec(), last_mod_date: Timestamp { secs, nanos: 0 } }
}

fn paths(set: &[File]) -> Vec<String> {
    set.iter().map(|f| String::from_utf8(f.path.clone()).unwrap()).collect()
}

fn order(a: &str, b: &str) -> PathOrder {
    path_order(&a.as_bytes().to_vec(), &b.as_bytes().to_vec())
}

#[test]
fn path_order_basic() {
    assert_eq!(order("/a", "/b"), PathOrder::Less);
    assert_eq!(order("/b", "/a"), PathOrder::Greater);
    assert_eq!(order("/a", "/a"), PathOrder::Equal);
    assert_eq!(order("", ""), PathOrder::Equal);
    assert_eq!(order("", "/"), PathOrder::Less);
    assert_eq!(order("/a", "/a/b"), PathOrder::Less);
    assert_eq!(order("/a/b", "/a"), PathOrder::Greater);
}

#[test]
fn separator_ranks_below_every_other_byte() {
    assert_eq!(order("/a/b", "/a.b"), PathOrder::Less);
    assert_eq!(order("/a/b", "/a-b"), PathOrder::Less);
    assert_eq!(order("/a/z", "/a b"), PathOrder::Less);
    assert_eq!(order("/a.b", "/a/b"), PathOrder::Greater);
}

#[test]
fn path_order_agrees_with_component_order() {
    let samples = [
        "/", "/a", "/a/b", "/a.b", "/a-b", "/a/b/c", "/ab", "/a b", "/b", "/a/b.txt", "/a/b/c.txt",
        "/A", "/a!", "/a/!",
    ];
    for a in samples {
        for b in samples {
            let expected = match Path::new(a).cmp(Path::new(b)) {
                std::cmp::Ordering::Less => PathOrder::Less,
                std::cmp::Ordering::Equal => PathOrder::Equal,
                std::cmp::Ordering::Greater => PathOrder::Greater,
            };
            assert_eq!(order(a, b), expected, "{} against {}", a, b);
        }
    }
}

#[test]
fn insert_keeps_path_order_and_one_record_per_path() {
    let mut set: Vec<File> = Vec::new();
    assert!(insert(&mut set, file("/t/m", 1)));
    assert!(insert(&mut set, file("/t/a", 2)));
    assert!(insert(&mut set, file("/t/z", 3)));
    assert!(insert(&mut set, file("/t/m/x", 4)));
    assert!(insert(&mut set, file("/t/m.x", 5)));
    assert_eq!(paths(&set), vec!["/t/a", "/t/m", "/t/m/x", "/t/m.x", "/t/z"]);
    assert!(!insert(&mut set, file("/t/m", 99)));
    assert_eq!(set.len(), 5);
    assert_eq!(set[1].last_mod_date.secs, 1);
}

#[test]
fn lower_bound_and_find_path() {
    let mut set: Vec<File> = Vec::new();
    for p in ["/t/b", "/t/d", "/t/f"] {
        insert(&mut set, file(p, 0));
    }
    assert_eq!(lower_bound(&set, &b"/t/a".to_vec()), 0);
    assert_eq!(lower_bound(&set, &b"/t/b".to_vec()), 0);
    assert_eq!(lower_bound(&set, &b"/t/c".to_vec()), 1);
    assert_eq!(lower_bound(&set, &b"/t/f".to_vec()), 2);
    assert_eq!(lower_bound(&set, &b"/t/g".to_vec()), 3);
    assert_eq!(find_path(&set, &b"/t/d".to_vec()), Some(1));
    assert_eq!(find_path(&set, &b"/t/e".to_vec()), None);
    assert_eq!(find_path(&Vec::new(), &b"/t/e".to_vec()), None);
}

#[test]
fn absorb_drops_paths_already_held() {
    let mut set: Vec<File> = Vec::new();
    insert(&mut set, file("/t/a", 1));
    insert(&mut set, file("/t/c", 1));
    let mut other: Vec<File> = Vec::new();
    insert(&mut other, file("/t/b", 2));
    insert(&mut other, file("/t/c", 2));
    insert(&mut other, file("/t/d", 2));
    absorb(&mut set, other);
    assert_eq!(paths(&set), vec!["/t/a", "/t/b", "/t/c", "/t/d"]);
    let times: Vec<i64> = set.iter().map(|f| f.last_mod_date.secs).collect();
    assert_eq!(times, vec![1, 2, 1, 2]);
}

#[test]
fn full_equality_takes_both_fields() {
    assert!(file("/t/a", 1) == file("/t/a", 1));
    assert!(file("/t/a", 1) != file("/t/a", 2));
    assert!(file("/t/a", 1) != file("/t/b", 1));
    let a = File { path: b"/t/a".to_vec(), last_mod_date: Timestamp { secs: 1, nanos: 0 } };
    let b = File { path: b"/t/a".to_vec(), last_mod_date: Timestamp { secs: 1, nanos: 1 } };
    assert!(a != b);
    let c = a.clone();
    assert!(a == c);
}

#[test]
fn key_order_goes_by_path_alone() {
    assert_eq!(file("/t/a", 1).key_order(&file("/t/a", 2)), PathOrder::Equal);
    assert_eq!(file("/t/a", 9).key_order(&file("/t/b", 1)), PathOrder::Less);
    assert_eq!(file("/t/b", 1).key_order(&file("/t/a", 9)), PathOrder::Greater);
}

#[test]
fn relative_path_below_base() {
    let f = file("/home/u/inbox/sub/a.txt", 0);
    assert_eq!(f.get_relative_path(&b"/home/u/inbox".to_vec()), b"sub/a.txt".to_vec());
    assert_eq!(f.get_relative_path(&b"/home".to_vec()), b"u/inbox/sub/a.txt".to_vec());
    assert_eq!(f.get_relative_path(&b"/".to_vec()), b"home/u/inbox/sub/a.txt".to_vec());
}

#[test]
fn copy_bytes_copies() {
    assert_eq!(copy_bytes(&b"/t/a".to_vec()), b"/t/a".to_vec());
    assert_eq!(copy_bytes(&Vec::new()), Vec::<u8>::new());
}

#[test]
fn buffer_starts_empty_with_first_slot_current() {
    let mut b: DBuffer<u32> = DBuffer::new();
    assert_eq!(b.prev_buff(), 1);
    assert!(b.get_curr().is_empty());
    let (prev, curr) = b.get_buffers();
    assert!(prev.is_empty());
    assert!(curr.is_empty());
}

#[test]
fn buffer_rotation_swaps_roles_and_clears() {
    let mut b: DBuffer<u32> = DBuffer::new();
    b.get_curr().push(1);
    b.get_curr().push(2);
    {
        let (prev, curr) = b.get_buffers();
        assert!(prev.is_empty());
        assert_eq!(curr, &vec![1, 2]);
    }
    b.next();
    assert_eq!(b.prev_buff(), 0);
    {
        let (prev, curr) = b.get_buffers();
        assert_eq!(prev, &vec![1, 2]);
        assert!(curr.is_empty());
    }
    b.get_curr().push(3);
    b.next();
    assert_eq!(b.prev_buff(), 1);
    let (prev, curr) = b.get_buffers();
    assert_eq!(prev, &vec![3]);
    assert!(curr.is_empty());
}

#[test]
fn buffer_rotation_keeps_storage() {
    let mut b: DBuffer<u64> = DBuffer::new();
    for round in 0..6u64 {
        b.next();
        for i in 0..100u64 {
            b.get_curr().push(round * 100 + i);
        }
    }
    let first = b.get_curr().capacity();
    for round in 0..50u64 {
        b.next();
        for i in 0..100u64 {
            b.get_curr().push(round + i);
        }
    }
    assert_eq!(b.get_curr().capacity(), first);
    let (prev, curr) = b.get_buffers();
    assert_eq!(prev.len(), 100);
    assert_eq!(curr.len(), 100);
}
