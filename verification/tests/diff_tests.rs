use dirwatch::diff::{collect, diff, gives_event};
use dirwatch::file_scanner::FileScanner;
use dirwatch::model::{Event, EventType, File, Timestamp};
use dirwatch::snapshot::insert;
use dirwatch::walker::Listing;

fn ts(secs: i64) -> Timestamp {
    Timestamp { secs, nanos: 0 }
}

fn file(path: &str, secs: i64) -> File {
    File { path: path.as_bytes().to_vec(), last_mod_date: ts(secs) }
}

fn snapshot(items: &[(&str, i64)]) -> Vec<File> {
    let mut set = Vec::new();
    for (p, t) in items {
        insert(&mut set, file(p, *t));
    }
    set
}

fn listing(items: &[(&str, i64)]) -> Listing {
    Listing { dirs: Vec::new(), files: snapshot(items) }
}

fn shape(events: &[Event]) -> Vec<(EventType, String, i64)> {
    events
        .iter()
        .map(|e| (e.ev_type, String::from_utf8(e.file.path.clone()).unwrap(), e.file.last_mod_date.secs))
        .collect()
}

#[test]
fn scenario_delete_and_create() {
    let mut scanner = FileScanner::new(&b"/t".to_vec());
    let first = scanner.read_and_compare(vec![listing(&[("/t/a.txt", 1), ("/t/b.txt", 2)])]);
    assert_eq!(first.len(), 2);
    let events = scanner.read_and_compare(vec![listing(&[("/t/b.txt", 2), ("/t/c.txt", 3)])]);
    let got = shape(&events);
    assert_eq!(
        got,
        vec![
            (EventType::NEW, "/t/c.txt".to_string(), 3),
            (EventType::DEL, "/t/a.txt".to_string(), 1),
        ]
    );
    assert!(got.iter().all(|e| e.1 != "/t/b.txt"));
}

#[test]
fn scenario_rewrite_gives_one_modified() {
    let mut scanner = FileScanner::new(&b"/t".to_vec());
    scanner.read_and_compare(vec![listing(&[("/t/a.txt", 100)])]);
    let events = scanner.read_and_compare(vec![listing(&[("/t/a.txt", 200)])]);
    assert_eq!(shape(&events), vec![(EventType::MOD, "/t/a.txt".to_string(), 200)]);
}

#[test]
fn modified_by_nanoseconds_alone() {
    let prev = vec![File { path: b"/t/a".to_vec(), last_mod_date: Timestamp { secs: 5, nanos: 1 } }];
    let curr = vec![File { path: b"/t/a".to_vec(), last_mod_date: Timestamp { secs: 5, nanos: 2 } }];
    let events = diff(&prev, &curr);
    assert_eq!(events.len(), 1);
    assert_eq!(events[0].ev_type, EventType::MOD);
    assert_eq!(events[0].file.last_mod_date, Timestamp { secs: 5, nanos: 2 });
}

#[test]
fn second_scan_of_unchanged_tree_is_silent() {
    let mut scanner = FileScanner::new(&b"/t".to_vec());
    let tree = [("/t/a", 1), ("/t/b", 2), ("/t/sub/c", 3)];
    let first = scanner.read_and_compare(vec![listing(&tree)]);
    assert_eq!(first.len(), 3);
    let second = scanner.read_and_compare(vec![listing(&tree)]);
    assert!(second.is_empty());
    let third = scanner.read_and_compare(vec![listing(&tree)]);
    assert!(third.is_empty());
}

#[test]
fn each_changed_path_gives_exactly_one_event() {
    let prev = snapshot(&[("/t/a", 1), ("/t/b", 1), ("/t/c", 1), ("/t/d", 1)]);
    let curr = snapshot(&[("/t/b", 1), ("/t/c", 9), ("/t/e", 1), ("/t/f", 1)]);
    let got = shape(&diff(&prev, &curr));
    assert_eq!(
        got,
        vec![
            (EventType::NEW, "/t/e".to_string(), 1),
            (EventType::NEW, "/t/f".to_string(), 1),
            (EventType::DEL, "/t/a".to_string(), 1),
            (EventType::DEL, "/t/d".to_string(), 1),
            (EventType::MOD, "/t/c".to_string(), 9),
        ]
    );
    for p in ["/t/a", "/t/c", "/t/d", "/t/e", "/t/f"] {
        assert_eq!(got.iter().filter(|e| e.1 == p).count(), 1);
    }
    assert_eq!(got.iter().filter(|e| e.1 == "/t/b").count(), 0);
}

#[test]
fn rename_is_a_delete_and_a_create() {
    let prev = snapshot(&[("/t/x", 7)]);
    let curr = snapshot(&[("/t/y", 7)]);
    let got = shape(&diff(&prev, &curr));
    assert_eq!(
        got,
        vec![(EventType::NEW, "/t/y".to_string(), 7), (EventType::DEL, "/t/x".to_string(), 7)]
    );
}

#[test]
fn diff_of_empty_snapshots_is_empty() {
    let empty: Vec<File> = Vec::new();
    assert!(diff(&empty, &empty).is_empty());
    let one = snapshot(&[("/t/a", 1)]);
    assert_eq!(shape(&diff(&empty, &one)), vec![(EventType::NEW, "/t/a".to_string(), 1)]);
    assert_eq!(shape(&diff(&one, &empty)), vec![(EventType::DEL, "/t/a".to_string(), 1)]);
}

#[test]
fn gives_event_goes_by_kind() {
    let other = snapshot(&[("/t/a", 1), ("/t/b", 2)]);
    assert!(gives_event(EventType::NEW, &file("/t/c", 1), &other));
    assert!(gives_event(EventType::DEL, &file("/t/c", 1), &other));
    assert!(!gives_event(EventType::MOD, &file("/t/c", 1), &other));
    assert!(!gives_event(EventType::NEW, &file("/t/a", 5), &other));
    assert!(gives_event(EventType::MOD, &file("/t/a", 5), &other));
    assert!(!gives_event(EventType::MOD, &file("/t/a", 1), &other));
}

#[test]
fn collect_appends_to_what_is_there() {
    let prev = snapshot(&[("/t/a", 1)]);
    let curr = snapshot(&[("/t/a", 1), ("/t/b", 2)]);
    let mut out = vec![Event { ev_type: EventType::DEL, file: file("/t/z", 0) }];
    collect(EventType::NEW, &curr, &prev, &mut out);
    assert_eq!(
        shape(&out),
        vec![(EventType::DEL, "/t/z".to_string(), 0), (EventType::NEW, "/t/b".to_string(), 2)]
    );
}

#[test]
fn event_labels() {
    assert_eq!(EventType::NEW.label(), "NEW");
    assert_eq!(EventType::MOD.label(), "MOD");
    assert_eq!(EventType::DEL.label(), "DEL");
}
