use dirwatch::file_scanner::{copy_files, FileScanner};
use dirwatch::model::{File, Timestamp};
use dirwatch::walker::{read_path, DirEntry, EntryKind, Listing, Metadata, ScanError};

fn entry(path: &str, kind: EntryKind) -> DirEntry {
    DirEntry { path: path.as_bytes().to_vec(), kind }
}

fn modified(secs: i64) -> EntryKind {
    EntryKind::Regular(Metadata::Modified(Timestamp { secs, nanos: 0 }))
}

fn file(path: &str, secs: i64) -> File {
    File { path: path.as_bytes().to_vec(), last_mod_date: Timestamp { secs, nanos: 0 } }
}

fn names(set: &[File]) -> Vec<(String, i64)> {
    set.iter().map(|f| (String::from_utf8(f.path.clone()).unwrap(), f.last_mod_date.secs)).collect()
}

#[test]
fn read_path_sorts_entries_by_kind() {
    let entries = vec![
        entry("/t/sub", EntryKind::Directory),
        entry("/t/b.txt", modified(2)),
        entry("/t/link", EntryKind::Symlink),
        entry("/t/a.txt", modified(1)),
        entry("/t/other", EntryKind::Directory),
        entry("/t/sock", EntryKind::Other),
    ];
    let listing = read_path(&entries).unwrap();
    assert_eq!(listing.dirs, vec![b"/t/sub".to_vec(), b"/t/other".to_vec()]);
    assert_eq!(names(&listing.files), vec![("/t/a.txt".to_string(), 1), ("/t/b.txt".to_string(), 2)]);
}

#[test]
fn symbolic_links_are_never_recorded() {
    let entries = vec![
        entry("/t/to_file", EntryKind::Symlink),
        entry("/t/to_dir", EntryKind::Symlink),
        entry("/t/dangling", EntryKind::Symlink),
    ];
    let listing = read_path(&entries).unwrap();
    assert!(listing.files.is_empty());
    assert!(listing.dirs.is_empty());
}

#[test]
fn scenario_entry_vanishes_before_metadata() {
    let entries = vec![
        entry("/t/a.txt", modified(1)),
        entry("/t/.a.txt.swp", EntryKind::Regular(Metadata::Unreadable)),
        entry("/t/b.txt", modified(2)),
    ];
    let listing = read_path(&entries).unwrap();
    assert_eq!(names(&listing.files), vec![("/t/a.txt".to_string(), 1), ("/t/b.txt".to_string(), 2)]);
}

#[test]
fn missing_modification_time_ends_the_scan() {
    let entries = vec![
        entry("/t/a.txt", modified(1)),
        entry("/t/b.txt", EntryKind::Regular(Metadata::NoModTime)),
        entry("/t/c.txt", modified(3)),
    ];
    assert_eq!(read_path(&entries).unwrap_err(), ScanError::NoModificationTime);
}

#[test]
fn read_path_of_empty_directory() {
    let listing = read_path(&Vec::new()).unwrap();
    assert!(listing.dirs.is_empty());
    assert!(listing.files.is_empty());
}

#[test]
fn read_path_keeps_first_of_a_repeated_path() {
    let entries = vec![entry("/t/a", modified(1)), entry("/t/a", modified(2))];
    let listing = read_path(&entries).unwrap();
    assert_eq!(names(&listing.files), vec![("/t/a".to_string(), 1)]);
}

#[test]
fn walk_fills_current_and_hands_back_directories() {
    let mut scanner = FileScanner::new(&b"/t".to_vec());
    assert_eq!(scanner.folder(), &b"/t".to_vec());
    let root = read_path(&vec![entry("/t/sub", EntryKind::Directory), entry("/t/a", modified(1))]).unwrap();
    let next = scanner.read_path_recursive(root);
    assert_eq!(next, vec![b"/t/sub".to_vec()]);
    let sub = read_path(&vec![entry("/t/sub/b", modified(2))]).unwrap();
    let next = scanner.read_path_recursive(sub);
    assert!(next.is_empty());
    assert_eq!(
        names(&scanner.get_curr_read_copy()),
        vec![("/t/a".to_string(), 1), ("/t/sub/b".to_string(), 2)]
    );
    assert!(scanner.get_prev_read_copy().is_empty());
}

#[test]
fn snapshot_holds_one_record_per_path() {
    let mut scanner = FileScanner::new(&b"/t".to_vec());
    scanner.read_path_recursive(Listing { dirs: vec![], files: vec![file("/t/a", 1), file("/t/b", 1)] });
    scanner.read_path_recursive(Listing { dirs: vec![], files: vec![file("/t/a", 2), file("/t/c", 2)] });
    assert_eq!(
        names(&scanner.get_curr_read_copy()),
        vec![("/t/a".to_string(), 1), ("/t/b".to_string(), 1), ("/t/c".to_string(), 2)]
    );
}

#[test]
fn cycle_takes_listings_of_every_directory() {
    let mut scanner = FileScanner::new(&b"/t".to_vec());
    let events = scanner.read_and_compare(vec![
        Listing { dirs: vec![b"/t/sub".to_vec()], files: vec![file("/t/a", 1)] },
        Listing { dirs: vec![], files: vec![file("/t/sub/b", 2)] },
    ]);
    assert_eq!(events.len(), 2);
    assert_eq!(
        names(&scanner.get_curr_read_copy()),
        vec![("/t/a".to_string(), 1), ("/t/sub/b".to_string(), 2)]
    );
    assert!(scanner.get_prev_read_copy().is_empty());
}

#[test]
fn scenario_previous_is_the_last_finished_scan() {
    let mut scanner = FileScanner::new(&b"/t".to_vec());
    scanner.read_and_compare(vec![Listing { dirs: vec![], files: vec![file("/t/a", 1)] }]);
    scanner.read_and_compare(vec![Listing {
        dirs: vec![],
        files: vec![file("/t/a", 1), file("/t/b", 2)],
    }]);
    assert_eq!(names(&scanner.get_prev_read_copy()), vec![("/t/a".to_string(), 1)]);
    assert_eq!(
        names(&scanner.get_curr_read_copy()),
        vec![("/t/a".to_string(), 1), ("/t/b".to_string(), 2)]
    );
    // a walk that is under way fills the current slot only
    scanner.read_path_recursive(Listing { dirs: vec![], files: vec![file("/t/c", 3)] });
    assert_eq!(names(&scanner.get_prev_read_copy()), vec![("/t/a".to_string(), 1)]);
}

#[test]
fn copy_files_copies_every_record() {
    let files = vec![file("/t/a", 1), file("/t/b", 2)];
    assert_eq!(names(&copy_files(&files)), vec![("/t/a".to_string(), 1), ("/t/b".to_string(), 2)]);
    assert!(copy_files(&Vec::new()).is_empty());
}
