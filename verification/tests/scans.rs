use everyfile::coordinator::coverage_for_skips;
use everyfile::model::{Coverage, EntryKind};
use everyfile::paths::FilePath;
use everyfile::scanner::{stable_entry_id, system_time_ns, Observation, ScanSession};

fn seen(name: &str, device: u64, inode: u64) -> Observation {
    Observation {
        name: name.into(),
        device,
        inode,
        is_symlink: false,
        is_directory: false,
        is_file: true,
        size: 6,
        created_ns: None,
        modified_ns: Some(3),
    }
}

fn directory(name: &str, device: u64, inode: u64) -> Observation {
    Observation {
        is_directory: true,
        is_file: false,
        ..seen(name, device, inode)
    }
}

#[test]
fn directories_are_enumerated_in_turn_and_links_are_not_followed() {
    let mut scan = ScanSession::new(FilePath::new("/root"), 5);
    assert_eq!(scan.next_directory(), Some(FilePath::new("/root")));
    assert_eq!(scan.observe(directory("folder", 5, 1)), Some(1));
    let link = Observation {
        is_symlink: true,
        ..directory("folder-link", 5, 2)
    };
    assert_eq!(scan.observe(link), Some(2));
    assert_eq!(scan.next_directory(), Some(FilePath::new("/root/folder")));
    assert_eq!(scan.observe(seen("report.txt", 5, 3)), Some(3));
    assert_eq!(scan.next_directory(), None);
    let report = scan.finish();
    let found: Vec<_> = report
        .entries
        .iter()
        .map(|entry| (entry.path.as_str(), entry.kind))
        .collect();
    assert_eq!(
        found,
        vec![
            ("/root/folder", EntryKind::Directory),
            ("/root/folder/report.txt", EntryKind::File),
            ("/root/folder-link", EntryKind::Symlink),
        ]
    );
    assert_eq!(report.coverage(), Coverage::Complete);
}

#[test]
fn what_cannot_be_seen_is_skipped_and_the_rest_is_indexed() {
    let mut scan = ScanSession::new(FilePath::new("/root"), 5);
    scan.next_directory();
    scan.observe(directory("denied", 5, 1));
    scan.description_failed("hidden.txt", "metadata denied".into());
    scan.observe(seen("accessible.txt", 5, 2));
    assert_eq!(scan.observe(directory("mounted", 6, 2)), None);
    scan.next_directory();
    scan.listing_failed("permission denied".into());
    assert_eq!(scan.next_directory(), None);
    let report = scan.finish();
    assert_eq!(report.coverage(), Coverage::Partial);
    assert_eq!(report.entries.len(), 2);
    let skipped: Vec<_> = report
        .skipped
        .iter()
        .map(|location| (location.path.as_str(), location.reason.as_str()))
        .collect();
    assert_eq!(
        skipped,
        vec![
            ("/root/hidden.txt", "metadata denied"),
            ("/root/mounted", "mount boundary"),
            ("/root/denied", "permission denied"),
        ]
    );
}

#[test]
fn an_entry_tells_what_was_observed() {
    let mut scan = ScanSession::new(FilePath::new("/"), 5);
    scan.next_directory();
    let pipe = Observation {
        is_file: false,
        ..seen(".pipe", 5, 77)
    };
    scan.observe(pipe);
    let report = scan.finish();
    let entry = &report.entries[0];
    assert_eq!(entry.entry_id, stable_entry_id(5, 77));
    assert_eq!(entry.volume_id, 5);
    assert_eq!(entry.name, ".pipe");
    assert_eq!(entry.path.as_str(), "/.pipe");
    assert_eq!(entry.kind, EntryKind::Other);
    assert_eq!(entry.size, 6);
    assert_eq!(entry.created_ns, None);
    assert_eq!(entry.modified_ns, Some(3));
    assert!(entry.hidden);
}

#[test]
fn identifiers_rotate_the_volume() {
    for volume in [0, 1, 0x8000_0000_0000_0001, u64::MAX, 0x1234_5678_9ABC_DEF0] {
        for inode in [0, 2, u64::MAX] {
            assert_eq!(stable_entry_id(volume, inode), volume.rotate_left(17) ^ inode);
        }
    }
    assert_ne!(stable_entry_id(9, 1), stable_entry_id(9, 2));
}

#[test]
fn times_fit_or_are_missing() {
    assert_eq!(system_time_ns(None), None);
    assert_eq!(system_time_ns(Some(0)), Some(0));
    assert_eq!(system_time_ns(Some(i64::MAX as u128)), Some(i64::MAX));
    assert_eq!(system_time_ns(Some(i64::MAX as u128 + 1)), None);
}

#[test]
fn coverage_is_complete_without_skips() {
    assert_eq!(coverage_for_skips(0), Coverage::Complete);
    assert_eq!(coverage_for_skips(1), Coverage::Partial);
}
