use everyfile::index::{
    archive_name, checkpoint_from_row, committed_from_rows, coverage_from_text, coverage_report,
    coverage_text, find_root, from_stored, judge_store, kind_from_i64, opened_time, prepare_commit,
    published_generation, to_stored, CommittedIndex, RootRow, StoreVerdict,
};
use everyfile::model::{Coverage, EntryKind, IndexedEntry, SkippedLocation};
use everyfile::paths::FilePath;
use everyfile::reconciliation::{plan_stream_start, RecoveryPlan};
use everyfile::scanner::ScanReport;

fn report() -> ScanReport {
    ScanReport {
        root: FilePath::new("/root"),
        volume_id: u64::MAX - 3,
        entries: vec![IndexedEntry {
            entry_id: u64::MAX,
            volume_id: u64::MAX - 3,
            name: "report.txt".into(),
            path: FilePath::new("/root/report.txt"),
            kind: EntryKind::Symlink,
            size: 1 << 63,
            created_ns: Some(-1),
            modified_ns: None,
            hidden: true,
        }],
        skipped: vec![SkippedLocation {
            path: FilePath::new("/root/denied"),
            reason: "permission denied".into(),
        }],
    }
}

#[test]
fn a_commit_reads_back_what_was_reported() {
    let report = report();
    let commit = prepare_commit(42, &report, Coverage::Partial, None);
    assert_eq!(commit.checkpoint, None);
    assert_eq!(commit.root.generation, 42);
    assert_eq!(commit.root.coverage, "partial");
    assert_eq!(commit.entries[0].entry_id, -1);
    assert_eq!(commit.entries[0].size, i64::MIN);
    assert_eq!(commit.entries[0].kind, 3);
    assert_eq!(commit.skipped[0].generation, 42);
    let committed = committed_from_rows(commit.root, commit.entries, commit.skipped);
    assert_eq!(committed.generation, 42);
    assert_eq!(committed.volume_id, report.volume_id);
    assert_eq!(committed.root, report.root);
    assert_eq!(committed.coverage, Coverage::Partial);
    assert_eq!(committed.entries, report.entries);
    assert_eq!(committed.skipped, report.skipped);
}

#[test]
fn a_checkpoint_is_committed_with_its_generation() {
    let commit = prepare_commit(42, &report(), Coverage::Complete, Some(("volume-identity", 99)));
    let row = commit.checkpoint.unwrap();
    assert_eq!(row.generation, commit.root.generation);
    let checkpoint = checkpoint_from_row(row);
    assert_eq!(checkpoint.event_id, 99);
    assert_eq!(checkpoint.generation, 42);
    assert_eq!(checkpoint.root, FilePath::new("/root"));
    assert_eq!(
        plan_stream_start(Some(&checkpoint), "volume-identity", 42),
        RecoveryPlan::Replay { since_event_id: 99 }
    );
}

#[test]
fn words_and_numbers_read_back() {
    for value in [0, 1, u64::MAX, 1 << 63] {
        assert_eq!(from_stored(to_stored(value)), value);
    }
    assert_eq!(coverage_text(Coverage::Complete), "complete");
    assert_eq!(coverage_from_text("complete"), Coverage::Complete);
    assert_eq!(coverage_from_text("partial"), Coverage::Partial);
    assert_eq!(coverage_from_text("Complete"), Coverage::Partial);
    for kind in [
        EntryKind::File,
        EntryKind::Directory,
        EntryKind::Symlink,
        EntryKind::Other,
    ] {
        assert_eq!(kind_from_i64(kind.as_i64()), kind);
    }
    assert_eq!(kind_from_i64(0), EntryKind::Other);
}

#[test]
fn times_of_openings_are_clamped() {
    assert_eq!(opened_time(5), 5);
    assert_eq!(opened_time(i64::MAX as u128), i64::MAX);
    assert_eq!(opened_time(u128::MAX), i64::MAX);
}

#[test]
fn a_root_is_found_among_committed_ones() {
    let index = |generation, root: &str| CommittedIndex {
        generation,
        volume_id: 4,
        root: FilePath::new(root),
        coverage: Coverage::Partial,
        entries: vec![],
        skipped: report().skipped,
    };
    let all = || vec![index(1, "/a"), index(2, "/b/"), index(3, "/b")];
    let found = find_root(all(), &FilePath::new("/b")).unwrap();
    assert_eq!(found.generation, 2);
    let summary = coverage_report(found);
    assert_eq!(summary.volume_id, 4);
    assert_eq!(summary.root, FilePath::new("/b"));
    assert_eq!(summary.coverage, Coverage::Partial);
    assert_eq!(summary.skipped, report().skipped);
    assert!(find_root(all(), &FilePath::new("/c")).is_none());
}

#[test]
fn stores_are_judged_before_they_are_used() {
    assert_eq!(judge_store("ok", 0), StoreVerdict::Sound);
    assert_eq!(judge_store("ok", 1), StoreVerdict::Sound);
    assert_eq!(judge_store("ok", 2), StoreVerdict::TooNew);
    assert_eq!(judge_store("*** in database main ***", 2), StoreVerdict::Damaged);
    assert_eq!(archive_name(1700), "index.damaged-1700.sqlite3");
}

#[test]
fn rows_may_come_back_in_another_order() {
    let mut report = report();
    for (id, name) in [(3u64, "b"), (4, "a"), (5, "a b")] {
        report.entries.push(IndexedEntry {
            entry_id: id,
            volume_id: report.volume_id,
            name: name.into(),
            path: FilePath::new(&format!("/root/{name}")),
            kind: EntryKind::File,
            size: id,
            created_ns: None,
            modified_ns: Some(1),
            hidden: false,
        });
    }
    let mut commit = prepare_commit(7, &report, Coverage::Complete, None);
    commit.entries.sort_by(|left, right| left.full_path.cmp(&right.full_path));
    let committed = committed_from_rows(commit.root, commit.entries, commit.skipped);
    let names: Vec<_> = committed.entries.iter().map(|entry| entry.name.as_str()).collect();
    assert_eq!(names, vec!["a", "a b", "b", "report.txt"]);
    for entry in &report.entries {
        assert!(committed.entries.contains(entry));
    }
}

#[test]
fn checkpoints_of_different_roots_have_different_keys() {
    let mut other = report();
    other.volume_id = 3;
    let key = |report: &ScanReport| {
        let commit = prepare_commit(1, report, Coverage::Complete, Some(("stream", 1)));
        let row = commit.checkpoint.unwrap();
        (row.volume_id, row.root_path)
    };
    assert_eq!(key(&report()), key(&report()));
    assert_ne!(key(&report()), key(&other));
    other.volume_id = report().volume_id;
    other.root = FilePath::new("/other");
    assert_ne!(key(&report()), key(&other));
}

#[test]
fn the_greatest_generation_is_published() {
    let row = |generation: u64| RootRow {
        generation: to_stored(generation),
        volume_id: 1,
        root_path: "/root".into(),
        coverage: "complete".into(),
    };
    assert_eq!(published_generation(&[]), None);
    assert_eq!(published_generation(&[row(4), row(9), row(2)]), Some(9));
    assert_eq!(published_generation(&[row(u64::MAX), row(1)]), Some(u64::MAX));
}
