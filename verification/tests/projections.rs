use std::collections::HashMap;

use everyfile::index::CommittedIndex;
use everyfile::model::{Coverage, EntryKind, IndexedEntry, SkippedLocation};
use everyfile::paths::FilePath;
use everyfile::projection::{combine, ProjectionError, SearchProjection};
use everyfile::query::{CancellationToken, SortDirection, SortField, SortOrder};

fn entry(id: u64, name: &str, path: &str) -> IndexedEntry {
    IndexedEntry {
        entry_id: id,
        volume_id: 7,
        name: name.into(),
        path: FilePath::new(path),
        kind: EntryKind::File,
        size: 0,
        created_ns: None,
        modified_ns: None,
        hidden: name.starts_with('.'),
    }
}

fn committed(generation: u64, entries: Vec<IndexedEntry>) -> CommittedIndex {
    CommittedIndex {
        generation,
        volume_id: 7,
        root: FilePath::new("/root"),
        coverage: Coverage::Complete,
        entries,
        skipped: Vec::new(),
    }
}

fn refusal(bytes: &[u8], expected: Option<u64>) -> Option<ProjectionError> {
    SearchProjection::open(bytes, expected).err()
}

#[test]
fn an_image_has_the_documented_layout() {
    let mut only = entry(0x0102, "Ä", "/Ä");
    only.size = 5;
    only.created_ns = Some(-1);
    let bytes = SearchProjection::build(&committed(3, vec![only]));
    let mut expected: Vec<u8> = Vec::new();
    expected.extend_from_slice(b"EVFLIDX\0");
    expected.extend_from_slice(&4u32.to_le_bytes());
    expected.extend_from_slice(&3u64.to_le_bytes());
    expected.extend_from_slice(&1u32.to_le_bytes());
    expected.extend_from_slice(&0x0102u64.to_le_bytes());
    expected.extend_from_slice(&5u64.to_le_bytes());
    expected.extend_from_slice(&(-1i64).to_le_bytes());
    expected.extend_from_slice(&i64::MIN.to_le_bytes());
    expected.extend_from_slice(&2u32.to_le_bytes());
    expected.extend_from_slice(&3u32.to_le_bytes());
    expected.extend_from_slice(&1u32.to_le_bytes());
    expected.extend_from_slice(&2u32.to_le_bytes());
    expected.push(0);
    expected.extend_from_slice("Ä/Äa/a".as_bytes());
    assert_eq!(bytes, expected);
}

#[test]
fn an_image_reads_back_what_it_was_written_from() {
    let mut first = entry(11, "Budget.txt", "/root/Quarterly Reports/Budget.txt");
    first.size = u64::MAX;
    first.created_ns = Some(-5);
    first.modified_ns = Some(i64::MAX);
    let second = entry(12, "Quarterly Reports", "/root/Quarterly Reports");
    let index = committed(9, vec![first, second]);
    let bytes = SearchProjection::build(&index);
    let projection = SearchProjection::open(&bytes, Some(9)).unwrap();
    assert_eq!(projection.generation(), 9);
    assert_eq!(projection.search("quarterly", 100).len(), 2);
    let rows = projection.search("budget", 100);
    assert_eq!(rows.len(), 1);
    assert_eq!(rows[0].entry_id, 11);
    assert_eq!(rows[0].name, "Budget.txt");
    assert_eq!(rows[0].path.as_str(), "/root/Quarterly Reports/Budget.txt");
    assert_eq!(rows[0].size, u64::MAX);
    assert_eq!(rows[0].created_ns, Some(-5));
    assert_eq!(rows[0].modified_ns, Some(i64::MAX));
}

#[test]
fn the_smallest_time_reads_back_as_a_missing_one() {
    let mut only = entry(1, "a", "/a");
    only.modified_ns = Some(i64::MIN);
    let bytes = SearchProjection::build(&committed(1, vec![only]));
    let projection = SearchProjection::open(&bytes, None).unwrap();
    assert_eq!(projection.search("a", 1)[0].modified_ns, None);
}

#[test]
fn every_defect_of_an_image_is_named() {
    let bytes = SearchProjection::build(&committed(3, vec![entry(1, "ab", "/ab")]));
    assert_eq!(refusal(&bytes, None), None);
    assert_eq!(refusal(&bytes[..23], None), Some(ProjectionError::InvalidHeader));
    let mut other = bytes.clone();
    other[0] = b'X';
    assert_eq!(refusal(&other, None), Some(ProjectionError::InvalidHeader));
    other = bytes.clone();
    other[8] = 3;
    assert_eq!(refusal(&other, None), Some(ProjectionError::UnsupportedVersion));
    assert_eq!(refusal(&bytes, Some(4)), Some(ProjectionError::StaleGeneration));
    assert_eq!(refusal(&bytes[..24 + 47], None), Some(ProjectionError::Truncated));
    assert_eq!(
        refusal(&bytes[..bytes.len() - 1], None),
        Some(ProjectionError::RecordExceedsFile)
    );
    other = bytes.clone();
    let last = other.len() - 1;
    other[last] = 0xFF;
    assert_eq!(refusal(&other, None), Some(ProjectionError::StringNotUtf8));
    other = bytes.clone();
    other.push(0);
    assert_eq!(refusal(&other, None), Some(ProjectionError::TrailingBytes));
    other = bytes.clone();
    other[20] = 2;
    assert_eq!(refusal(&other, None), Some(ProjectionError::Truncated));
    other[20] = 0;
    assert_eq!(refusal(&other, None), Some(ProjectionError::TrailingBytes));
}

#[test]
fn errors_have_words() {
    let words = [
        (ProjectionError::InvalidHeader, "invalid projection header"),
        (ProjectionError::UnsupportedVersion, "unsupported projection version"),
        (ProjectionError::StaleGeneration, "stale projection generation"),
        (ProjectionError::Truncated, "projection is truncated"),
        (ProjectionError::OffsetsOverflow, "projection offsets overflow"),
        (ProjectionError::RecordExceedsFile, "projection record exceeds file"),
        (ProjectionError::StringNotUtf8, "projection string is not UTF-8"),
        (ProjectionError::TrailingBytes, "projection has trailing bytes"),
    ];
    for (error, text) in words {
        assert_eq!(error.message(), text);
    }
}

#[test]
fn a_combined_image_searches_every_root() {
    let first = committed(4, vec![entry(1, "internal.txt", "/a/internal.txt")]);
    let mut second = committed(9, vec![entry(2, "external.txt", "/b/external.txt")]);
    second.coverage = Coverage::Partial;
    second.skipped.push(SkippedLocation {
        path: FilePath::new("/b/denied"),
        reason: "permission denied".into(),
    });
    let roots = [first, second];
    let joint = combine(&roots);
    assert_eq!(joint.generation, 9);
    assert_eq!(joint.volume_id, 0);
    assert_eq!(joint.root.as_str(), "");
    assert_eq!(joint.coverage, Coverage::Partial);
    assert_eq!(joint.skipped, roots[1].skipped);
    let bytes = SearchProjection::build_combined(&roots);
    let projection = SearchProjection::open(&bytes, Some(9)).unwrap();
    assert_eq!(projection.search("internal.txt", 100).len(), 1);
    assert_eq!(projection.search("external.txt", 100).len(), 1);
    assert_eq!(combine(&[]).generation, 0);
    assert_eq!(combine(&[]).coverage, Coverage::Complete);
}

#[test]
fn hidden_entries_are_searched_on_request() {
    let index = committed(
        1,
        vec![
            entry(1, ".secret-café.txt", "/root/.secret-café.txt"),
            entry(2, "cafe\u{301}.txt", "/root/cafe\u{301}.txt"),
        ],
    );
    let bytes = SearchProjection::build(&index);
    let projection = SearchProjection::open(&bytes, None).unwrap();
    let token = CancellationToken::default();
    let search = |show_hidden| {
        projection.search_ranked_with_visibility(
            "café",
            &HashMap::new(),
            100,
            SortOrder::default(),
            &token,
            show_hidden,
        )
    };
    assert_eq!(search(true).rows.len(), 2);
    assert_eq!(search(false).rows.len(), 1);
    assert_eq!(search(false).rows[0].name, "cafe\u{301}.txt");
    assert_eq!(search(false).exact_total, 1);
}

#[test]
fn searches_honour_history_order_and_cancellation() {
    let mut first = entry(1, "a-report", "/a/a-report");
    first.size = 3;
    let mut second = entry(2, "b-report", "/b/b-report");
    second.size = 1;
    let bytes = SearchProjection::build(&committed(1, vec![first, second]));
    let projection = SearchProjection::open(&bytes, None).unwrap();
    let recent = HashMap::from([(2, 99)]);
    assert_eq!(projection.search("report", 1)[0].entry_id, 1);
    assert_eq!(projection.search_with_history("report", &recent, 1)[0].entry_id, 2);
    let by_size = SortOrder {
        field: SortField::FileSize,
        direction: SortDirection::Descending,
    };
    let token = CancellationToken::default();
    let results = projection.search_ranked("report", &recent, 10, by_size, &token);
    assert_eq!(
        results.rows.iter().map(|row| row.entry_id).collect::<Vec<_>>(),
        vec![1, 2]
    );
    token.cancel();
    let stopped = projection.search_ranked("report", &recent, 10, by_size, &token);
    assert!(stopped.cancelled);
    assert!(stopped.rows.is_empty());
    assert_eq!(stopped.exact_total, 0);
    assert_eq!(stopped.max_retained, 0);
}

#[test]
fn hiding_entries_only_thins_the_rows() {
    let entries: Vec<IndexedEntry> = (0..40u64)
        .map(|id| {
            let dot = if id % 3 == 0 { "." } else { "" };
            let name = format!("{dot}report-{}", (id * 17) % 40);
            let path = format!("/root/{name}");
            entry(id, &name, &path)
        })
        .collect();
    let bytes = SearchProjection::build(&committed(1, entries));
    let projection = SearchProjection::open(&bytes, None).unwrap();
    for field in [SortField::Relevance, SortField::FileName, SortField::FullPath] {
        let search = |show_hidden| {
            projection.search_ranked_with_visibility(
                "report",
                &HashMap::from([(4, 9), (3, 8)]),
                40,
                SortOrder {
                    field,
                    direction: SortDirection::Ascending,
                },
                &CancellationToken::default(),
                show_hidden,
            )
        };
        let all = search(true);
        let some = search(false);
        let thinned: Vec<_> = all
            .rows
            .iter()
            .filter(|row| !row.name.starts_with('.'))
            .cloned()
            .collect();
        assert_eq!(all.exact_total, 40);
        assert_eq!(some.exact_total, thinned.len());
        assert_eq!(some.rows, thinned);
    }
}
