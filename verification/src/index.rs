//! Committed generations of the index, and the rows in which the store keeps them.

use vstd::prelude::*;

use crate::model::{Coverage, EntryKind, IndexedEntry, RootCoverage, SkippedLocation};
use crate::paths::FilePath;
use crate::reconciliation;
use crate::scanner::ScanReport;
use crate::sorting;
use crate::text::{self, render, same_str};

verus! {

/// The latest committed generation of one root.
#[derive(Debug)]
pub struct CommittedIndex {
    pub generation: u64,
    pub volume_id: u64,
    pub root: FilePath,
    pub coverage: Coverage,
    pub entries: Vec<IndexedEntry>,
    pub skipped: Vec<SkippedLocation>,
}

/// The last event that a committed generation of one root takes into account.
#[derive(Clone, Debug, PartialEq, Eq)]
pub struct VolumeCheckpoint {
    pub volume_id: u64,
    pub root: FilePath,
    pub stream_identity: String,
    pub event_id: u64,
    pub generation: u64,
}

/// The store keeps a number as the signed one with the same bits.
pub fn to_stored(value: u64) -> (stored: i64)
    ensures
        stored == value as i64,
{
    value as i64
}

/// The number that the store keeps as a signed one.
pub fn from_stored(stored: i64) -> (value: u64)
    ensures
        value == stored as u64,
{
    stored as u64
}

/// A number comes back from the store as it was.
pub proof fn stored_numbers_read_back(value: u64)
    ensures
        (value as i64) as u64 == value,
{
    assert((value as i64) as u64 == value) by (bit_vector);
}

/// The word for a coverage in the store.
pub open spec fn coverage_word(coverage: Coverage) -> Seq<char> {
    match coverage {
        Coverage::Complete => "complete"@,
        Coverage::Partial => "partial"@,
    }
}

/// Gives the word for a coverage in the store.
pub fn coverage_text(coverage: Coverage) -> (text: &'static str)
    ensures
        text@ == coverage_word(coverage),
{
    match coverage {
        Coverage::Complete => "complete",
        Coverage::Partial => "partial",
    }
}

/// The coverage that a word in the store stands for: any word but that for complete coverage
/// means a partial one.
pub open spec fn coverage_named(word: Seq<char>) -> Coverage {
    if word == "complete"@ {
        Coverage::Complete
    } else {
        Coverage::Partial
    }
}

/// Reads the word for a coverage.
pub fn coverage_from_text(text: &str) -> (coverage: Coverage)
    ensures
        coverage == coverage_named(text@),
{
    if same_str(text, "complete") {
        Coverage::Complete
    } else {
        Coverage::Partial
    }
}

/// A coverage comes back from the store as it was.
pub proof fn coverage_reads_back(coverage: Coverage)
    ensures
        coverage_named(coverage_word(coverage)) == coverage,
{
    reveal_strlit("complete");
    reveal_strlit("partial");
    assert("complete"@.len() != "partial"@.len());
}

/// The kind that a number in the store stands for.
pub open spec fn kind_numbered(number: i64) -> EntryKind {
    if number == 1 {
        EntryKind::File
    } else if number == 2 {
        EntryKind::Directory
    } else if number == 3 {
        EntryKind::Symlink
    } else {
        EntryKind::Other
    }
}

/// Reads the number that stands for a kind.
pub fn kind_from_i64(number: i64) -> (kind: EntryKind)
    ensures
        kind == kind_numbered(number),
{
    match number {
        1 => EntryKind::File,
        2 => EntryKind::Directory,
        3 => EntryKind::Symlink,
        _ => EntryKind::Other,
    }
}

/// The row of an entry.
#[derive(Debug, PartialEq, Eq)]
pub struct EntryRow {
    pub generation: i64,
    pub entry_id: i64,
    pub volume_id: i64,
    pub name: String,
    pub full_path: String,
    pub kind: i64,
    pub size: i64,
    pub created_ns: Option<i64>,
    pub modified_ns: Option<i64>,
    pub hidden: bool,
}

/// `row` keeps an entry of a generation.
pub open spec fn keeps_entry(row: EntryRow, generation: u64, entry: IndexedEntry) -> bool {
    &&& row.generation == generation as i64
    &&& row.entry_id == entry.entry_id as i64
    &&& row.volume_id == entry.volume_id as i64
    &&& row.name@ == entry.name@
    &&& row.full_path@ == entry.path@
    &&& row.kind == entry.kind.number()
    &&& row.size == entry.size as i64
    &&& row.created_ns == entry.created_ns
    &&& row.modified_ns == entry.modified_ns
    &&& row.hidden == entry.hidden
}

/// `entry` is what a row holds.
pub open spec fn reads_entry(row: EntryRow, entry: IndexedEntry) -> bool {
    &&& entry.entry_id == row.entry_id as u64
    &&& entry.volume_id == row.volume_id as u64
    &&& entry.name@ == row.name@
    &&& entry.path@ == row.full_path@
    &&& entry.kind == kind_numbered(row.kind)
    &&& entry.size == row.size as u64
    &&& entry.created_ns == row.created_ns
    &&& entry.modified_ns == row.modified_ns
    &&& entry.hidden == row.hidden
}

/// Makes the row of an entry.
pub fn entry_row(generation: u64, entry: &IndexedEntry) -> (row: EntryRow)
    ensures
        keeps_entry(row, generation, *entry),
{
    EntryRow {
        generation: to_stored(generation),
        entry_id: to_stored(entry.entry_id),
        volume_id: to_stored(entry.volume_id),
        name: entry.name.clone(),
        full_path: entry.path.as_str().to_owned(),
        kind: entry.kind.as_i64(),
        size: to_stored(entry.size),
        created_ns: entry.created_ns,
        modified_ns: entry.modified_ns,
        hidden: entry.hidden,
    }
}

/// Reads the row of an entry.
pub fn entry_from_row(row: EntryRow) -> (entry: IndexedEntry)
    ensures
        reads_entry(row, entry),
{
    IndexedEntry {
        entry_id: from_stored(row.entry_id),
        volume_id: from_stored(row.volume_id),
        path: FilePath::new(row.full_path.as_str()),
        name: row.name,
        kind: kind_from_i64(row.kind),
        size: from_stored(row.size),
        created_ns: row.created_ns,
        modified_ns: row.modified_ns,
        hidden: row.hidden,
    }
}

/// Two entries tell the same.
pub open spec fn same_entry(left: IndexedEntry, right: IndexedEntry) -> bool {
    &&& left.entry_id == right.entry_id
    &&& left.volume_id == right.volume_id
    &&& left.name@ == right.name@
    &&& left.path@ == right.path@
    &&& left.kind == right.kind
    &&& left.size == right.size
    &&& left.created_ns == right.created_ns
    &&& left.modified_ns == right.modified_ns
    &&& left.hidden == right.hidden
}

/// An entry comes back from its row as it was.
pub proof fn entries_read_back(
    generation: u64,
    entry: IndexedEntry,
    row: EntryRow,
    read: IndexedEntry,
)
    requires
        keeps_entry(row, generation, entry),
        reads_entry(row, read),
    ensures
        same_entry(read, entry),
        read.entry_id == entry.entry_id,
        read.volume_id == entry.volume_id,
        read.name@ == entry.name@,
        read.path@ == entry.path@,
        read.kind == entry.kind,
        read.size == entry.size,
        read.created_ns == entry.created_ns,
        read.modified_ns == entry.modified_ns,
        read.hidden == entry.hidden,
        row.generation as u64 == generation,
{
    stored_numbers_read_back(generation);
    stored_numbers_read_back(entry.entry_id);
    stored_numbers_read_back(entry.volume_id);
    stored_numbers_read_back(entry.size);
}

/// The row of a skipped location.
#[derive(Debug, PartialEq, Eq)]
pub struct SkipRow {
    pub generation: i64,
    pub path: String,
    pub reason: String,
}

/// Makes the row of a skipped location.
pub fn skip_row(generation: u64, location: &SkippedLocation) -> (row: SkipRow)
    ensures
        row.generation == generation as i64,
        row.path@ == location.path@,
        row.reason@ == location.reason@,
{
    SkipRow {
        generation: to_stored(generation),
        path: location.path.as_str().to_owned(),
        reason: location.reason.clone(),
    }
}

/// Reads the row of a skipped location.
pub fn skip_from_row(row: SkipRow) -> (location: SkippedLocation)
    ensures
        location.path@ == row.path@,
        location.reason@ == row.reason@,
{
    SkippedLocation { path: FilePath::new(row.path.as_str()), reason: row.reason }
}

/// The row of a checkpoint.
#[derive(Debug, PartialEq, Eq)]
pub struct CheckpointRow {
    pub volume_id: i64,
    pub root_path: String,
    pub stream_identity: String,
    pub event_id: i64,
    pub generation: i64,
}

/// `checkpoint` is what a row holds.
pub open spec fn reads_checkpoint(row: CheckpointRow, checkpoint: VolumeCheckpoint) -> bool {
    &&& checkpoint.volume_id == row.volume_id as u64
    &&& checkpoint.root@ == row.root_path@
    &&& checkpoint.stream_identity@ == row.stream_identity@
    &&& checkpoint.event_id == row.event_id as u64
    &&& checkpoint.generation == row.generation as u64
}

/// Reads the row of a checkpoint.
pub fn checkpoint_from_row(row: CheckpointRow) -> (checkpoint: VolumeCheckpoint)
    ensures
        reads_checkpoint(row, checkpoint),
{
    VolumeCheckpoint {
        volume_id: from_stored(row.volume_id),
        root: FilePath::new(row.root_path.as_str()),
        stream_identity: row.stream_identity,
        event_id: from_stored(row.event_id),
        generation: from_stored(row.generation),
    }
}

/// The row of a published root.
#[derive(Debug, PartialEq, Eq)]
pub struct RootRow {
    pub generation: i64,
    pub volume_id: i64,
    pub root_path: String,
    pub coverage: String,
}

/// Everything that one transaction writes to publish a generation.
#[derive(Debug, PartialEq, Eq)]
pub struct Commit {
    pub root: RootRow,
    pub entries: Vec<EntryRow>,
    pub skipped: Vec<SkipRow>,
    pub checkpoint: Option<CheckpointRow>,
}

/// A root as it is published.
pub open spec fn keeps_root(
    row: RootRow,
    generation: u64,
    report: ScanReport,
    coverage: Coverage,
) -> bool {
    &&& row.generation == generation as i64
    &&& row.volume_id == report.volume_id as i64
    &&& row.root_path@ == report.root@
    &&& row.coverage@ == coverage_word(coverage)
}

/// A checkpoint as it is published with a generation.
pub open spec fn keeps_checkpoint(
    row: CheckpointRow,
    generation: u64,
    report: ScanReport,
    stream_identity: Seq<char>,
    event_id: u64,
) -> bool {
    &&& row.volume_id == report.volume_id as i64
    &&& row.root_path@ == report.root@
    &&& row.stream_identity@ == stream_identity
    &&& row.event_id == event_id as i64
    &&& row.generation == generation as i64
}

/// `commit` publishes a report as a generation.
pub open spec fn publishes(
    commit: Commit,
    generation: u64,
    report: ScanReport,
    coverage: Coverage,
) -> bool {
    &&& keeps_root(commit.root, generation, report, coverage)
    &&& commit.entries@.len() == report.entries@.len()
    &&& forall|i: int|
        0 <= i < report.entries@.len() ==> keeps_entry(
            #[trigger] commit.entries@[i],
            generation,
            report.entries@[i],
        )
    &&& commit.skipped@.len() == report.skipped@.len()
    &&& forall|i: int|
        0 <= i < report.skipped@.len() ==> {
            &&& (#[trigger] commit.skipped@[i]).generation == generation as i64
            &&& commit.skipped@[i].path@ == report.skipped@[i].path@
            &&& commit.skipped@[i].reason@ == report.skipped@[i].reason@
        }
}

/// Prepares what one transaction writes to publish a report: the root, its entries, its skipped
/// locations and, for a known event, the checkpoint, all with the same generation.
pub fn prepare_commit(
    generation: u64,
    report: &ScanReport,
    coverage: Coverage,
    checkpoint: Option<(&str, u64)>,
) -> (commit: Commit)
    ensures
        publishes(commit, generation, *report, coverage),
        match checkpoint {
            Some((stream_identity, event_id)) => commit.checkpoint matches Some(row)
                && keeps_checkpoint(row, generation, *report, stream_identity@, event_id),
            None => commit.checkpoint is None,
        },
{
    let mut entries: Vec<EntryRow> = Vec::new();
    for i in 0..report.entries.len()
        invariant
            entries@.len() == i,
            forall|k: int|
                0 <= k < i ==> keeps_entry(
                    #[trigger] entries@[k],
                    generation,
                    report.entries@[k],
                ),
    {
        entries.push(entry_row(generation, &report.entries[i]));
    }
    let mut skipped: Vec<SkipRow> = Vec::new();
    for i in 0..report.skipped.len()
        invariant
            skipped@.len() == i,
            forall|k: int|
                0 <= k < i ==> {
                    &&& (#[trigger] skipped@[k]).generation == generation as i64
                    &&& skipped@[k].path@ == report.skipped@[k].path@
                    &&& skipped@[k].reason@ == report.skipped@[k].reason@
                },
    {
        skipped.push(skip_row(generation, &report.skipped[i]));
    }
    Commit {
        root: RootRow {
            generation: to_stored(generation),
            volume_id: to_stored(report.volume_id),
            root_path: report.root.as_str().to_owned(),
            coverage: coverage_text(coverage).to_owned(),
        },
        entries,
        skipped,
        checkpoint: match checkpoint {
            Some((stream_identity, event_id)) => Some(
                CheckpointRow {
                    volume_id: to_stored(report.volume_id),
                    root_path: report.root.as_str().to_owned(),
                    stream_identity: stream_identity.to_owned(),
                    event_id: to_stored(event_id),
                    generation: to_stored(generation),
                },
            ),
            None => None,
        },
    }
}

/// `committed` is what the rows of a published root hold.
pub open spec fn reads_committed(
    committed: CommittedIndex,
    root: RootRow,
    entries: Seq<EntryRow>,
    skipped: Seq<SkipRow>,
) -> bool {
    &&& committed.generation == root.generation as u64
    &&& committed.volume_id == root.volume_id as u64
    &&& committed.root@ == root.root_path@
    &&& committed.coverage == coverage_named(root.coverage@)
    &&& committed.entries@.len() == entries.len()
    &&& forall|i: int|
        0 <= i < entries.len() ==> reads_entry(#[trigger] entries[i], committed.entries@[i])
    &&& committed.skipped@.len() == skipped.len()
    &&& forall|i: int|
        0 <= i < skipped.len() ==> committed.skipped@[i].path@ == (#[trigger] skipped[i]).path@
            && committed.skipped@[i].reason@ == skipped[i].reason@
}

/// Reads a published root from its rows.
pub fn committed_from_rows(root: RootRow, entries: Vec<EntryRow>, skipped: Vec<SkipRow>) -> (
    committed: CommittedIndex)
    ensures
        reads_committed(committed, root, entries@, skipped@),
{
    let ghost entry_rows = entries@;
    let ghost skip_rows = skipped@;
    let mut read_entries: Vec<IndexedEntry> = Vec::new();
    for row in it: entries.into_iter()
        invariant
            it.seq() == entry_rows,
            read_entries@.len() == it.index(),
            forall|k: int|
                0 <= k < it.index() ==> reads_entry(#[trigger] entry_rows[k], read_entries@[k]),
    {
        read_entries.push(entry_from_row(row));
    }
    let mut read_skips: Vec<SkippedLocation> = Vec::new();
    for row in it: skipped.into_iter()
        invariant
            it.seq() == skip_rows,
            read_skips@.len() == it.index(),
            forall|k: int|
                0 <= k < it.index() ==> read_skips@[k].path@ == (#[trigger] skip_rows[k]).path@
                    && read_skips@[k].reason@ == skip_rows[k].reason@,
    {
        read_skips.push(skip_from_row(row));
    }
    CommittedIndex {
        generation: from_stored(root.generation),
        volume_id: from_stored(root.volume_id),
        root: FilePath::new(root.root_path.as_str()),
        coverage: coverage_from_text(root.coverage.as_str()),
        entries: read_entries,
        skipped: read_skips,
    }
}

/// What is read from the rows of a commit is what was reported: generation, volume, root,
/// coverage, entries and skipped locations.
pub proof fn commits_read_back(
    commit: Commit,
    generation: u64,
    report: ScanReport,
    coverage: Coverage,
    committed: CommittedIndex,
)
    requires
        publishes(commit, generation, report, coverage),
        reads_committed(committed, commit.root, commit.entries@, commit.skipped@),
    ensures
        committed.generation == generation,
        committed.volume_id == report.volume_id,
        committed.root@ == report.root@,
        committed.coverage == coverage,
        committed.entries@.len() == report.entries@.len(),
        forall|i: int|
            0 <= i < report.entries@.len() ==> same_entry(
                #[trigger] committed.entries@[i],
                report.entries@[i],
            ),
        committed.skipped@.len() == report.skipped@.len(),
        forall|i: int|
            0 <= i < report.skipped@.len() ==> (#[trigger] committed.skipped@[i]).path@
                == report.skipped@[i].path@ && committed.skipped@[i].reason@
                == report.skipped@[i].reason@,
{
    stored_numbers_read_back(generation);
    stored_numbers_read_back(report.volume_id);
    coverage_reads_back(coverage);
    assert forall|i: int| 0 <= i < report.entries@.len() implies same_entry(
        #[trigger] committed.entries@[i],
        report.entries@[i],
    ) by {
        entries_read_back(
            generation,
            report.entries@[i],
            commit.entries@[i],
            committed.entries@[i],
        );
    }
    assert forall|i: int| 0 <= i < report.skipped@.len() implies (
    #[trigger] committed.skipped@[i]).path@ == report.skipped@[i].path@
        && committed.skipped@[i].reason@ == report.skipped@[i].reason@ by {
        assert(commit.skipped@[i].path@ == report.skipped@[i].path@);
    }
}

/// What an entry tells.
pub struct EntryContent {
    pub entry_id: u64,
    pub volume_id: u64,
    pub name: Seq<char>,
    pub path: Seq<char>,
    pub kind: EntryKind,
    pub size: u64,
    pub created_ns: Option<i64>,
    pub modified_ns: Option<i64>,
    pub hidden: bool,
}

/// What some entries tell.
pub open spec fn contents(entries: Seq<IndexedEntry>) -> Seq<EntryContent> {
    entries.map_values(
        |entry: IndexedEntry|
            EntryContent {
                entry_id: entry.entry_id,
                volume_id: entry.volume_id,
                name: entry.name@,
                path: entry.path@,
                kind: entry.kind,
                size: entry.size,
                created_ns: entry.created_ns,
                modified_ns: entry.modified_ns,
                hidden: entry.hidden,
            },
    )
}

/// What the row of an entry tells.
spec fn row_content(row: EntryRow) -> EntryContent {
    EntryContent {
        entry_id: row.entry_id as u64,
        volume_id: row.volume_id as u64,
        name: row.name@,
        path: row.full_path@,
        kind: kind_numbered(row.kind),
        size: row.size as u64,
        created_ns: row.created_ns,
        modified_ns: row.modified_ns,
        hidden: row.hidden,
    }
}

/// What the row of a skipped location tells.
spec fn skip_content(row: SkipRow) -> (Seq<char>, Seq<char>) {
    (row.path@, row.reason@)
}

/// The path and reason of some skipped locations.
pub open spec fn skip_contents(skipped: Seq<SkippedLocation>) -> Seq<(Seq<char>, Seq<char>)> {
    skipped.map_values(|location: SkippedLocation| (location.path@, location.reason@))
}

/// The rows stand in the order of the texts of their paths.
pub open spec fn rows_by_path(rows: Seq<EntryRow>) -> bool {
    forall|i: int, j: int|
        #![trigger rows[i], rows[j]]
        0 <= i < j < rows.len() ==> text::text_order(rows[i].full_path@, rows[j].full_path@)
            != text::Order::Greater
}

/// The entries stand in the order of the texts of their paths.
pub open spec fn entries_by_path(entries: Seq<IndexedEntry>) -> bool {
    forall|i: int, j: int|
        #![trigger entries[i], entries[j]]
        0 <= i < j < entries.len() ==> text::text_order(entries[i].path@, entries[j].path@)
            != text::Order::Greater
}

/// In whatever order the rows of a commit come back, what is read from them is what was reported:
/// generation, volume, root and coverage, and the same entries and skipped locations. Rows in the
/// order of their paths give the entries in that order.
pub proof fn commits_read_back_in_any_order(
    commit: Commit,
    generation: u64,
    report: ScanReport,
    coverage: Coverage,
    entries: Seq<EntryRow>,
    skipped: Seq<SkipRow>,
    committed: CommittedIndex,
)
    requires
        publishes(commit, generation, report, coverage),
        entries.to_multiset() == commit.entries@.to_multiset(),
        skipped.to_multiset() == commit.skipped@.to_multiset(),
        reads_committed(committed, commit.root, entries, skipped),
    ensures
        committed.generation == generation,
        committed.volume_id == report.volume_id,
        committed.root@ == report.root@,
        committed.coverage == coverage,
        contents(committed.entries@).to_multiset() == contents(report.entries@).to_multiset(),
        skip_contents(committed.skipped@).to_multiset() == skip_contents(
            report.skipped@,
        ).to_multiset(),
        rows_by_path(entries) ==> entries_by_path(committed.entries@),
{
    stored_numbers_read_back(generation);
    stored_numbers_read_back(report.volume_id);
    coverage_reads_back(coverage);
    let read = |row: EntryRow| row_content(row);
    let read_skip = |row: SkipRow| skip_content(row);
    sorting::same_values_map(entries, commit.entries@, read);
    sorting::same_values_map(skipped, commit.skipped@, read_skip);
    assert(contents(committed.entries@) =~= entries.map_values(read)) by {
        assert forall|i: int| 0 <= i < entries.len() implies contents(committed.entries@)[i]
            == #[trigger] entries.map_values(read)[i] by {
            assert(reads_entry(entries[i], committed.entries@[i]));
        }
    }
    assert(contents(report.entries@) =~= commit.entries@.map_values(read)) by {
        assert forall|i: int| 0 <= i < report.entries@.len() implies contents(report.entries@)[i]
            == #[trigger] commit.entries@.map_values(read)[i] by {
            assert(keeps_entry(commit.entries@[i], generation, report.entries@[i]));
            stored_numbers_read_back(report.entries@[i].entry_id);
            stored_numbers_read_back(report.entries@[i].volume_id);
            stored_numbers_read_back(report.entries@[i].size);
        }
    }
    assert(skip_contents(committed.skipped@) =~= skipped.map_values(read_skip)) by {
        assert forall|i: int| 0 <= i < skipped.len() implies skip_contents(committed.skipped@)[i]
            == #[trigger] skipped.map_values(read_skip)[i] by {
            assert(committed.skipped@[i].path@ == skipped[i].path@);
        }
    }
    assert(skip_contents(report.skipped@) =~= commit.skipped@.map_values(read_skip)) by {
        assert forall|i: int| 0 <= i < report.skipped@.len() implies skip_contents(
            report.skipped@,
        )[i] == #[trigger] commit.skipped@.map_values(read_skip)[i] by {
            assert(commit.skipped@[i].path@ == report.skipped@[i].path@);
        }
    }
    if rows_by_path(entries) {
        assert forall|i: int, j: int|
            #![trigger committed.entries@[i], committed.entries@[j]]
            0 <= i < j < committed.entries@.len() implies text::text_order(
            committed.entries@[i].path@,
            committed.entries@[j].path@,
        ) != text::Order::Greater by {
            assert(reads_entry(entries[i], committed.entries@[i]));
            assert(reads_entry(entries[j], committed.entries@[j]));
        }
    }
}

/// A checkpoint is published with the generation it belongs to: it comes back with its volume,
/// root, stream, event and generation, and can be replayed for exactly that generation and stream.
pub proof fn checkpoints_belong_to_their_generation(
    row: CheckpointRow,
    generation: u64,
    report: ScanReport,
    stream_identity: Seq<char>,
    event_id: u64,
    checkpoint: VolumeCheckpoint,
)
    requires
        keeps_checkpoint(row, generation, report, stream_identity, event_id),
        reads_checkpoint(row, checkpoint),
    ensures
        checkpoint.volume_id == report.volume_id,
        checkpoint.root@ == report.root@,
        checkpoint.stream_identity@ == stream_identity,
        checkpoint.event_id == event_id,
        checkpoint.generation == generation,
        forall|stream: Seq<char>, published: u64| #[trigger]
            reconciliation::replayable(checkpoint, stream, published) ==> published
                == generation && stream == stream_identity,
        event_id != 0 && event_id != u64::MAX ==> reconciliation::replayable(
            checkpoint,
            stream_identity,
            generation,
        ),
{
    stored_numbers_read_back(report.volume_id);
    stored_numbers_read_back(generation);
    stored_numbers_read_back(event_id);
}

/// The key of a checkpoint in the store, its volume and root, is that of another checkpoint exactly
/// where volume and root are the same.
pub proof fn checkpoint_keys_tell_roots_apart(
    left: CheckpointRow,
    left_read: VolumeCheckpoint,
    right: CheckpointRow,
    right_read: VolumeCheckpoint,
)
    requires
        reads_checkpoint(left, left_read),
        reads_checkpoint(right, right_read),
    ensures
        left.volume_id == right.volume_id && left.root_path@ == right.root_path@
            <==> left_read.volume_id == right_read.volume_id && left_read.root@ == right_read.root@,
{
    let a = left.volume_id;
    let b = right.volume_id;
    assert(a as u64 == b as u64 ==> a == b) by (bit_vector);
}

/// The time of an opening as the store keeps it.
pub fn opened_time(since_epoch_ns: u128) -> (time: i64)
    ensures
        time == if since_epoch_ns < i64::MAX {
            since_epoch_ns as int
        } else {
            i64::MAX as int
        },
{
    if since_epoch_ns < i64::MAX as u128 {
        since_epoch_ns as i64
    } else {
        i64::MAX
    }
}

/// `at` is the first committed index of a root.
pub open spec fn is_first_of_root(committed: Seq<CommittedIndex>, root: FilePath, at: int) -> bool {
    &&& 0 <= at < committed.len()
    &&& committed[at].root.parts() == root.parts()
    &&& forall|i: int| 0 <= i < at ==> (#[trigger] committed[i]).root.parts() != root.parts()
}

/// Finds the committed index of a root.
pub fn find_root(committed: Vec<CommittedIndex>, root: &FilePath) -> (found: Option<CommittedIndex>)
    ensures
        match found {
            Some(index) => exists|at: int| #[trigger]
                is_first_of_root(committed@, *root, at) && index == committed@[at],
            None => forall|i: int|
                0 <= i < committed@.len() ==> (#[trigger] committed@[i]).root.parts()
                    != root.parts(),
        },
{
    let ghost all = committed@;
    for index in it: committed.into_iter()
        invariant
            it.seq() == all,
            all == committed@,
            forall|k: int|
                0 <= k < it.index() ==> (#[trigger] all[k]).root.parts() != root.parts(),
    {
        if index.root.same_as(root) {
            assert(is_first_of_root(all, *root, it.index()));
            return Some(index);
        }
    }
    None
}

/// The greatest generation of some published roots.
pub open spec fn newest_row(roots: Seq<RootRow>) -> Option<u64>
    decreases roots.len(),
{
    if roots.len() == 0 {
        None
    } else {
        let last = roots.last().generation as u64;
        match newest_row(roots.drop_last()) {
            Some(before) => Some(
                if before < last {
                    last
                } else {
                    before
                },
            ),
            None => Some(last),
        }
    }
}

/// Finds the generation that a projection of some published roots has.
pub fn published_generation(roots: &[RootRow]) -> (generation: Option<u64>)
    ensures
        generation == newest_row(roots@),
{
    let ghost all = roots@;
    let mut newest: Option<u64> = None;
    assert(all.take(0) =~= Seq::empty());
    for i in 0..roots.len()
        invariant
            all == roots@,
            newest == newest_row(all.take(i as int)),
    {
        assert(all.take(i + 1).drop_last() =~= all.take(i as int));
        let generation: u64 = from_stored(roots[i].generation);
        newest = match newest {
            Some(before) => Some(
                if before < generation {
                    generation
                } else {
                    before
                },
            ),
            None => Some(generation),
        };
    }
    assert(all.take(all.len() as int) =~= all);
    newest
}

/// The report on how much of its root a committed index covers.
pub fn coverage_report(committed: CommittedIndex) -> (report: RootCoverage)
    ensures
        report.volume_id == committed.volume_id,
        report.root == committed.root,
        report.coverage == committed.coverage,
        report.skipped == committed.skipped,
{
    RootCoverage {
        volume_id: committed.volume_id,
        root: committed.root,
        coverage: committed.coverage,
        skipped: committed.skipped,
    }
}

/// The version of the store's tables.
pub const SCHEMA_VERSION: i64 = 1;

/// What is done with a store that was found.
#[derive(Clone, Copy, Debug, PartialEq, Eq, Structural)]
pub enum StoreVerdict {
    /// It is used.
    Sound,
    /// It is set aside, and a new one is made.
    Damaged,
    /// It is left alone: a later version of the application wrote it.
    TooNew,
}

/// Judges a store by what its check printed and by the version of its tables.
pub fn judge_store(quick_check: &str, schema_version: i64) -> (verdict: StoreVerdict)
    ensures
        verdict == if quick_check@ != "ok"@ {
            StoreVerdict::Damaged
        } else if schema_version > SCHEMA_VERSION {
            StoreVerdict::TooNew
        } else {
            StoreVerdict::Sound
        },
{
    if !same_str(quick_check, "ok") {
        StoreVerdict::Damaged
    } else if schema_version > SCHEMA_VERSION {
        StoreVerdict::TooNew
    } else {
        StoreVerdict::Sound
    }
}

/// The name under which a damaged store is set aside.
pub fn archive_name(timestamp: u64) -> (name: String)
    ensures
        name@ == "index.damaged-"@ + text::decimal(timestamp as nat) + ".sqlite3"@,
{
    let mut name = "index.damaged-".to_owned();
    name.append(render(timestamp).as_str());
    name.append(".sqlite3");
    name
}

/// The published generation is at least that of every root and that of one of them; without roots
/// there is none.
pub proof fn newest_row_is_the_greatest(roots: Seq<RootRow>)
    ensures
        roots.len() == 0 <==> newest_row(roots) is None,
        newest_row(roots) matches Some(newest) ==> (forall|i: int|
            0 <= i < roots.len() ==> (#[trigger] roots[i]).generation as u64 <= newest) && exists|
            i: int,
        | 0 <= i < roots.len() && (#[trigger] roots[i]).generation as u64 == newest,
    decreases roots.len(),
{
    if roots.len() > 0 {
        let rest = roots.drop_last();
        let last = roots.len() - 1;
        newest_row_is_the_greatest(rest);
        let newest = newest_row(roots)->0;
        assert forall|i: int| 0 <= i < roots.len() implies (#[trigger] roots[i]).generation as u64
            <= newest by {
            if i < last {
                assert(rest[i] == roots[i]);
            }
        }
        if newest == roots.last().generation as u64 {
            assert(roots[last].generation as u64 == newest);
        } else {
            let before = newest_row(rest)->0;
            let i = choose|i: int|
                0 <= i < rest.len() && (#[trigger] rest[i]).generation as u64 == before;
            assert(roots[i] == rest[i]);
        }
    }
}

/// Every row of a commit belongs to the generation that it publishes.
pub proof fn commits_hold_one_generation(
    commit: Commit,
    generation: u64,
    report: ScanReport,
    coverage: Coverage,
)
    requires
        publishes(commit, generation, report, coverage),
    ensures
        commit.root.generation as u64 == generation,
        forall|i: int|
            0 <= i < commit.entries@.len() ==> (#[trigger] commit.entries@[i]).generation as u64
                == generation,
        forall|i: int|
            0 <= i < commit.skipped@.len() ==> (#[trigger] commit.skipped@[i]).generation as u64
                == generation,
{
    stored_numbers_read_back(generation);
}

/// Of several committed indexes of a root the first one is found.
pub proof fn the_first_index_of_a_root_is_found(
    before: Seq<CommittedIndex>,
    index: CommittedIndex,
    behind: Seq<CommittedIndex>,
    root: FilePath,
    at: int,
)
    requires
        index.root.parts() == root.parts(),
        forall|i: int|
            0 <= i < before.len() ==> (#[trigger] before[i]).root.parts() != root.parts(),
    ensures
        is_first_of_root(before.push(index) + behind, root, before.len() as int),
        is_first_of_root(before.push(index) + behind, root, at) ==> at == before.len(),
{
    let all = before.push(index) + behind;
    assert(all[before.len() as int] == index);
    assert forall|i: int| 0 <= i < before.len() implies (#[trigger] all[i]).root.parts()
        != root.parts() by {
        assert(all[i] == before[i]);
    }
    if is_first_of_root(all, root, at) && at != before.len() {
        if at < before.len() {
            assert(all[at] == before[at]);
        } else {
            assert(all[before.len() as int].root.parts() != root.parts());
        }
    }
}

} // verus!
