//! Indexed entries, search results and the reports on how much of a root the index covers.

use vstd::prelude::*;

use crate::paths::FilePath;
use crate::text::{self, render};

verus! {

/// Whether a scan saw every location of its root.
#[derive(Clone, Copy, Debug, PartialEq, Eq, Structural)]
pub enum Coverage {
    Complete,
    Partial,
}

/// How the index of a volume relates to what is on it.
#[derive(Clone, Copy, Debug, PartialEq, Eq, Structural)]
pub enum Freshness {
    Current,
    CatchingUp,
    Rebuilding,
    Offline,
}

/// What is known of the file index as a whole.
#[derive(Clone, Copy, Debug, PartialEq, Eq, Structural)]
pub enum FileIndexState {
    NotAvailable,
    Rebuilding { scanned_entries: u64 },
    Current { coverage: Coverage },
}

impl FileIndexState {
    /// The one-line title of a state.
    pub open spec fn title_text(self) -> Seq<char> {
        match self {
            FileIndexState::NotAvailable => "No File Index"@,
            FileIndexState::Rebuilding { .. } => "File Index: Rebuilding"@,
            FileIndexState::Current { .. } => "File Index: Current"@,
        }
    }

    /// The explanation of a state.
    pub open spec fn detail_text(self) -> Seq<char> {
        match self {
            FileIndexState::NotAvailable => "Everyfile has not built a File Index yet."@,
            FileIndexState::Rebuilding { scanned_entries } => "Scanning configured root — "@
                + text::decimal(scanned_entries as nat) + " entries observed"@,
            FileIndexState::Current { coverage: Coverage::Complete } => "Coverage: Complete"@,
            FileIndexState::Current {
                coverage: Coverage::Partial,
            } => "Coverage: Partial — some locations were skipped."@,
        }
    }

    /// Gives the title of this state.
    pub fn title(&self) -> (text: &'static str)
        ensures
            text@ == self.title_text(),
    {
        match self {
            FileIndexState::NotAvailable => "No File Index",
            FileIndexState::Rebuilding { .. } => "File Index: Rebuilding",
            FileIndexState::Current { .. } => "File Index: Current",
        }
    }

    /// Explains this state.
    pub fn detail(&self) -> (text: String)
        ensures
            text@ == self.detail_text(),
    {
        match self {
            FileIndexState::NotAvailable => "Everyfile has not built a File Index yet.".to_owned(),
            FileIndexState::Rebuilding { scanned_entries } => {
                let mut text = "Scanning configured root — ".to_owned();
                text.append(render(*scanned_entries).as_str());
                text.append(" entries observed");
                text
            },
            FileIndexState::Current { coverage } => match coverage {
                Coverage::Complete => "Coverage: Complete".to_owned(),
                Coverage::Partial => "Coverage: Partial — some locations were skipped.".to_owned(),
            },
        }
    }
}

/// What an entry of a directory is.
#[derive(Clone, Copy, Debug, PartialEq, Eq, Structural)]
pub enum EntryKind {
    File,
    Directory,
    Symlink,
    Other,
}

impl EntryKind {
    /// The number that stands for a kind in the store.
    pub open spec fn number(self) -> i64 {
        match self {
            EntryKind::File => 1,
            EntryKind::Directory => 2,
            EntryKind::Symlink => 3,
            EntryKind::Other => 4,
        }
    }

    /// Gives the number that stands for this kind in the store.
    pub fn as_i64(self) -> (number: i64)
        ensures
            number == self.number(),
    {
        match self {
            EntryKind::File => 1,
            EntryKind::Directory => 2,
            EntryKind::Symlink => 3,
            EntryKind::Other => 4,
        }
    }
}

/// A file system entry as the index holds it.
#[derive(Debug, PartialEq, Eq)]
pub struct IndexedEntry {
    pub entry_id: u64,
    pub volume_id: u64,
    pub name: String,
    pub path: FilePath,
    pub kind: EntryKind,
    pub size: u64,
    pub created_ns: Option<i64>,
    pub modified_ns: Option<i64>,
    pub hidden: bool,
}

impl Clone for IndexedEntry {
    fn clone(&self) -> (result: Self)
        ensures
            result == *self,
    {
        IndexedEntry {
            entry_id: self.entry_id,
            volume_id: self.volume_id,
            name: self.name.clone(),
            path: self.path.clone(),
            kind: self.kind,
            size: self.size,
            created_ns: self.created_ns,
            modified_ns: self.modified_ns,
            hidden: self.hidden,
        }
    }
}

/// A location that a scan could not see, and why.
#[derive(Debug, PartialEq, Eq)]
pub struct SkippedLocation {
    pub path: FilePath,
    pub reason: String,
}

impl Clone for SkippedLocation {
    fn clone(&self) -> (result: Self)
        ensures
            result == *self,
    {
        SkippedLocation { path: self.path.clone(), reason: self.reason.clone() }
    }
}

/// How much of one root the index covers.
#[derive(Clone, Debug, PartialEq, Eq)]
pub struct RootCoverage {
    pub volume_id: u64,
    pub root: FilePath,
    pub coverage: Coverage,
    pub skipped: Vec<SkippedLocation>,
}

/// Every root is covered completely.
pub open spec fn all_complete(reports: Seq<RootCoverage>) -> bool {
    forall|i: int| 0 <= i < reports.len() ==> (#[trigger] reports[i]).coverage == Coverage::Complete
}

/// The coverage of all roots together: complete where every root is, and unknown without roots.
pub open spec fn overall(reports: Seq<RootCoverage>) -> Option<Coverage> {
    if reports.len() == 0 {
        None
    } else if all_complete(reports) {
        Some(Coverage::Complete)
    } else {
        Some(Coverage::Partial)
    }
}

/// Tells the coverage of all roots together.
pub fn overall_coverage(reports: &[RootCoverage]) -> (coverage: Option<Coverage>)
    ensures
        coverage == overall(reports@),
{
    if reports.len() == 0 {
        return None;
    }
    for i in 0..reports.len()
        invariant
            forall|k: int|
                0 <= k < i ==> (#[trigger] reports@[k]).coverage == Coverage::Complete,
    {
        if reports[i].coverage != Coverage::Complete {
            return Some(Coverage::Partial);
        }
    }
    Some(Coverage::Complete)
}

/// One entry that a query found.
#[derive(Debug, PartialEq, Eq)]
pub struct SearchResult {
    pub entry_id: u64,
    pub name: String,
    pub path: FilePath,
    pub size: u64,
    pub created_ns: Option<i64>,
    pub modified_ns: Option<i64>,
}

/// What a search result shows.
pub struct Row {
    pub entry_id: u64,
    pub name: Seq<char>,
    pub path: Seq<char>,
    pub size: u64,
    pub created_ns: Option<i64>,
    pub modified_ns: Option<i64>,
}

impl View for SearchResult {
    type V = Row;

    open spec fn view(&self) -> Row {
        Row {
            entry_id: self.entry_id,
            name: self.name@,
            path: self.path@,
            size: self.size,
            created_ns: self.created_ns,
            modified_ns: self.modified_ns,
        }
    }
}

/// What a list of search results shows.
pub open spec fn rows_of(results: Seq<SearchResult>) -> Seq<Row> {
    results.map_values(|result: SearchResult| result@)
}

impl Clone for SearchResult {
    fn clone(&self) -> (result: Self)
        ensures
            result == *self,
    {
        SearchResult {
            entry_id: self.entry_id,
            name: self.name.clone(),
            path: self.path.clone(),
            size: self.size,
            created_ns: self.created_ns,
            modified_ns: self.modified_ns,
        }
    }
}

/// What the application shows of its state.
#[derive(Clone, Debug, PartialEq, Eq)]
pub struct AppSnapshot {
    pub file_index: FileIndexState,
}

impl Default for AppSnapshot {
    fn default() -> (snapshot: Self)
        ensures
            snapshot.file_index == FileIndexState::NotAvailable,
    {
        AppSnapshot { file_index: FileIndexState::NotAvailable }
    }
}

/// The coverage of all roots together is unknown exactly without roots, partial exactly where that
/// of one of them is, and complete otherwise.
pub proof fn one_partial_root_makes_the_whole_partial(reports: Seq<RootCoverage>)
    ensures
        overall(reports) is None <==> reports.len() == 0,
        overall(reports) == Some(Coverage::Partial) <==> exists|i: int|
            0 <= i < reports.len() && (#[trigger] reports[i]).coverage == Coverage::Partial,
{
}

/// Different kinds have different numbers.
pub proof fn kinds_have_numbers_of_their_own(left: EntryKind, right: EntryKind)
    requires
        left != right,
    ensures
        left.number() != right.number(),
{
}

} // verus!
