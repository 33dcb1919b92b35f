//! Scanning a root: which directories are enumerated, which entries are indexed and what is
//! skipped.

use std::collections::VecDeque;

use vstd::prelude::*;

use crate::model::{Coverage, EntryKind, IndexedEntry, SkippedLocation};
use crate::paths::{self, compare_components, Component, FilePath};
use crate::sorting::{self, sort, Sortable};
use crate::text::{chars_of, Order};

verus! {

/// What a scan saw of its root.
#[derive(Debug)]
pub struct ScanReport {
    pub root: FilePath,
    pub volume_id: u64,
    pub entries: Vec<IndexedEntry>,
    pub skipped: Vec<SkippedLocation>,
}

/// The coverage of a scan that skipped this many locations.
pub open spec fn skips_coverage(skip_count: nat) -> Coverage {
    if skip_count == 0 {
        Coverage::Complete
    } else {
        Coverage::Partial
    }
}

impl ScanReport {
    /// Whether the scan saw every location.
    pub fn coverage(&self) -> (coverage: Coverage)
        ensures
            coverage == skips_coverage(self.skipped@.len()),
            coverage == Coverage::Complete <==> self.skipped@.len() == 0,
    {
        if self.skipped.len() == 0 {
            Coverage::Complete
        } else {
            Coverage::Partial
        }
    }
}

/// What the file system tells of an entry of a directory, without opening it.
#[derive(Debug)]
pub struct Observation {
    pub name: String,
    pub device: u64,
    pub inode: u64,
    pub is_symlink: bool,
    pub is_directory: bool,
    pub is_file: bool,
    pub size: u64,
    pub created_ns: Option<i64>,
    pub modified_ns: Option<i64>,
}

/// What an entry is: a symbolic link is one whatever it points to.
pub open spec fn kind_of(is_symlink: bool, is_directory: bool, is_file: bool) -> EntryKind {
    if is_symlink {
        EntryKind::Symlink
    } else if is_directory {
        EntryKind::Directory
    } else if is_file {
        EntryKind::File
    } else {
        EntryKind::Other
    }
}

/// A name that starts with a dot is hidden.
pub open spec fn hidden_name(name: Seq<char>) -> bool {
    name.len() > 0 && name[0] == '.'
}

/// The identifier of an entry: the bits of the volume rotated left by 17, combined with the inode.
pub open spec fn entry_id_of(volume_id: u64, inode: u64) -> u64 {
    ((volume_id << 17) | (volume_id >> 47)) ^ inode
}

/// Computes the identifier of an entry.
pub fn stable_entry_id(volume_id: u64, inode: u64) -> (id: u64)
    ensures
        id == entry_id_of(volume_id, inode),
{
    ((volume_id << 17) | (volume_id >> 47)) ^ inode
}

/// On one volume, different inodes have different identifiers.
pub proof fn entry_ids_are_distinct(volume_id: u64, left: u64, right: u64)
    requires
        left != right,
    ensures
        entry_id_of(volume_id, left) != entry_id_of(volume_id, right),
{
    let rotated = (volume_id << 17) | (volume_id >> 47);
    assert(rotated ^ left != rotated ^ right) by (bit_vector)
        requires
            left != right,
    ;
}

/// A time in nanoseconds where it is known and fits.
pub open spec fn indexed_time(since_epoch: Option<u128>) -> Option<i64> {
    match since_epoch {
        Some(nanoseconds) => if nanoseconds <= i64::MAX {
            Some(nanoseconds as i64)
        } else {
            None
        },
        None => None,
    }
}

/// Turns a time since the epoch into what the index holds.
pub fn system_time_ns(since_epoch: Option<u128>) -> (time: Option<i64>)
    ensures
        time == indexed_time(since_epoch),
{
    match since_epoch {
        Some(nanoseconds) => if nanoseconds <= i64::MAX as u128 {
            Some(nanoseconds as i64)
        } else {
            None
        },
        None => None,
    }
}

/// The entry that is indexed for an observation.
pub open spec fn entry_of(
    observation: Observation,
    path: FilePath,
    volume_id: u64,
) -> IndexedEntry {
    IndexedEntry {
        entry_id: entry_id_of(volume_id, observation.inode),
        volume_id,
        name: observation.name,
        path,
        kind: kind_of(
            observation.is_symlink,
            observation.is_directory,
            observation.is_file,
        ),
        size: observation.size,
        created_ns: observation.created_ns,
        modified_ns: observation.modified_ns,
        hidden: hidden_name(observation.name@),
    }
}

/// A path at which an indexed directory stands.
pub open spec fn indexed_directory(entries: Seq<IndexedEntry>, path: FilePath) -> bool {
    exists|i: int|
        0 <= i < entries.len() && (#[trigger] entries[i]).path == path && entries[i].kind
            == EntryKind::Directory
}

/// A path that a scan may enumerate: its root, or an indexed directory.
pub open spec fn scannable(entries: Seq<IndexedEntry>, root: FilePath, path: FilePath) -> bool {
    path == root || indexed_directory(entries, path)
}

/// Everything that a scan indexes lies within its root and on the volume of the root.
pub open spec fn entries_belong(
    entries: Seq<IndexedEntry>,
    root: FilePath,
    volume_id: u64,
) -> bool {
    forall|i: int|
        0 <= i < entries.len() ==> (#[trigger] entries[i]).volume_id == volume_id
            && paths::within(entries[i].path.parts(), root.parts())
}

/// Everything that a scan skips lies within its root.
pub open spec fn skips_belong(skipped: Seq<SkippedLocation>, root: FilePath) -> bool {
    forall|i: int|
        0 <= i < skipped.len() ==> paths::within(
            (#[trigger] skipped[i]).path.parts(),
            root.parts(),
        )
}

/// The paths of the directories among some entries, in the order of the entries.
pub open spec fn directories_of(entries: Seq<IndexedEntry>) -> Seq<FilePath>
    decreases entries.len(),
{
    if entries.len() == 0 {
        Seq::empty()
    } else {
        let before = directories_of(entries.drop_last());
        if entries.last().kind == EntryKind::Directory {
            before.push(entries.last().path)
        } else {
            before
        }
    }
}

/// The directories that belong to a scan: its root, and every indexed directory.
pub open spec fn scan_directories(root: FilePath, entries: Seq<IndexedEntry>) -> Seq<FilePath> {
    seq![root] + directories_of(entries)
}

/// A scan in progress. Directories are enumerated in the order in which they were found; whoever
/// runs the scan asks for the next one and hands in what it holds.
pub struct ScanSession {
    root: FilePath,
    volume_id: u64,
    entries: Vec<IndexedEntry>,
    skipped: Vec<SkippedLocation>,
    pending: VecDeque<FilePath>,
    directory: FilePath,
    visited: Ghost<Seq<FilePath>>,
}

impl ScanSession {
    /// What was indexed or skipped belongs to the root, and the directories that were enumerated
    /// or wait to be are the root and every indexed directory, each of them once: neither links
    /// nor other volumes.
    pub open spec fn wf(&self) -> bool {
        &&& entries_belong(self.indexed(), self.base(), self.volume())
        &&& skips_belong(self.left_out(), self.base())
        &&& self.enumerated() + self.waiting() == scan_directories(self.base(), self.indexed())
        &&& scannable(self.indexed(), self.base(), self.current())
    }

    /// The root.
    pub closed spec fn base(&self) -> FilePath {
        self.root
    }

    /// The volume of the root.
    pub closed spec fn volume(&self) -> u64 {
        self.volume_id
    }

    /// The entries so far.
    pub closed spec fn indexed(&self) -> Seq<IndexedEntry> {
        self.entries@
    }

    /// The skipped locations so far.
    pub closed spec fn left_out(&self) -> Seq<SkippedLocation> {
        self.skipped@
    }

    /// The directories that wait to be enumerated.
    pub closed spec fn waiting(&self) -> Seq<FilePath> {
        self.pending@
    }

    /// The directories that were handed out to be enumerated.
    pub closed spec fn enumerated(&self) -> Seq<FilePath> {
        self.visited@
    }

    /// The directory that is being enumerated.
    pub closed spec fn current(&self) -> FilePath {
        self.directory
    }

    /// A scan that has seen nothing yet.
    pub fn new(root: FilePath, volume_id: u64) -> (session: ScanSession)
        ensures
            session.wf(),
            session.base() == root,
            session.volume() == volume_id,
            session.indexed() == Seq::<IndexedEntry>::empty(),
            session.left_out() == Seq::<SkippedLocation>::empty(),
            session.waiting() == seq![root],
            session.enumerated() == Seq::<FilePath>::empty(),
            session.current() == root,
    {
        let mut pending: VecDeque<FilePath> = VecDeque::new();
        pending.push_back(root.clone());
        let directory = root.clone();
        let session = ScanSession {
            root,
            volume_id,
            entries: Vec::new(),
            skipped: Vec::new(),
            pending,
            directory,
            visited: Ghost(Seq::empty()),
        };
        assert(session.waiting() =~= seq![root]);
        assert(session.enumerated() + session.waiting() =~= scan_directories(
            root,
            session.indexed(),
        ));
        session
    }

    /// The directory to enumerate next. Once there is none, the root and every indexed directory
    /// were enumerated.
    pub fn next_directory(&mut self) -> (directory: Option<FilePath>)
        requires
            old(self).wf(),
        ensures
            final(self).wf(),
            final(self).base() == old(self).base(),
            final(self).volume() == old(self).volume(),
            final(self).indexed() == old(self).indexed(),
            final(self).left_out() == old(self).left_out(),
            match directory {
                Some(path) => {
                    &&& old(self).waiting().len() > 0
                    &&& path == old(self).waiting()[0]
                    &&& final(self).waiting() == old(self).waiting().drop_first()
                    &&& final(self).enumerated() == old(self).enumerated().push(path)
                    &&& final(self).current() == path
                    &&& scannable(old(self).indexed(), old(self).base(), path)
                },
                None => {
                    &&& old(self).waiting().len() == 0
                    &&& final(self).waiting() == old(self).waiting()
                    &&& final(self).enumerated() == old(self).enumerated()
                    &&& final(self).enumerated() == scan_directories(
                        final(self).base(),
                        final(self).indexed(),
                    )
                    &&& final(self).current() == old(self).current()
                },
            },
    {
        let ghost before = self.pending@;
        let ghost seen = self.visited@;
        match self.pending.pop_front() {
            Some(path) => {
                self.directory = path.clone();
                proof {
                    assert(self.pending@ =~= before.drop_first());
                    self.visited@ = seen.push(path);
                    assert(self.visited@ + self.pending@ =~= seen + before);
                    assert((seen + before)[seen.len() as int] == path);
                    scan_directories_are_scannable(self.root, self.entries@, seen.len() as int);
                }
                Some(path)
            },
            None => {
                assert(self.visited@ + self.pending@ =~= self.visited@);
                None
            },
        }
    }

    proof fn current_lies_within(&self)
        requires
            self.wf(),
        ensures
            paths::within(self.directory.parts(), self.root.parts()),
    {
        paths::within_is_reflexive(self.root.parts());
        if self.directory != self.root {
            let i = choose|i: int|
                0 <= i < self.entries@.len() && (#[trigger] self.entries@[i]).path
                    == self.directory && self.entries@[i].kind == EntryKind::Directory;
            assert(paths::within(self.entries@[i].path.parts(), self.root.parts()));
        }
    }

    /// Records that the current directory, or one of its entries, could not be listed.
    pub fn listing_failed(&mut self, reason: String)
        requires
            old(self).wf(),
        ensures
            final(self).wf(),
            final(self).base() == old(self).base(),
            final(self).volume() == old(self).volume(),
            final(self).indexed() == old(self).indexed(),
            final(self).waiting() == old(self).waiting(),
            final(self).enumerated() == old(self).enumerated(),
            final(self).current() == old(self).current(),
            final(self).left_out() == old(self).left_out().push(
                SkippedLocation { path: old(self).current(), reason },
            ),
    {
        proof {
            self.current_lies_within();
        }
        let path = self.directory.clone();
        self.skipped.push(SkippedLocation { path, reason });
    }

    /// Records that an entry of the current directory could not be described.
    pub fn description_failed(&mut self, name: &str, reason: String)
        requires
            old(self).wf(),
        ensures
            final(self).wf(),
            final(self).base() == old(self).base(),
            final(self).volume() == old(self).volume(),
            final(self).indexed() == old(self).indexed(),
            final(self).waiting() == old(self).waiting(),
            final(self).enumerated() == old(self).enumerated(),
            final(self).current() == old(self).current(),
            final(self).left_out().len() == old(self).left_out().len() + 1,
            final(self).left_out().drop_last() == old(self).left_out(),
            final(self).left_out().last().path@ == paths::child_text(
                old(self).current()@,
                name@,
            ),
            final(self).left_out().last().reason == reason,
    {
        proof {
            self.current_lies_within();
        }
        let path = self.directory.child(name);
        proof {
            paths::within_is_transitive(
                path.parts(),
                self.directory.parts(),
                self.root.parts(),
            );
        }
        self.skipped.push(SkippedLocation { path, reason });
        assert(self.skipped@.drop_last() =~= old(self).skipped@);
    }

    /// Takes in what the file system tells of an entry of the current directory. An entry on
    /// another volume is skipped; any other one is indexed, and a directory is enumerated later.
    /// Gives the number of indexed entries where one was added.
    pub fn observe(&mut self, observation: Observation) -> (progress: Option<u64>)
        requires
            old(self).wf(),
        ensures
            final(self).wf(),
            final(self).base() == old(self).base(),
            final(self).volume() == old(self).volume(),
            final(self).current() == old(self).current(),
            final(self).enumerated() == old(self).enumerated(),
            observation.device != old(self).volume() ==> {
                &&& progress is None
                &&& final(self).indexed() == old(self).indexed()
                &&& final(self).waiting() == old(self).waiting()
                &&& final(self).left_out().len() == old(self).left_out().len() + 1
                &&& final(self).left_out().drop_last() == old(self).left_out()
                &&& final(self).left_out().last().path@ == paths::child_text(
                    old(self).current()@,
                    observation.name@,
                )
                &&& final(self).left_out().last().reason@ == "mount boundary"@
            },
            observation.device == old(self).volume() ==> {
                &&& final(self).left_out() == old(self).left_out()
                &&& final(self).indexed().len() == old(self).indexed().len() + 1
                &&& final(self).indexed().drop_last() == old(self).indexed()
                &&& final(self).indexed().last() == entry_of(
                    observation,
                    final(self).indexed().last().path,
                    old(self).volume(),
                )
                &&& final(self).indexed().last().path@ == paths::child_text(
                    old(self).current()@,
                    observation.name@,
                )
                &&& progress == Some(final(self).indexed().len() as u64)
                &&& final(self).waiting() == if observation.is_directory
                    && !observation.is_symlink {
                    old(self).waiting().push(final(self).indexed().last().path)
                } else {
                    old(self).waiting()
                }
            },
    {
        proof {
            self.current_lies_within();
        }
        let path = self.directory.child(observation.name.as_str());
        proof {
            paths::within_is_transitive(
                path.parts(),
                self.directory.parts(),
                self.root.parts(),
            );
        }
        if observation.device != self.volume_id {
            let reason = "mount boundary".to_owned();
            self.skipped.push(SkippedLocation { path, reason });
            assert(self.skipped@.drop_last() =~= old(self).skipped@);
            return None;
        }
        let ghost added = entry_of(observation, path, self.volume_id);
        let ghost path_added = path;
        let ghost entries_before = self.entries@;
        let ghost pending_before = self.pending@;
        let kind = if observation.is_symlink {
            EntryKind::Symlink
        } else if observation.is_directory {
            EntryKind::Directory
        } else if observation.is_file {
            EntryKind::File
        } else {
            EntryKind::Other
        };
        let first = chars_of(observation.name.as_str());
        let hidden = first.len() > 0 && first[0] == '.';
        let waits = if observation.is_directory && !observation.is_symlink {
            Some(path.clone())
        } else {
            None
        };
        self.entries.push(
            IndexedEntry {
                entry_id: stable_entry_id(self.volume_id, observation.inode),
                volume_id: self.volume_id,
                name: observation.name,
                path,
                kind,
                size: observation.size,
                created_ns: observation.created_ns,
                modified_ns: observation.modified_ns,
                hidden,
            },
        );
        proof {
            assert(self.entries@ =~= entries_before.push(added));
            assert(self.entries@.drop_last() =~= entries_before);
            assert(directories_of(self.entries@) =~= if added.kind == EntryKind::Directory {
                directories_of(entries_before).push(path_added)
            } else {
                directories_of(entries_before)
            });
            more_entries_keep_scannable(entries_before, added, self.root, self.directory);
        }
        let count: u64 = self.entries.len() as u64;
        if let Some(directory) = waits {
            self.pending.push_back(directory);
            assert(self.visited@ + self.pending@ =~= (self.visited@ + pending_before).push(
                directory,
            ));
        }
        assert(self.visited@ + self.pending@ =~= scan_directories(self.root, self.entries@));
        Some(count)
    }

    /// Ends the scan and reports what it saw, with the entries in the order of their paths.
    pub fn finish(self) -> (report: ScanReport)
        requires
            self.wf(),
        ensures
            report.root == self.base(),
            report.volume_id == self.volume(),
            report.skipped@ == self.left_out(),
            entries_sorted(report.entries@),
            report.entries@.to_multiset() == self.indexed().to_multiset(),
            entries_belong(report.entries@, report.root, report.volume_id),
            skips_belong(report.skipped@, report.root),
    {
        let ghost before = self.entries@;
        let entries = sort_entries(self.entries);
        proof {
            broadcast use vstd::seq_lib::group_to_multiset_ensures;

            assert forall|i: int| 0 <= i < entries@.len() implies (
            #[trigger] entries@[i]).volume_id == self.volume_id && paths::within(
                entries@[i].path.parts(),
                self.root.parts(),
            ) by {
                assert(entries@.contains(entries@[i]));
                assert(entries@.to_multiset().count(entries@[i]) > 0);
                assert(before.contains(entries@[i]));
                let k = choose|k: int| 0 <= k < before.len() && before[k] == entries@[i];
                assert(before[k].volume_id == self.volume_id);
            }
        }
        ScanReport {
            root: self.root,
            volume_id: self.volume_id,
            entries,
            skipped: self.skipped,
        }
    }
}

proof fn more_entries_keep_scannable(
    entries: Seq<IndexedEntry>,
    added: IndexedEntry,
    root: FilePath,
    path: FilePath,
)
    requires
        scannable(entries, root, path),
    ensures
        scannable(entries.push(added), root, path),
{
    let more = entries.push(added);
    if path != root {
        let k = choose|k: int|
            0 <= k < entries.len() && (#[trigger] entries[k]).path == path && entries[k].kind
                == EntryKind::Directory;
        assert(more[k] == entries[k]);
    }
}

/// Every directory of a scan is its root or an indexed directory.
pub proof fn scan_directories_are_scannable(root: FilePath, entries: Seq<IndexedEntry>, at: int)
    requires
        0 <= at < scan_directories(root, entries).len(),
    ensures
        scannable(entries, root, scan_directories(root, entries)[at]),
    decreases entries.len(),
{
    if at > 0 {
        let rest = entries.drop_last();
        let before = directories_of(rest);
        let path = directories_of(entries)[at - 1];
        assert(scan_directories(root, entries)[at] == path);
        if at - 1 < before.len() {
            assert(scan_directories(root, rest)[at] == path);
            scan_directories_are_scannable(root, rest, at);
            more_entries_keep_scannable(rest, entries.last(), root, path);
            assert(rest.push(entries.last()) =~= entries);
        } else {
            assert(entries[entries.len() - 1].path == path);
            assert(indexed_directory(entries, path));
        }
    }
}

/// The entries are in the order of their paths.
pub open spec fn entries_sorted(entries: Seq<IndexedEntry>) -> bool {
    forall|i: int, j: int|
        #![trigger entries[i], entries[j]]
        0 <= i < j < entries.len() ==> paths::parts_order(
            entries[i].path.parts(),
            entries[j].path.parts(),
        ) != Order::Greater
}

/// An entry with the components of its path.
struct KeyedEntry {
    components: Vec<Component>,
    entry: IndexedEntry,
}

impl Sortable for KeyedEntry {
    closed spec fn place(&self, other: &Self) -> Order {
        paths::parts_order(
            paths::parts_in(self.components@),
            paths::parts_in(other.components@),
        )
    }

    proof fn place_is_antisymmetric(left: &Self, right: &Self) {
        paths::parts_order_is_antisymmetric(
            paths::parts_in(left.components@),
            paths::parts_in(right.components@),
        );
    }

    proof fn place_is_transitive(first: &Self, second: &Self, third: &Self) {
        paths::parts_order_is_transitive(
            paths::parts_in(first.components@),
            paths::parts_in(second.components@),
            paths::parts_in(third.components@),
        );
    }

    fn compare(&self, other: &Self) -> (order: Order) {
        compare_components(self.components.as_slice(), other.components.as_slice())
    }
}

spec fn keyed_entries(list: Seq<KeyedEntry>) -> Seq<IndexedEntry> {
    list.map_values(|item: KeyedEntry| item.entry)
}

spec fn keys_fit(list: Seq<KeyedEntry>) -> bool {
    forall|i: int|
        0 <= i < list.len() ==> paths::parts_in((#[trigger] list[i]).components@)
            == list[i].entry.path.parts()
}

/// Sorts entries by their paths.
pub fn sort_entries(entries: Vec<IndexedEntry>) -> (result: Vec<IndexedEntry>)
    ensures
        entries_sorted(result@),
        result@.to_multiset() == entries@.to_multiset(),
{
    let ghost all = entries@;
    let mut keyed: Vec<KeyedEntry> = Vec::new();
    for entry in it: entries.into_iter()
        invariant
            it.seq() == all,
            keyed_entries(keyed@) =~= all.take(it.index()),
            keys_fit(keyed@),
    {
        let ghost before = keyed@;
        let components = entry.path.components();
        keyed.push(KeyedEntry { components, entry });
        assert(keyed_entries(keyed@) =~= keyed_entries(before).push(entry));
    }
    assert(keyed_entries(keyed@) =~= all);
    let ghost unsorted = keyed@;
    let ordered = sort(keyed);
    let ghost list = ordered@;
    proof {
        sorting::same_values_map(unsorted, list, |item: KeyedEntry| item.entry);
        keys_stay(unsorted, list);
    }
    let mut result: Vec<IndexedEntry> = Vec::new();
    for item in it: ordered.into_iter()
        invariant
            it.seq() == list,
            result@ =~= keyed_entries(list).take(it.index()),
    {
        result.push(item.entry);
    }
    assert(result@ =~= keyed_entries(list));
    assert forall|i: int, j: int|
        #![trigger result@[i], result@[j]]
        0 <= i < j < result@.len() implies paths::parts_order(
        result@[i].path.parts(),
        result@[j].path.parts(),
    ) != Order::Greater by {
        assert(list[i].place(&list[j]) != Order::Greater);
    }
    result
}

proof fn keys_stay(before: Seq<KeyedEntry>, after: Seq<KeyedEntry>)
    requires
        keys_fit(before),
        before.to_multiset() == after.to_multiset(),
    ensures
        keys_fit(after),
{
    broadcast use vstd::seq_lib::group_to_multiset_ensures;

    assert forall|i: int| 0 <= i < after.len() implies paths::parts_in(
        (#[trigger] after[i]).components@,
    ) == after[i].entry.path.parts() by {
        assert(after.contains(after[i]));
        assert(after.to_multiset().count(after[i]) > 0);
        assert(before.contains(after[i]));
        let k = choose|k: int| 0 <= k < before.len() && before[k] == after[i];
    }
}

/// An entry tells what was observed of it: inode and volume in its identifier, its name, size and
/// times as they are, whether its name starts with a dot, and what it is. A link is a link even
/// where it leads to a directory.
pub proof fn entries_tell_what_was_observed(
    observation: Observation,
    path: FilePath,
    volume_id: u64,
    rest: Seq<char>,
)
    ensures
        ({
            let entry = entry_of(observation, path, volume_id);
            &&& entry.volume_id == volume_id
            &&& entry.name@ == observation.name@
            &&& entry.path == path
            &&& entry.size == observation.size
            &&& entry.created_ns == observation.created_ns
            &&& entry.modified_ns == observation.modified_ns
            &&& observation.name@ == seq!['.'] + rest ==> entry.hidden
            &&& entry.hidden ==> observation.name@ == seq!['.'] + observation.name@.skip(1)
            &&& entry.kind is Symlink <==> observation.is_symlink
            &&& entry.kind is Directory <==> observation.is_directory && !observation.is_symlink
            &&& entry.kind is File <==> observation.is_file && !observation.is_directory
                && !observation.is_symlink
            &&& entry.kind is Other <==> !observation.is_file && !observation.is_directory
                && !observation.is_symlink
        }),
{
    if entry_of(observation, path, volume_id).hidden {
        assert(observation.name@ =~= seq!['.'] + observation.name@.skip(1));
    }
}

/// The same inode on different volumes has different identifiers.
pub proof fn entry_ids_tell_volumes_apart(left: u64, right: u64, inode: u64)
    requires
        left != right,
    ensures
        entry_id_of(left, inode) != entry_id_of(right, inode),
{
    assert((((left << 17) | (left >> 47)) ^ inode) != (((right << 17) | (right >> 47)) ^ inode))
        by (bit_vector)
        requires
            left != right,
    ;
}

/// A time is indexed as it is where it fits, and is missing where it is unknown or does not fit.
pub proof fn times_are_indexed_as_they_are(nanoseconds: u128)
    ensures
        nanoseconds <= i64::MAX ==> indexed_time(Some(nanoseconds)) == Some(nanoseconds as i64)
            && nanoseconds as i64 == nanoseconds,
        nanoseconds > i64::MAX ==> indexed_time(Some(nanoseconds)) is None,
        indexed_time(None) is None,
{
}

/// A scan enumerates its root and every directory among its entries, and nothing else.
pub proof fn scans_enumerate_every_directory(
    root: FilePath,
    entries: Seq<IndexedEntry>,
    path: FilePath,
)
    ensures
        scan_directories(root, entries).contains(path) <==> path == root || exists|i: int|
            0 <= i < entries.len() && (#[trigger] entries[i]).path == path && entries[i].kind
                == EntryKind::Directory,
{
    let all = scan_directories(root, entries);
    assert(all[0] == root);
    if all.contains(path) {
        let k = choose|k: int| 0 <= k < all.len() && all[k] == path;
        scan_directories_are_scannable(root, entries, k);
    }
    if indexed_directory(entries, path) {
        let i = choose|i: int|
            0 <= i < entries.len() && (#[trigger] entries[i]).path == path && entries[i].kind
                == EntryKind::Directory;
        directories_are_listed(entries, i);
        let list = directories_of(entries);
        let k = choose|k: int| 0 <= k < list.len() && list[k] == path;
        assert(all[k + 1] == path);
    }
}

proof fn directories_are_listed(entries: Seq<IndexedEntry>, at: int)
    requires
        0 <= at < entries.len(),
        entries[at].kind == EntryKind::Directory,
    ensures
        directories_of(entries).contains(entries[at].path),
    decreases entries.len(),
{
    let rest = entries.drop_last();
    let before = directories_of(rest);
    let all = directories_of(entries);
    if at < rest.len() {
        assert(rest[at] == entries[at]);
        directories_are_listed(rest, at);
        let k = choose|k: int| 0 <= k < before.len() && before[k] == entries[at].path;
        assert(all[k] == before[k]);
    } else {
        assert(all[before.len() as int] == entries[at].path);
    }
}

/// A scan is complete exactly where it skipped nothing.
pub proof fn skips_make_a_scan_partial(skip_count: nat)
    ensures
        skips_coverage(skip_count) == Coverage::Complete <==> skip_count == 0,
{
}

/// Sorted entries stand behind the entries of the directories that hold them.
pub proof fn entries_follow_their_directories(
    entries: Seq<IndexedEntry>,
    directory: int,
    entry: int,
    name: paths::Part,
    below: Seq<paths::Part>,
)
    requires
        entries_sorted(entries),
        0 <= directory < entries.len(),
        0 <= entry < entries.len(),
        entries[entry].path.parts() == entries[directory].path.parts().push(name) + below,
    ensures
        directory < entry,
{
    let base = entries[directory].path.parts();
    paths::paths_compare_at_their_first_difference(base, name, below, name, below);
    paths::parts_order_is_antisymmetric(base, entries[entry].path.parts());
    if entry < directory {
        assert(paths::parts_order(entries[entry].path.parts(), base) != Order::Greater);
    }
    if entry == directory {
        assert(entries[entry].path.parts().len() == base.len());
    }
}

} // verus!
