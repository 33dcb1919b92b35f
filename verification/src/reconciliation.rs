//! Following file system events: coalescing hints, planning what to observe again and merging what
//! was observed into the committed index.

use std::time::Duration;

use vstd::prelude::*;

use crate::index::{CommittedIndex, VolumeCheckpoint};
use crate::model::{Coverage, IndexedEntry, SkippedLocation};
use crate::paths::{self, FilePath};
use crate::scanner::{self, sort_entries, ScanReport};
use crate::scopes::{self, is_covered, settle};
use crate::text::{self, same_str};

verus! {

/// The span of time that a number of seconds makes.
pub uninterp spec fn seconds(count: u64) -> Duration;

/// `std::time::Duration::from_secs` makes a span of whole seconds.
pub assume_specification[ Duration::from_secs ](secs: u64) -> (duration: Duration)
    ensures
        duration == seconds(secs),
;

/// How long hints are collected before they are acted on.
#[derive(Clone, Copy, Debug, PartialEq, Eq, Structural)]
pub enum CoalescingPreset {
    Responsive,
    Balanced,
    LowEnergy,
}

impl Default for CoalescingPreset {
    fn default() -> (preset: Self)
        ensures
            preset == CoalescingPreset::Balanced,
    {
        CoalescingPreset::Balanced
    }
}

impl CoalescingPreset {
    /// The length of the window in seconds.
    pub open spec fn window_seconds(self) -> u64 {
        match self {
            CoalescingPreset::Responsive => 1,
            CoalescingPreset::Balanced => 5,
            CoalescingPreset::LowEnergy => 15,
        }
    }

    /// Gives the length of the window.
    pub fn window(self) -> (window: Duration)
        ensures
            window == seconds(self.window_seconds()),
    {
        match self {
            CoalescingPreset::Responsive => Duration::from_secs(1),
            CoalescingPreset::Balanced => Duration::from_secs(5),
            CoalescingPreset::LowEnergy => Duration::from_secs(15),
        }
    }
}

/// Hints from the event stream of a volume.
#[derive(Clone, Debug, PartialEq, Eq)]
pub struct EventBatch {
    pub stream_identity: String,
    pub highest_event_id: u64,
    pub paths: Vec<FilePath>,
    pub history_lost: bool,
    pub ids_wrapped: bool,
    pub root_changed: bool,
}

/// Why something is observed again.
#[derive(Clone, Copy, Debug, PartialEq, Eq, Structural)]
pub enum RecoveryReason {
    NormalReplay,
    MissingOrInvalidCursor,
    StreamIdentityMismatch,
    DroppedHistory,
    EventIdsWrapped,
    RootChanged,
}

/// What is done to bring the index up to date.
#[derive(Clone, Debug, PartialEq, Eq)]
pub enum RecoveryPlan {
    Replay { since_event_id: u64 },
    RepairSubtrees { scopes: Vec<FilePath>, reason: RecoveryReason },
    RebuildVolume { reason: RecoveryReason },
}

/// A checkpoint from which the stream can be replayed: it belongs to the stream, its cursor is
/// neither zero nor the one that stands for now, and its generation is the published one.
pub open spec fn replayable(
    checkpoint: VolumeCheckpoint,
    stream_identity: Seq<char>,
    published_generation: u64,
) -> bool {
    &&& checkpoint.stream_identity@ == stream_identity
    &&& checkpoint.event_id != 0
    &&& checkpoint.event_id != u64::MAX
    &&& checkpoint.generation == published_generation
}

/// Plans how an event stream is started.
pub fn plan_stream_start(
    checkpoint: Option<&VolumeCheckpoint>,
    stream_identity: &str,
    published_generation: u64,
) -> (plan: RecoveryPlan)
    ensures
        plan == match checkpoint {
            None => RecoveryPlan::RebuildVolume { reason: RecoveryReason::MissingOrInvalidCursor },
            Some(found) => if found.stream_identity@ != stream_identity@ {
                RecoveryPlan::RebuildVolume { reason: RecoveryReason::StreamIdentityMismatch }
            } else if !replayable(*found, stream_identity@, published_generation) {
                RecoveryPlan::RebuildVolume { reason: RecoveryReason::MissingOrInvalidCursor }
            } else {
                RecoveryPlan::Replay { since_event_id: found.event_id }
            },
        },
{
    let found = match checkpoint {
        Some(found) => found,
        None => {
            return RecoveryPlan::RebuildVolume { reason: RecoveryReason::MissingOrInvalidCursor };
        },
    };
    if !same_str(found.stream_identity.as_str(), stream_identity) {
        return RecoveryPlan::RebuildVolume { reason: RecoveryReason::StreamIdentityMismatch };
    }
    if found.event_id == 0 || found.event_id == u64::MAX || found.generation
        != published_generation {
        return RecoveryPlan::RebuildVolume { reason: RecoveryReason::MissingOrInvalidCursor };
    }
    RecoveryPlan::Replay { since_event_id: found.event_id }
}

/// What is observed again for one changed path: the root itself, or the directory of the path.
pub open spec fn scope_of_change(root: Seq<char>, path: Seq<char>) -> Seq<char> {
    if paths::parts(path) == paths::parts(root) {
        root
    } else {
        match paths::parent_text(path) {
            Some(parent) => if paths::within(
                paths::parts(parent),
                paths::parts(root),
            ) {
                parent
            } else {
                root
            },
            None => root,
        }
    }
}

/// What is observed again for the changed paths within a root.
pub open spec fn scopes_of_changes(root: Seq<char>, paths: Seq<Seq<char>>) -> Seq<Seq<char>>
    decreases paths.len(),
{
    if paths.len() == 0 {
        Seq::empty()
    } else {
        let before = scopes_of_changes(root, paths.drop_last());
        if paths::within(paths::parts(paths.last()), paths::parts(root)) {
            before.push(scope_of_change(root, paths.last()))
        } else {
            before
        }
    }
}

/// The fewest scopes that are observed again for the changed paths within a root.
pub open spec fn minimal_scopes(root: Seq<char>, paths: Seq<Seq<char>>) -> Seq<Seq<char>> {
    scopes::absorb_all(Seq::empty(), scopes_of_changes(root, paths))
}

/// One of the scopes is the root.
pub open spec fn names_root(scopes: Seq<Seq<char>>, root: Seq<char>) -> bool {
    exists|i: int|
        0 <= i < scopes.len() && paths::parts(#[trigger] scopes[i]) == paths::parts(
            root,
        )
}

/// Reduces changed paths to the fewest scopes that have to be observed again.
pub fn minimal_safe_scopes(root: &FilePath, paths: &[FilePath]) -> (scopes: Vec<FilePath>)
    ensures
        scopes::settled(
            scopes::path_texts(scopes@),
            Seq::empty(),
            scopes_of_changes(root@, scopes::path_texts(paths@)),
        ),
{
    let ghost texts = scopes::path_texts(paths@);
    let mut wanted: Vec<FilePath> = Vec::new();
    assert(texts.take(0) =~= Seq::empty());
    assert(scopes::path_texts(wanted@) =~= Seq::empty());
    for i in 0..paths.len()
        invariant
            texts == scopes::path_texts(paths@),
            scopes::path_texts(wanted@) =~= scopes_of_changes(root@, texts.take(i as int)),
    {
        let path = &paths[i];
        proof {
            assert(texts.take(i + 1).drop_last() =~= texts.take(i as int));
            assert(texts.take(i + 1).last() == path@);
        }
        if path.starts_with(root) {
            let scope = if path.same_as(root) {
                root.clone()
            } else {
                match path.parent() {
                    Some(parent) => if parent.starts_with(root) {
                        parent
                    } else {
                        root.clone()
                    },
                    None => root.clone(),
                }
            };
            let ghost before = wanted@;
            wanted.push(scope);
            assert(scopes::path_texts(wanted@) =~= scopes::path_texts(before).push(
                scope@,
            ));
        }
    }
    assert(texts.take(texts.len() as int) =~= texts);
    let none: Vec<FilePath> = Vec::new();
    assert(scopes::path_texts(none@) =~= Seq::empty());
    settle(none, wanted)
}

/// The reason for acting on a batch.
pub open spec fn batch_reason(batch: EventBatch) -> RecoveryReason {
    if batch.ids_wrapped {
        RecoveryReason::EventIdsWrapped
    } else if batch.root_changed {
        RecoveryReason::RootChanged
    } else if batch.history_lost {
        RecoveryReason::DroppedHistory
    } else {
        RecoveryReason::NormalReplay
    }
}

/// The whole volume has to be observed again: event numbers wrapped, or hints were lost and the
/// known ones leave no scope narrower than the root.
pub open spec fn needs_rebuild(root: Seq<char>, batch: EventBatch) -> bool {
    let scopes = minimal_scopes(root, scopes::path_texts(batch.paths@));
    batch.ids_wrapped || ((batch.history_lost || batch.root_changed) && (scopes.len() == 0
        || names_root(scopes, root)))
}

/// Whether one of the scopes is the root.
fn includes_root(scopes: &[FilePath], root: &FilePath) -> (found: bool)
    ensures
        found == names_root(scopes::path_texts(scopes@), root@),
{
    let ghost texts = scopes::path_texts(scopes@);
    for i in 0..scopes.len()
        invariant
            texts == scopes::path_texts(scopes@),
            forall|k: int|
                0 <= k < i ==> paths::parts(#[trigger] texts[k]) != paths::parts(
                    root@,
                ),
    {
        assert(texts[i as int] == scopes@[i as int]@);
        if scopes[i].same_as(root) {
            assert(paths::parts(texts[i as int]) == paths::parts(root@));
            return true;
        }
    }
    false
}

proof fn order_does_not_matter(left: Seq<Seq<char>>, right: Seq<Seq<char>>, root: Seq<char>)
    requires
        left.to_multiset() == right.to_multiset(),
    ensures
        left.len() == right.len(),
        names_root(left, root) ==> names_root(right, root),
{
    broadcast use vstd::seq_lib::group_to_multiset_ensures;

    assert(left.len() == left.to_multiset().len());
    assert(right.len() == right.to_multiset().len());
    if names_root(left, root) {
        let i = choose|i: int|
            0 <= i < left.len() && paths::parts(#[trigger] left[i]) == paths::parts(
                root,
            );
        assert(left.contains(left[i]));
        assert(left.to_multiset().count(left[i]) > 0);
        assert(right.contains(left[i]));
        let k = choose|k: int| 0 <= k < right.len() && right[k] == left[i];
        assert(paths::parts(right[k]) == paths::parts(root));
    }
}

/// Plans what is observed again for a batch of hints.
pub fn plan_batch(root: &FilePath, batch: &EventBatch) -> (plan: RecoveryPlan)
    ensures
        needs_rebuild(root@, *batch) ==> plan == (RecoveryPlan::RebuildVolume {
            reason: batch_reason(*batch),
        }),
        !needs_rebuild(root@, *batch) ==> match plan {
            RecoveryPlan::RepairSubtrees { scopes, reason } => reason == batch_reason(*batch)
                && scopes::settled(
                scopes::path_texts(scopes@),
                Seq::empty(),
                scopes_of_changes(root@, scopes::path_texts(batch.paths@)),
            ),
            _ => false,
        },
{
    if batch.ids_wrapped {
        return RecoveryPlan::RebuildVolume { reason: RecoveryReason::EventIdsWrapped };
    }
    let scopes = minimal_safe_scopes(root, batch.paths.as_slice());
    let reason = if batch.root_changed {
        RecoveryReason::RootChanged
    } else if batch.history_lost {
        RecoveryReason::DroppedHistory
    } else {
        RecoveryReason::NormalReplay
    };
    proof {
        let list = scopes::path_texts(scopes@);
        let all = minimal_scopes(root@, scopes::path_texts(batch.paths@));
        order_does_not_matter(list, all, root@);
        order_does_not_matter(all, list, root@);
    }
    if (batch.history_lost || batch.root_changed) && (scopes.len() == 0 || includes_root(
        scopes.as_slice(),
        root,
    )) {
        return RecoveryPlan::RebuildVolume { reason };
    }
    RecoveryPlan::RepairSubtrees { scopes, reason }
}

/// What is observed again for a changed path lies within the root and leads to the path.
proof fn scope_of_change_is_safe(root: Seq<char>, path: Seq<char>)
    requires
        paths::within(paths::parts(path), paths::parts(root)),
    ensures
        paths::within(
            paths::parts(scope_of_change(root, path)),
            paths::parts(root),
        ),
        paths::within(
            paths::parts(path),
            paths::parts(scope_of_change(root, path)),
        ),
{
    paths::within_is_reflexive(paths::parts(root));
    paths::parent_drops_the_last_part(path);
    if let Some(parent) = paths::parent_text(path) {
        let all = paths::parts(path);
        assert(paths::parts(path).len() > 0) by {
            assert(paths::spans(path).len() > 0);
        }
        assert(all.take(all.len() - 1) =~= all.drop_last());
    }
}

proof fn scopes_of_changes_are_safe(root: Seq<char>, paths: Seq<Seq<char>>)
    ensures
        forall|i: int|
            #![trigger scopes_of_changes(root, paths)[i]]
            0 <= i < scopes_of_changes(root, paths).len() ==> paths::within(
                paths::parts(scopes_of_changes(root, paths)[i]),
                paths::parts(root),
            ),
        forall|i: int|
            0 <= i < paths.len() && paths::within(
                paths::parts(#[trigger] paths[i]),
                paths::parts(root),
            ) ==> scopes::covered(scopes_of_changes(root, paths), paths[i])
                && scopes_of_changes(root, paths).contains(scope_of_change(root, paths[i])),
    decreases paths.len(),
{
    if paths.len() > 0 {
        let rest = paths.drop_last();
        let last = paths.last();
        let before = scopes_of_changes(root, rest);
        let all = scopes_of_changes(root, paths);
        scopes_of_changes_are_safe(root, rest);
        if paths::within(paths::parts(last), paths::parts(root)) {
            scope_of_change_is_safe(root, last);
            assert(all[before.len() as int] == scope_of_change(root, last));
        }
        assert forall|i: int|
            #![trigger all[i]]
            0 <= i < all.len() implies paths::within(
            paths::parts(all[i]),
            paths::parts(root),
        ) by {
            if i < before.len() {
                assert(all[i] == before[i]);
            }
        }
        assert forall|i: int|
            0 <= i < paths.len() && paths::within(
                paths::parts(#[trigger] paths[i]),
                paths::parts(root),
            ) implies scopes::covered(all, paths[i]) && all.contains(
            scope_of_change(root, paths[i]),
        ) by {
            if i < rest.len() {
                assert(rest[i] == paths[i]);
                let k = choose|k: int|
                    0 <= k < before.len() && paths::within(
                        paths::parts(rest[i]),
                        paths::parts(#[trigger] before[k]),
                    );
                assert(all[k] == before[k]);
                let m = choose|m: int|
                    0 <= m < before.len() && before[m] == scope_of_change(root, rest[i]);
                assert(all[m] == before[m]);
            }
        }
    }
}

/// The scopes of a batch lie within the root, are separate from each other, and cover every
/// changed path within the root.
pub proof fn repair_scopes_are_safe_and_minimal(
    scopes: Seq<Seq<char>>,
    root: Seq<char>,
    paths: Seq<Seq<char>>,
)
    requires
        scopes::settled(scopes, Seq::empty(), scopes_of_changes(root, paths)),
    ensures
        scopes::separate(scopes),
        forall|i: int|
            #![trigger scopes[i]]
            0 <= i < scopes.len() ==> paths::within(
                paths::parts(scopes[i]),
                paths::parts(root),
            ),
        forall|i: int|
            0 <= i < paths.len() && paths::within(
                paths::parts(#[trigger] paths[i]),
                paths::parts(root),
            ) ==> scopes::covered(scopes, paths[i]),
{
    let wanted = scopes_of_changes(root, paths);
    scopes::settled_scopes_are_minimal(scopes, Seq::empty(), wanted);
    scopes_of_changes_are_safe(root, paths);
    assert forall|i: int|
        #![trigger scopes[i]]
        0 <= i < scopes.len() implies paths::within(
        paths::parts(scopes[i]),
        paths::parts(root),
    ) by {
        assert(wanted.contains(scopes[i]));
        let k = choose|k: int| 0 <= k < wanted.len() && wanted[k] == scopes[i];
        assert(paths::within(
            paths::parts(wanted[k]),
            paths::parts(root),
        ));
    }
    assert forall|i: int|
        0 <= i < paths.len() && paths::within(
            paths::parts(#[trigger] paths[i]),
            paths::parts(root),
        ) implies scopes::covered(scopes, paths[i]) by {
        let scope = scope_of_change(root, paths[i]);
        scope_of_change_is_safe(root, paths[i]);
        let k = choose|k: int| 0 <= k < wanted.len() && wanted[k] == scope;
        assert(scopes::covered(scopes, wanted[k]));
        let m = choose|m: int|
            0 <= m < scopes.len() && paths::within(
                paths::parts(scope),
                paths::parts(#[trigger] scopes[m]),
            );
        paths::within_is_transitive(
            paths::parts(paths[i]),
            paths::parts(scope),
            paths::parts(scopes[m]),
        );
    }
}

/// A stream that starts with the hint that its whole root has changed leads to a rebuild.
pub proof fn changed_root_rebuilds(root: Seq<char>, batch: EventBatch)
    requires
        batch.root_changed,
        scopes::path_texts(batch.paths@) == seq![root],
    ensures
        needs_rebuild(root, batch),
{
    let paths = seq![root];
    paths::within_is_reflexive(paths::parts(root));
    assert(paths.drop_last() =~= Seq::empty());
    assert(scopes_of_changes(root, paths.drop_last()) =~= Seq::empty());
    let wanted = scopes_of_changes(root, paths);
    assert(wanted =~= seq![root]);
    assert(wanted.drop_last() =~= Seq::empty());
    let none = Seq::<Seq<char>>::empty();
    assert(scopes::absorb_all(none, wanted.drop_last()) == none);
    assert(!scopes::covered(none, root));
    let scopes = minimal_scopes(root, paths);
    assert(scopes =~= seq![root]);
    assert(paths::parts(scopes[0]) == paths::parts(root));
}

/// What hints are pending.
pub struct Hints {
    pub paths: Seq<Seq<char>>,
    pub highest_event_id: u64,
    pub history_lost: bool,
    pub ids_wrapped: bool,
    pub root_changed: bool,
    pub stream_identity: Seq<char>,
}

impl Hints {
    /// No hints.
    pub open spec fn none() -> Hints {
        Hints {
            paths: Seq::empty(),
            highest_event_id: 0,
            history_lost: false,
            ids_wrapped: false,
            root_changed: false,
            stream_identity: Seq::empty(),
        }
    }

    /// There is something to act on.
    pub open spec fn pending(self) -> bool {
        self.history_lost || self.ids_wrapped || self.root_changed || self.paths.len() > 0
    }
}

impl View for EventBatch {
    type V = Hints;

    open spec fn view(&self) -> Hints {
        Hints {
            paths: scopes::path_texts(self.paths@),
            highest_event_id: self.highest_event_id,
            history_lost: self.history_lost,
            ids_wrapped: self.ids_wrapped,
            root_changed: self.root_changed,
            stream_identity: self.stream_identity@,
        }
    }
}

/// Collects hints until they are acted on.
pub struct HintCoalescer {
    paths: Vec<FilePath>,
    highest_event_id: u64,
    history_lost: bool,
    ids_wrapped: bool,
    root_changed: bool,
    stream_identity: String,
}

impl View for HintCoalescer {
    type V = Hints;

    closed spec fn view(&self) -> Hints {
        Hints {
            paths: scopes::path_texts(self.paths@),
            highest_event_id: self.highest_event_id,
            history_lost: self.history_lost,
            ids_wrapped: self.ids_wrapped,
            root_changed: self.root_changed,
            stream_identity: self.stream_identity@,
        }
    }
}

impl Default for HintCoalescer {
    fn default() -> (coalescer: Self)
        ensures
            coalescer@ == Hints::none(),
    {
        let coalescer = HintCoalescer {
            paths: Vec::new(),
            highest_event_id: 0,
            history_lost: false,
            ids_wrapped: false,
            root_changed: false,
            stream_identity: String::new(),
        };
        assert(scopes::path_texts(coalescer.paths@) =~= Seq::empty());
        coalescer
    }
}

/// `after` holds the hints of `before` and of a batch: the paths of both in as few scopes as
/// cover them, the higher event number, every flag that was raised, and the stream of the batch.
pub open spec fn hints_joined(before: Hints, batch: Hints, after: Hints) -> bool {
    &&& scopes::settled(after.paths, before.paths, batch.paths)
    &&& after.highest_event_id == if before.highest_event_id < batch.highest_event_id {
        batch.highest_event_id
    } else {
        before.highest_event_id
    }
    &&& after.history_lost == (before.history_lost || batch.history_lost)
    &&& after.ids_wrapped == (before.ids_wrapped || batch.ids_wrapped)
    &&& after.root_changed == (before.root_changed || batch.root_changed)
    &&& after.stream_identity == batch.stream_identity
}

impl HintCoalescer {
    /// Takes the hints of a batch in.
    pub fn push(&mut self, batch: EventBatch)
        ensures
            hints_joined(old(self)@, batch@, final(self)@),
    {
        if self.highest_event_id < batch.highest_event_id {
            self.highest_event_id = batch.highest_event_id;
        }
        self.history_lost = self.history_lost || batch.history_lost;
        self.ids_wrapped = self.ids_wrapped || batch.ids_wrapped;
        self.root_changed = self.root_changed || batch.root_changed;
        self.stream_identity = batch.stream_identity;
        let mut paths: Vec<FilePath> = Vec::new();
        std::mem::swap(&mut paths, &mut self.paths);
        self.paths = settle(paths, batch.paths);
    }

    /// Whether there is something to act on.
    pub fn has_pending(&self) -> (pending: bool)
        ensures
            pending == self@.pending(),
    {
        self.history_lost || self.ids_wrapped || self.root_changed || self.paths.len() > 0
    }

    /// Hands the pending hints out and forgets them.
    pub fn take(&mut self) -> (batch: Option<EventBatch>)
        ensures
            match batch {
                Some(hints) => old(self)@.pending() && hints@ == old(self)@ && final(self)@
                    == Hints::none(),
                None => !old(self)@.pending() && final(self)@ == old(self)@,
            },
    {
        if !self.has_pending() {
            return None;
        }
        let mut paths: Vec<FilePath> = Vec::new();
        let mut stream_identity = String::new();
        std::mem::swap(&mut paths, &mut self.paths);
        std::mem::swap(&mut stream_identity, &mut self.stream_identity);
        let batch = EventBatch {
            stream_identity,
            highest_event_id: self.highest_event_id,
            paths,
            history_lost: self.history_lost,
            ids_wrapped: self.ids_wrapped,
            root_changed: self.root_changed,
        };
        self.highest_event_id = 0;
        self.history_lost = false;
        self.ids_wrapped = false;
        self.root_changed = false;
        assert(scopes::path_texts(self.paths@) =~= Seq::empty());
        Some(batch)
    }
}

/// Pending paths stay separate from each other, and every path of an earlier or later batch stays
/// covered until the hints are taken.
pub proof fn coalescing_covers_every_hint(before: Hints, batch: Hints, after: Hints)
    requires
        scopes::separate(before.paths),
        hints_joined(before, batch, after),
    ensures
        scopes::separate(after.paths),
        forall|i: int|
            0 <= i < batch.paths.len() ==> scopes::covered(
                after.paths,
                #[trigger] batch.paths[i],
            ),
        forall|path: Seq<char>| #[trigger]
            scopes::covered(before.paths, path) ==> scopes::covered(
                after.paths,
                path,
            ),
        before.pending() ==> after.pending(),
{
    broadcast use vstd::seq_lib::group_to_multiset_ensures;

    scopes::settled_scopes_are_minimal(after.paths, before.paths, batch.paths);
    if before.paths.len() > 0 {
        paths::within_is_reflexive(paths::parts(before.paths[0]));
        assert(scopes::covered(before.paths, before.paths[0]));
        assert(scopes::covered(after.paths, before.paths[0]));
    }
}

/// The states of a coalescer that starts without hints and takes batches in, one after the other.
pub open spec fn pushed_in_turn(batches: Seq<Hints>, states: Seq<Hints>) -> bool {
    &&& states.len() == batches.len() + 1
    &&& states[0] == Hints::none()
    &&& forall|i: int|
        0 <= i < batches.len() ==> hints_joined(
            states[i],
            #[trigger] batches[i],
            states[i + 1],
        )
}

/// A batch among the first `count` hints at the path with these components.
pub open spec fn hinted(batches: Seq<Hints>, count: int, parts: Seq<paths::Part>) -> bool {
    exists|i: int, j: int|
        0 <= i < count && 0 <= j < batches[i].paths.len() && paths::parts(
            #[trigger] batches[i].paths[j],
        ) == parts
}

/// The batches hint at the path with these components and at no other path that it leads through.
pub open spec fn outermost(batches: Seq<Hints>, parts: Seq<paths::Part>) -> bool {
    &&& hinted(batches, batches.len() as int, parts)
    &&& forall|other: Seq<paths::Part>| #[trigger]
        hinted(batches, batches.len() as int, other) && paths::within(parts, other)
            ==> other == parts
}

/// The components of some paths.
pub open spec fn parts_of(paths: Seq<Seq<char>>) -> Seq<Seq<paths::Part>> {
    paths.map_values(|path: Seq<char>| paths::parts(path))
}

/// The paths stand in their order, none of them twice.
pub open spec fn strictly_sorted(list: Seq<Seq<paths::Part>>) -> bool {
    forall|i: int, j: int|
        #![trigger list[i], list[j]]
        0 <= i < j < list.len() ==> paths::parts_order(list[i], list[j]) == text::Order::Less
}

/// What the paths of a coalescer have to do with the batches so far.
proof fn pending_paths_after(batches: Seq<Hints>, states: Seq<Hints>, count: int)
    requires
        pushed_in_turn(batches, states),
        0 <= count <= batches.len(),
    ensures
        scopes::separate(states[count].paths),
        scopes::paths_sorted(states[count].paths),
        forall|parts: Seq<paths::Part>| #[trigger]
            hinted(batches, count, parts) ==> exists|k: int|
                0 <= k < states[count].paths.len() && paths::within(
                    parts,
                    paths::parts(#[trigger] states[count].paths[k]),
                ),
        forall|k: int|
            0 <= k < states[count].paths.len() ==> hinted(
                batches,
                count,
                paths::parts(#[trigger] states[count].paths[k]),
            ),
    decreases count,
{
    if count > 0 {
        let last = count - 1;
        let before = states[last];
        let after = states[count];
        let batch = batches[last];
        pending_paths_after(batches, states, last);
        assert(hints_joined(before, batch, states[last + 1]));
        scopes::settled_scopes_are_minimal(after.paths, before.paths, batch.paths);
        assert forall|parts: Seq<paths::Part>| #[trigger]
            hinted(batches, count, parts) implies exists|k: int|
            0 <= k < after.paths.len() && paths::within(
                parts,
                paths::parts(#[trigger] after.paths[k]),
            ) by {
            let (i, j) = choose|i: int, j: int|
                0 <= i < count && 0 <= j < batches[i].paths.len() && paths::parts(
                    #[trigger] batches[i].paths[j],
                ) == parts;
            if i < last {
                assert(hinted(batches, last, parts));
                let k = choose|k: int|
                    0 <= k < before.paths.len() && paths::within(
                        parts,
                        paths::parts(#[trigger] before.paths[k]),
                    );
                assert(paths::within(
                    paths::parts(batches[i].paths[j]),
                    paths::parts(before.paths[k]),
                ));
                assert(scopes::covered(before.paths, batches[i].paths[j]));
                assert(scopes::covered(after.paths, batches[i].paths[j]));
            } else {
                assert(scopes::covered(after.paths, batch.paths[j]));
            }
        }
        assert forall|k: int| 0 <= k < after.paths.len() implies hinted(
            batches,
            count,
            paths::parts(#[trigger] after.paths[k]),
        ) by {
            let path = after.paths[k];
            if batch.paths.contains(path) {
                let j = choose|j: int| 0 <= j < batch.paths.len() && batch.paths[j] == path;
                assert(paths::parts(batches[last].paths[j]) == paths::parts(path));
            } else {
                assert(before.paths.contains(path));
                let m = choose|m: int| 0 <= m < before.paths.len() && before.paths[m] == path;
                assert(hinted(batches, last, paths::parts(before.paths[m])));
                let (i, j) = choose|i: int, j: int|
                    0 <= i < last && 0 <= j < batches[i].paths.len() && paths::parts(
                        #[trigger] batches[i].paths[j],
                    ) == paths::parts(path);
                assert(paths::parts(batches[i].paths[j]) == paths::parts(path));
            }
        }
    }
}

/// The pending paths after any number of pushes are the outermost ones of all the batches, in
/// their order and none of them twice.
pub proof fn pending_paths_are_the_outermost(batches: Seq<Hints>, states: Seq<Hints>)
    requires
        pushed_in_turn(batches, states),
    ensures
        strictly_sorted(parts_of(states.last().paths)),
        forall|parts: Seq<paths::Part>| #[trigger]
            parts_of(states.last().paths).contains(parts) <==> outermost(batches, parts),
{
    let count = batches.len() as int;
    let list = states.last().paths;
    let all = parts_of(list);
    pending_paths_after(batches, states, count);
    assert forall|i: int, j: int|
        #![trigger all[i], all[j]]
        0 <= i < j < all.len() implies paths::parts_order(all[i], all[j])
        == text::Order::Less by {
        assert(all[i] == paths::parts(list[i]) && all[j] == paths::parts(list[j]));
        paths::parts_order_is_antisymmetric(all[i], all[j]);
        paths::within_is_reflexive(all[i]);
    }
    assert forall|parts: Seq<paths::Part>| #[trigger] all.contains(parts) implies outermost(
        batches,
        parts,
    ) by {
        let k = choose|k: int| 0 <= k < all.len() && all[k] == parts;
        assert(hinted(batches, count, paths::parts(list[k])));
        assert forall|other: Seq<paths::Part>| #[trigger]
            hinted(batches, count, other) && paths::within(parts, other) implies other
            == parts by {
            let m = choose|m: int|
                0 <= m < list.len() && paths::within(other, paths::parts(#[trigger] list[m]));
            paths::within_is_transitive(parts, other, paths::parts(list[m]));
            if m != k {
                assert(!paths::within(paths::parts(list[k]), paths::parts(list[m])));
            }
            assert(other.take(parts.len() as int) =~= other);
        }
    }
    assert forall|parts: Seq<paths::Part>| outermost(batches, parts) implies #[trigger]
        all.contains(parts) by {
        let m = choose|m: int|
            0 <= m < list.len() && paths::within(parts, paths::parts(#[trigger] list[m]));
        assert(hinted(batches, count, paths::parts(list[m])));
        assert(all[m] == parts);
    }
}

/// What a coalescer holds after taking batches in: the highest event of any of them, each flag
/// that any of them raised, the stream of the last one, and nothing that was not in one of them.
pub proof fn pending_hints_join_every_batch(batches: Seq<Hints>, states: Seq<Hints>)
    requires
        pushed_in_turn(batches, states),
        batches.len() > 0,
    ensures
        forall|i: int|
            0 <= i < batches.len() ==> (#[trigger] batches[i]).highest_event_id
                <= states.last().highest_event_id,
        exists|i: int|
            0 <= i < batches.len() && (#[trigger] batches[i]).highest_event_id
                == states.last().highest_event_id,
        states.last().history_lost <==> exists|i: int|
            0 <= i < batches.len() && (#[trigger] batches[i]).history_lost,
        states.last().ids_wrapped <==> exists|i: int|
            0 <= i < batches.len() && (#[trigger] batches[i]).ids_wrapped,
        states.last().root_changed <==> exists|i: int|
            0 <= i < batches.len() && (#[trigger] batches[i]).root_changed,
        states.last().stream_identity == batches.last().stream_identity,
    decreases batches.len(),
{
    let last = batches.len() - 1;
    let before = states[last];
    let after = states[last + 1];
    assert(hints_joined(before, batches[last], states[last + 1]));
    if last > 0 {
        let earlier = batches.drop_last();
        let earlier_states = states.drop_last();
        assert forall|i: int| 0 <= i < earlier.len() implies hints_joined(
            earlier_states[i],
            #[trigger] earlier[i],
            earlier_states[i + 1],
        ) by {
            assert(earlier[i] == batches[i]);
        }
        pending_hints_join_every_batch(earlier, earlier_states);
        assert(earlier_states.last() == before);
        assert forall|i: int| 0 <= i < batches.len() implies (
        #[trigger] batches[i]).highest_event_id <= after.highest_event_id && (
        batches[i].history_lost ==> after.history_lost) && (batches[i].ids_wrapped
            ==> after.ids_wrapped) && (batches[i].root_changed ==> after.root_changed) by {
            if i < last {
                assert(earlier[i] == batches[i]);
            }
        }
        let top = choose|i: int|
            0 <= i < earlier.len() && (#[trigger] earlier[i]).highest_event_id
                == before.highest_event_id;
        assert(batches[top] == earlier[top]);
        if before.history_lost {
            let i = choose|i: int| 0 <= i < earlier.len() && (#[trigger] earlier[i]).history_lost;
            assert(batches[i] == earlier[i]);
        }
        if before.ids_wrapped {
            let i = choose|i: int| 0 <= i < earlier.len() && (#[trigger] earlier[i]).ids_wrapped;
            assert(batches[i] == earlier[i]);
        }
        if before.root_changed {
            let i = choose|i: int| 0 <= i < earlier.len() && (#[trigger] earlier[i]).root_changed;
            assert(batches[i] == earlier[i]);
        }
    }
}

/// The pending paths do not depend on the order in which batches come in, nor on how the hints are
/// spread over them: where the batches of two coalescers hint at the same paths, the same paths
/// are pending in both.
pub proof fn pending_paths_come_in_any_order(
    left: Seq<Hints>,
    left_states: Seq<Hints>,
    right: Seq<Hints>,
    right_states: Seq<Hints>,
)
    requires
        pushed_in_turn(left, left_states),
        pushed_in_turn(right, right_states),
        forall|parts: Seq<paths::Part>| #[trigger]
            hinted(left, left.len() as int, parts) <==> hinted(right, right.len() as int, parts),
    ensures
        parts_of(left_states.last().paths) == parts_of(right_states.last().paths),
{
    pending_paths_are_the_outermost(left, left_states);
    pending_paths_are_the_outermost(right, right_states);
    let one = parts_of(left_states.last().paths);
    let two = parts_of(right_states.last().paths);
    assert forall|parts: Seq<paths::Part>| #[trigger] one.contains(parts) <==> two.contains(
        parts,
    ) by {
        assert(outermost(left, parts) <==> outermost(right, parts)) by {
            if outermost(left, parts) {
                assert forall|other: Seq<paths::Part>| #[trigger]
                    hinted(right, right.len() as int, other) && paths::within(
                        parts,
                        other,
                    ) implies other == parts by {
                    assert(hinted(left, left.len() as int, other));
                }
            }
            if outermost(right, parts) {
                assert forall|other: Seq<paths::Part>| #[trigger]
                    hinted(left, left.len() as int, other) && paths::within(
                        parts,
                        other,
                    ) implies other == parts by {
                    assert(hinted(right, right.len() as int, other));
                }
            }
        }
    }
    strict_order_is_unique(one, two);
}

/// Leaving out the last path of two lists keeps what is in the one and in the other.
proof fn all_but_the_last(
    left: Seq<Seq<paths::Part>>,
    right: Seq<Seq<paths::Part>>,
    parts: Seq<paths::Part>,
)
    requires
        strictly_sorted(left),
        left.len() > 0,
        right.len() > 0,
        left.last() == right.last(),
        left.contains(parts) ==> right.contains(parts),
    ensures
        left.drop_last().contains(parts) ==> right.drop_last().contains(parts),
{
    let less = left.drop_last();
    let rest = right.drop_last();
    if less.contains(parts) {
        let k = choose|k: int| 0 <= k < less.len() && less[k] == parts;
        let last = left.len() - 1;
        assert(left[k] == parts);
        assert(paths::parts_order(left[k], left[last]) == text::Order::Less);
        paths::parts_order_is_antisymmetric(parts, left.last());
        assert(left.contains(parts));
        let m = choose|m: int| 0 <= m < right.len() && right[m] == parts;
        assert(rest[m] == parts);
    }
}

proof fn strict_order_without_the_last(list: Seq<Seq<paths::Part>>)
    requires
        strictly_sorted(list),
        list.len() > 0,
    ensures
        strictly_sorted(list.drop_last()),
{
    let less = list.drop_last();
    assert forall|x: int, y: int|
        #![trigger less[x], less[y]]
        0 <= x < y < less.len() implies paths::parts_order(less[x], less[y])
        == text::Order::Less by {
        assert(less[x] == list[x] && less[y] == list[y]);
    }
}

/// The last path of a list comes after every other one in it.
proof fn last_comes_last(list: Seq<Seq<paths::Part>>, parts: Seq<paths::Part>)
    requires
        strictly_sorted(list),
        list.contains(parts),
    ensures
        parts == list.last() || paths::parts_order(parts, list.last()) == text::Order::Less,
{
    let k = choose|k: int| 0 <= k < list.len() && list[k] == parts;
    let last = list.len() - 1;
    if k < last {
        assert(paths::parts_order(list[k], list[last]) == text::Order::Less);
    }
}

/// Only one order of some paths is their order.
proof fn strict_order_is_unique(left: Seq<Seq<paths::Part>>, right: Seq<Seq<paths::Part>>)
    requires
        strictly_sorted(left),
        strictly_sorted(right),
        forall|parts: Seq<paths::Part>| #[trigger] left.contains(parts) <==> right.contains(parts),
    ensures
        left == right,
    decreases left.len(),
{
    if left.len() == 0 || right.len() == 0 {
        if right.len() > 0 {
            assert(right.contains(right[0]));
            assert(left.contains(right[0]));
        }
        if left.len() > 0 {
            assert(left.contains(left[0]));
        }
        assert(left =~= right);
    } else {
        let a = left.last();
        let b = right.last();
        assert(left.contains(a)) by {
            assert(left[left.len() - 1] == a);
        }
        assert(right.contains(b)) by {
            assert(right[right.len() - 1] == b);
        }
        assert(left.contains(b));
        last_comes_last(left, b);
        last_comes_last(right, a);
        paths::parts_order_is_antisymmetric(a, b);
        let less = left.drop_last();
        let rest = right.drop_last();
        assert forall|parts: Seq<paths::Part>| #[trigger] less.contains(parts) <==> rest.contains(
            parts,
        ) by {
            assert(left.contains(parts) <==> right.contains(parts));
            all_but_the_last(left, right, parts);
            all_but_the_last(right, left, parts);
        }
        strict_order_without_the_last(left);
        strict_order_without_the_last(right);
        strict_order_is_unique(less, rest);
        assert(left =~= less.push(a));
        assert(right =~= rest.push(b));
    }
}

/// What is done for a plan.
#[derive(Debug, PartialEq, Eq)]
pub enum RecoveryAction {
    /// Observe the whole root.
    ObserveRoot,
    /// Observe these scopes.
    ObserveScopes(Vec<FilePath>),
}

/// The plan leads to observing the whole root.
pub open spec fn observes_root(root: Seq<char>, plan: RecoveryPlan) -> bool {
    match plan {
        RecoveryPlan::RebuildVolume { .. } => true,
        RecoveryPlan::RepairSubtrees { scopes, .. } => {
            let texts = scopes::path_texts(scopes@);
            texts.len() == 0 || names_root(texts, root)
        },
        RecoveryPlan::Replay { .. } => false,
    }
}

/// Makes sure that a batch names its stream, which a checkpoint of the whole root is bound to.
pub fn known_stream(batch: &EventBatch) -> (result: Result<(), String>)
    ensures
        match result {
            Ok(()) => batch.stream_identity@.len() > 0,
            Err(message) => batch.stream_identity@.len() == 0 && message@
                == "FSEvents stream identity is missing"@,
        },
{
    let identity = text::chars_of(batch.stream_identity.as_str());
    if identity.len() == 0 {
        return Err("FSEvents stream identity is missing".to_owned());
    }
    Ok(())
}

/// Decides what is observed for a plan. A replay has nothing to observe, and the whole root is
/// observed only for a known stream.
pub fn recovery_action(root: &FilePath, batch: &EventBatch, plan: RecoveryPlan) -> (action: Result<
    RecoveryAction,
    String,
>)
    ensures
        match action {
            Ok(RecoveryAction::ObserveRoot) => observes_root(root@, plan)
                && batch.stream_identity@.len() > 0,
            Ok(RecoveryAction::ObserveScopes(list)) => !observes_root(root@, plan) && (plan matches
                RecoveryPlan::RepairSubtrees { scopes, .. } && list == scopes),
            Err(message) => {
                ||| observes_root(root@, plan) && batch.stream_identity@.len() == 0 && message@
                    == "FSEvents stream identity is missing"@
                ||| plan is Replay && message@ == "replay plan does not contain observed changes"@
            },
        },
{
    match plan {
        RecoveryPlan::Replay { .. } => {
            return Err("replay plan does not contain observed changes".to_owned());
        },
        RecoveryPlan::RepairSubtrees { scopes, .. } => {
            if scopes.len() > 0 && !includes_root(scopes.as_slice(), root) {
                return Ok(RecoveryAction::ObserveScopes(scopes));
            }
        },
        RecoveryPlan::RebuildVolume { .. } => {},
    }
    match known_stream(batch) {
        Ok(()) => Ok(RecoveryAction::ObserveRoot),
        Err(message) => Err(message),
    }
}

/// One of the reports is on the path with these components.
pub open spec fn observed_at(reports: Seq<ScanReport>, parts: Seq<paths::Part>) -> bool {
    exists|k: int| 0 <= k < reports.len() && (#[trigger] reports[k]).root.parts() == parts
}

/// An entry outlasts a repair: it lies outside the scopes, or one of the reports is on its path and
/// none lists it. A report lists what lies below its root, so the entry of the root itself stays,
/// unless the report on a scope above lists it anew, and goes where the root has vanished and was
/// not observed.
pub open spec fn outlasts(
    entry: IndexedEntry,
    scopes: Seq<Seq<char>>,
    reports: Seq<ScanReport>,
) -> bool {
    !scopes::covered(scopes, entry.path@) || (observed_at(reports, entry.path.parts())
        && !path_present(reported_entries(reports), entry.path.parts()))
}

/// The entries that outlast a repair, in their order.
pub open spec fn entries_kept(
    entries: Seq<IndexedEntry>,
    scopes: Seq<Seq<char>>,
    reports: Seq<ScanReport>,
) -> Seq<IndexedEntry>
    decreases entries.len(),
{
    if entries.len() == 0 {
        Seq::empty()
    } else {
        let before = entries_kept(entries.drop_last(), scopes, reports);
        if outlasts(entries.last(), scopes, reports) {
            before.push(entries.last())
        } else {
            before
        }
    }
}

/// The skipped locations outside the scopes, in their order.
pub open spec fn skips_outside(skipped: Seq<SkippedLocation>, scopes: Seq<Seq<char>>) -> Seq<
    SkippedLocation,
>
    decreases skipped.len(),
{
    if skipped.len() == 0 {
        Seq::empty()
    } else {
        let before = skips_outside(skipped.drop_last(), scopes);
        if scopes::covered(scopes, skipped.last().path@) {
            before
        } else {
            before.push(skipped.last())
        }
    }
}

/// The entries of some reports, one report after the other.
pub open spec fn reported_entries(reports: Seq<ScanReport>) -> Seq<IndexedEntry>
    decreases reports.len(),
{
    if reports.len() == 0 {
        Seq::empty()
    } else {
        reported_entries(reports.drop_last()) + reports.last().entries@
    }
}

/// The skipped locations of some reports, one report after the other.
pub open spec fn reported_skips(reports: Seq<ScanReport>) -> Seq<SkippedLocation>
    decreases reports.len(),
{
    if reports.len() == 0 {
        Seq::empty()
    } else {
        reported_skips(reports.drop_last()) + reports.last().skipped@
    }
}

/// `result` holds one entry for each path in `pool`, in the order of the paths.
pub open spec fn one_per_path(result: Seq<IndexedEntry>, pool: Seq<IndexedEntry>) -> bool {
    &&& forall|i: int, j: int|
        #![trigger result[i], result[j]]
        0 <= i < j < result.len() ==> paths::parts_order(
            result[i].path.parts(),
            result[j].path.parts(),
        ) == text::Order::Less
    &&& forall|i: int| 0 <= i < result.len() ==> pool.contains(#[trigger] result[i])
    &&& forall|i: int|
        0 <= i < pool.len() ==> path_present(result, (#[trigger] pool[i]).path.parts())
}

/// An entry stands at the path with these components.
pub open spec fn path_present(entries: Seq<IndexedEntry>, parts: Seq<paths::Part>) -> bool {
    exists|i: int| 0 <= i < entries.len() && (#[trigger] entries[i]).path.parts() == parts
}

/// An entry behind the last path is added.
proof fn one_per_path_grows(
    result: Seq<IndexedEntry>,
    pool: Seq<IndexedEntry>,
    entry: IndexedEntry,
)
    requires
        one_per_path(result, pool),
        result.len() > 0 ==> paths::parts_order(
            result.last().path.parts(),
            entry.path.parts(),
        ) == text::Order::Less,
    ensures
        one_per_path(result.push(entry), pool.push(entry)),
{
    let more = result.push(entry);
    let next = pool.push(entry);
    let last = result.len() as int;
    assert forall|i: int, j: int|
        #![trigger more[i], more[j]]
        0 <= i < j < more.len() implies paths::parts_order(
        more[i].path.parts(),
        more[j].path.parts(),
    ) == text::Order::Less by {
        if j < last {
            assert(more[i] == result[i] && more[j] == result[j]);
        } else {
            let first = result[i].path.parts();
            let middle = result[last - 1].path.parts();
            let third = entry.path.parts();
            paths::parts_order_is_antisymmetric(first, middle);
            paths::parts_order_is_antisymmetric(middle, third);
            paths::parts_order_is_antisymmetric(first, third);
            if i < last - 1 {
                assert(paths::parts_order(first, middle) == text::Order::Less);
                paths::parts_order_is_transitive(first, middle, third);
                if first == third {
                    paths::parts_order_is_antisymmetric(third, middle);
                }
            }
        }
    }
    assert forall|i: int| 0 <= i < more.len() implies next.contains(#[trigger] more[i]) by {
        if i < last {
            assert(pool.contains(result[i]));
            let k = choose|k: int| 0 <= k < pool.len() && pool[k] == result[i];
            assert(next[k] == result[i]);
        } else {
            assert(next[pool.len() as int] == entry);
        }
    }
    assert forall|i: int| 0 <= i < next.len() implies path_present(
        more,
        (#[trigger] next[i]).path.parts(),
    ) by {
        if i < pool.len() {
            assert(path_present(result, pool[i].path.parts()));
            let k = choose|k: int|
                0 <= k < result.len() && (#[trigger] result[k]).path.parts()
                    == pool[i].path.parts();
            assert(more[k] == result[k]);
        } else {
            assert(more[last] == entry);
        }
    }
}

/// An entry at the last path is left out.
proof fn one_per_path_repeats(
    result: Seq<IndexedEntry>,
    pool: Seq<IndexedEntry>,
    entry: IndexedEntry,
)
    requires
        one_per_path(result, pool),
        result.len() > 0,
        result.last().path.parts() == entry.path.parts(),
    ensures
        one_per_path(result, pool.push(entry)),
{
    let next = pool.push(entry);
    assert forall|i: int| 0 <= i < result.len() implies next.contains(#[trigger] result[i]) by {
        assert(pool.contains(result[i]));
        let k = choose|k: int| 0 <= k < pool.len() && pool[k] == result[i];
        assert(next[k] == result[i]);
    }
    assert forall|i: int| 0 <= i < next.len() implies path_present(
        result,
        (#[trigger] next[i]).path.parts(),
    ) by {
        if i < pool.len() {
            assert(path_present(result, pool[i].path.parts()));
        } else {
            assert(result[result.len() - 1].path.parts() == entry.path.parts());
        }
    }
}

/// Drops every entry that stands at the path of the one before it.
fn drop_repeated(entries: Vec<IndexedEntry>) -> (result: Vec<IndexedEntry>)
    requires
        scanner::entries_sorted(entries@),
    ensures
        one_per_path(result@, entries@),
{
    let ghost all = entries@;
    let mut result: Vec<IndexedEntry> = Vec::new();
    assert(all.take(0) =~= Seq::empty());
    for entry in it: entries.into_iter()
        invariant
            it.seq() == all,
            scanner::entries_sorted(all),
            one_per_path(result@, all.take(it.index())),
            (result@.len() > 0) == (it.index() > 0),
            it.index() > 0 ==> result@.last().path.parts() == all[it.index() - 1].path.parts(),
    {
        let repeated = result.len() > 0 && result[result.len() - 1].path.same_as(&entry.path);
        proof {
            let at = it.index();
            assert(all.take(at + 1) =~= all.take(at).push(entry));
            if repeated {
                one_per_path_repeats(result@, all.take(at), entry);
            } else {
                if at > 0 {
                    assert(paths::parts_order(
                        all[at - 1].path.parts(),
                        all[at].path.parts(),
                    ) != text::Order::Greater);
                    paths::parts_order_is_antisymmetric(
                        result@.last().path.parts(),
                        entry.path.parts(),
                    );
                }
                one_per_path_grows(result@, all.take(at), entry);
            }
        }
        if !repeated {
            result.push(entry);
        }
    }
    assert(all.take(all.len() as int) =~= all);
    result
}

proof fn one_per_path_in_any_order(
    result: Seq<IndexedEntry>,
    left: Seq<IndexedEntry>,
    right: Seq<IndexedEntry>,
)
    requires
        one_per_path(result, left),
        left.to_multiset() == right.to_multiset(),
    ensures
        one_per_path(result, right),
{
    broadcast use vstd::seq_lib::group_to_multiset_ensures;

    assert forall|i: int| 0 <= i < result.len() implies right.contains(#[trigger] result[i]) by {
        assert(left.contains(result[i]));
        assert(left.to_multiset().count(result[i]) > 0);
    }
    assert forall|i: int| 0 <= i < right.len() implies path_present(
        result,
        (#[trigger] right[i]).path.parts(),
    ) by {
        assert(right.contains(right[i]));
        assert(right.to_multiset().count(right[i]) > 0);
        assert(left.contains(right[i]));
        let k = choose|k: int| 0 <= k < left.len() && left[k] == right[i];
        assert(path_present(result, left[k].path.parts()));
    }
}

/// The replacement generation that a repair commits.
#[derive(Debug)]
pub struct RepairedIndex {
    pub report: ScanReport,
    pub coverage: Coverage,
}

/// Tells whether one of the reports is on a path.
fn is_observed(reports: &[ScanReport], path: &FilePath) -> (found: bool)
    ensures
        found == observed_at(reports@, path.parts()),
{
    for i in 0..reports.len()
        invariant
            forall|k: int|
                0 <= k < i ==> (#[trigger] reports@[k]).root.parts() != path.parts(),
    {
        if reports[i].root.same_as(path) {
            assert(reports@[i as int].root.parts() == path.parts());
            return true;
        }
    }
    false
}

/// Tells whether one of the reports lists a path.
fn is_listed(reports: &[ScanReport], path: &FilePath) -> (found: bool)
    ensures
        found == path_present(reported_entries(reports@), path.parts()),
{
    let ghost all = reports@;
    assert(all.take(0) =~= Seq::empty());
    for i in 0..reports.len()
        invariant
            all == reports@,
            !path_present(reported_entries(all.take(i as int)), path.parts()),
    {
        let report = &reports[i];
        let ghost before = reported_entries(all.take(i as int));
        let ghost after = reported_entries(all.take(i + 1));
        assert(all.take(i + 1).drop_last() =~= all.take(i as int));
        assert(after == before + report.entries@);
        for j in 0..report.entries.len()
            invariant
                all == reports@,
                0 <= i < all.len(),
                *report == all[i as int],
                after == before + report.entries@,
                after == reported_entries(all.take(i + 1)),
                forall|k: int|
                    0 <= k < j ==> (#[trigger] report.entries@[k]).path.parts() != path.parts(),
        {
            if report.entries[j].path.same_as(path) {
                proof {
                    assert(after[before.len() + j].path.parts() == path.parts());
                    listed_stays_listed(all, i + 1, path.parts());
                }
                return true;
            }
        }
        assert(!path_present(after, path.parts())) by {
            if path_present(after, path.parts()) {
                let k = choose|k: int|
                    0 <= k < after.len() && (#[trigger] after[k]).path.parts() == path.parts();
                if k < before.len() {
                    assert(before[k].path.parts() == path.parts());
                } else {
                    assert(report.entries@[k - before.len()].path.parts() == path.parts());
                }
            }
        }
    }
    assert(all.take(all.len() as int) =~= all);
    false
}

/// What the first reports list, all of them list together.
proof fn listed_stays_listed(reports: Seq<ScanReport>, count: int, parts: Seq<paths::Part>)
    requires
        0 <= count <= reports.len(),
        path_present(reported_entries(reports.take(count)), parts),
    ensures
        path_present(reported_entries(reports), parts),
    decreases reports.len() - count,
{
    if count == reports.len() {
        assert(reports.take(count) =~= reports);
    } else {
        let before = reported_entries(reports.take(count));
        let after = reported_entries(reports.take(count + 1));
        assert(reports.take(count + 1).drop_last() =~= reports.take(count));
        let k = choose|k: int|
            0 <= k < before.len() && (#[trigger] before[k]).path.parts() == parts;
        assert(after[k].path.parts() == parts);
        listed_stays_listed(reports, count + 1, parts);
    }
}

/// Merges the observed scopes into a committed index. What was committed below the scopes is
/// replaced by what was observed there. The entry of a scope itself stays where the scope was
/// observed and no report lists it anew, and goes where it was not. Where two entries stand at one
/// path one of them is kept.
/// The coverage is complete only where it was complete before and nothing is skipped now.
pub fn merge_repaired(
    root: FilePath,
    committed: CommittedIndex,
    scopes: &[FilePath],
    observed: Vec<ScanReport>,
) -> (repaired: RepairedIndex)
    ensures
        repaired.report.root == root,
        repaired.report.volume_id == committed.volume_id,
        one_per_path(
            repaired.report.entries@,
            entries_kept(committed.entries@, scopes::path_texts(scopes@), observed@)
                + reported_entries(observed@),
        ),
        repaired.report.skipped@ == skips_outside(
            committed.skipped@,
            scopes::path_texts(scopes@),
        ) + reported_skips(observed@),
        repaired.coverage == if committed.coverage == Coverage::Complete
            && repaired.report.skipped@.len() == 0 {
            Coverage::Complete
        } else {
            Coverage::Partial
        },
        forall|k: int, i: int|
            #![trigger observed@[k].entries@[i]]
            0 <= k < observed@.len() && 0 <= i < observed@[k].entries@.len() ==> path_present(
                repaired.report.entries@,
                observed@[k].entries@[i].path.parts(),
            ),
        forall|k: int, i: int|
            #![trigger observed@[k].skipped@[i]]
            0 <= k < observed@.len() && 0 <= i < observed@[k].skipped@.len()
                ==> repaired.report.skipped@.contains(observed@[k].skipped@[i]),
        forall|i: int|
            0 <= i < committed.entries@.len() && (forall|s: int|
                0 <= s < scopes@.len() ==> !paths::within(
                    committed.entries@[i].path.parts(),
                    (#[trigger] scopes@[s]).parts(),
                )) ==> path_present(
                repaired.report.entries@,
                (#[trigger] committed.entries@[i]).path.parts(),
            ),
        forall|i: int|
            0 <= i < committed.skipped@.len() && (forall|s: int|
                0 <= s < scopes@.len() ==> !paths::within(
                    committed.skipped@[i].path.parts(),
                    (#[trigger] scopes@[s]).parts(),
                )) ==> repaired.report.skipped@.contains(#[trigger] committed.skipped@[i]),
{
    let ghost texts = scopes::path_texts(scopes@);
    let ghost old_entries = committed.entries@;
    let ghost old_skips = committed.skipped@;
    let ghost reports = observed@;
    let prior_coverage = committed.coverage;
    let volume_id: u64 = committed.volume_id;
    let mut entries: Vec<IndexedEntry> = Vec::new();
    let mut skipped: Vec<SkippedLocation> = Vec::new();
    assert(old_entries.take(0) =~= Seq::empty());
    for entry in it: committed.entries.into_iter()
        invariant
            it.seq() == old_entries,
            texts == scopes::path_texts(scopes@),
            reports == observed@,
            entries@ == entries_kept(old_entries.take(it.index()), texts, reports),
    {
        assert(old_entries.take(it.index() + 1).drop_last() =~= old_entries.take(it.index()));
        if !is_covered(scopes, &entry.path) || (is_observed(observed.as_slice(), &entry.path)
            && !is_listed(observed.as_slice(), &entry.path)) {
            entries.push(entry);
        }
    }
    assert(old_entries.take(old_entries.len() as int) =~= old_entries);
    assert(old_skips.take(0) =~= Seq::empty());
    for location in it: committed.skipped.into_iter()
        invariant
            it.seq() == old_skips,
            texts == scopes::path_texts(scopes@),
            skipped@ == skips_outside(old_skips.take(it.index()), texts),
    {
        assert(old_skips.take(it.index() + 1).drop_last() =~= old_skips.take(it.index()));
        if !is_covered(scopes, &location.path) {
            skipped.push(location);
        }
    }
    assert(old_skips.take(old_skips.len() as int) =~= old_skips);
    let ghost kept_entries = entries@;
    let ghost kept_skips = skipped@;
    assert(reports.take(0) =~= Seq::empty());
    for report in it: observed.into_iter()
        invariant
            it.seq() == reports,
            entries@ =~= kept_entries + reported_entries(reports.take(it.index())),
            skipped@ =~= kept_skips + reported_skips(reports.take(it.index())),
    {
        assert(reports.take(it.index() + 1).drop_last() =~= reports.take(it.index()));
        let mut more_entries = report.entries;
        let mut more_skips = report.skipped;
        entries.append(&mut more_entries);
        skipped.append(&mut more_skips);
    }
    assert(reports.take(reports.len() as int) =~= reports);
    let ghost pool = entries@;
    let ordered = sort_entries(entries);
    let ghost ordered_entries = ordered@;
    let entries = drop_repeated(ordered);
    proof {
        one_per_path_in_any_order(entries@, ordered_entries, pool);
        merging_is_complete(
            old_entries,
            old_skips,
            reports,
            scopes@,
            entries@,
            skipped@,
        );
        assert forall|k: int, i: int|
            #![trigger reports[k].entries@[i]]
            0 <= k < reports.len() && 0 <= i < reports[k].entries@.len() implies path_present(
            entries@,
            reports[k].entries@[i].path.parts(),
        ) by {}
    }
    let report = ScanReport { root, volume_id, entries, skipped };
    let coverage = if prior_coverage == Coverage::Partial || report.coverage()
        == Coverage::Partial {
        Coverage::Partial
    } else {
        Coverage::Complete
    };
    RepairedIndex { report, coverage }
}

proof fn entries_kept_outlast(
    entries: Seq<IndexedEntry>,
    scopes: Seq<Seq<char>>,
    reports: Seq<ScanReport>,
)
    ensures
        forall|i: int|
            #![trigger entries_kept(entries, scopes, reports)[i]]
            0 <= i < entries_kept(entries, scopes, reports).len() ==> entries.contains(
                entries_kept(entries, scopes, reports)[i],
            ) && outlasts(entries_kept(entries, scopes, reports)[i], scopes, reports),
        forall|i: int|
            0 <= i < entries.len() && outlasts(#[trigger] entries[i], scopes, reports)
                ==> entries_kept(entries, scopes, reports).contains(entries[i]),
    decreases entries.len(),
{
    if entries.len() > 0 {
        let rest = entries.drop_last();
        let before = entries_kept(rest, scopes, reports);
        let all = entries_kept(entries, scopes, reports);
        entries_kept_outlast(rest, scopes, reports);
        assert forall|i: int| #![trigger all[i]] 0 <= i < all.len() implies entries.contains(all[i])
            && outlasts(all[i], scopes, reports) by {
            if i < before.len() {
                assert(all[i] == before[i]);
                let k = choose|k: int| 0 <= k < rest.len() && rest[k] == before[i];
                assert(entries[k] == before[i]);
            } else {
                assert(entries[entries.len() - 1] == all[i]);
            }
        }
        assert forall|i: int|
            0 <= i < entries.len() && outlasts(
                #[trigger] entries[i],
                scopes,
                reports,
            ) implies all.contains(entries[i]) by {
            if i < rest.len() {
                assert(rest[i] == entries[i]);
                let k = choose|k: int| 0 <= k < before.len() && before[k] == rest[i];
                assert(all[k] == before[k]);
            } else {
                assert(all[before.len() as int] == entries[i]);
            }
        }
    }
}

/// A repair replaces what lies below its scopes and nothing else: each entry of the result was
/// observed or was committed before and outlasts the repair, every path that outlasts it or was
/// observed is present once, and what was committed below an observed scope is present only where
/// it was observed again.
pub proof fn repair_replaces_only_its_scopes(
    committed: Seq<IndexedEntry>,
    reports: Seq<ScanReport>,
    scopes: Seq<Seq<char>>,
    result: Seq<IndexedEntry>,
)
    requires
        one_per_path(
            result,
            entries_kept(committed, scopes, reports) + reported_entries(reports),
        ),
    ensures
        forall|i: int|
            0 <= i < result.len() ==> reported_entries(reports).contains(#[trigger] result[i]) || (
            committed.contains(result[i]) && outlasts(result[i], scopes, reports)),
        forall|i: int|
            0 <= i < committed.len() && outlasts(#[trigger] committed[i], scopes, reports)
                ==> path_present(result, committed[i].path.parts()),
        forall|i: int|
            0 <= i < reported_entries(reports).len() ==> path_present(
                result,
                (#[trigger] reported_entries(reports)[i]).path.parts(),
            ),
        forall|i: int|
            0 <= i < committed.len() && !outlasts(#[trigger] committed[i], scopes, reports)
                && !path_present(reported_entries(reports), committed[i].path.parts())
                ==> !path_present(result, committed[i].path.parts()),
        forall|i: int, j: int|
            #![trigger result[i], result[j]]
            0 <= i < j < result.len() ==> result[i].path.parts() != result[j].path.parts(),
{
    let kept = entries_kept(committed, scopes, reports);
    let observed = reported_entries(reports);
    let pool = kept + observed;
    entries_kept_outlast(committed, scopes, reports);
    assert forall|i: int| 0 <= i < result.len() implies observed.contains(#[trigger] result[i]) || (
    committed.contains(result[i]) && outlasts(result[i], scopes, reports)) by {
        assert(pool.contains(result[i]));
        let k = choose|k: int| 0 <= k < pool.len() && pool[k] == result[i];
        if k < kept.len() {
            assert(kept[k] == result[i]);
        } else {
            assert(observed[k - kept.len()] == result[i]);
        }
    }
    assert forall|i: int|
        0 <= i < committed.len() && outlasts(
            #[trigger] committed[i],
            scopes,
            reports,
        ) implies path_present(result, committed[i].path.parts()) by {
        let k = choose|k: int| 0 <= k < kept.len() && kept[k] == committed[i];
        assert(pool[k] == kept[k]);
    }
    assert forall|i: int| 0 <= i < observed.len() implies path_present(
        result,
        (#[trigger] observed[i]).path.parts(),
    ) by {
        assert(pool[kept.len() + i] == observed[i]);
    }
    assert forall|i: int|
        0 <= i < committed.len() && !outlasts(#[trigger] committed[i], scopes, reports)
            && !path_present(observed, committed[i].path.parts()) implies !path_present(
        result,
        committed[i].path.parts(),
    ) by {
        let parts = committed[i].path.parts();
        if path_present(result, parts) {
            let r = choose|r: int|
                0 <= r < result.len() && (#[trigger] result[r]).path.parts() == parts;
            if observed.contains(result[r]) {
                let k = choose|k: int| 0 <= k < observed.len() && observed[k] == result[r];
                assert(observed[k].path.parts() == parts);
            } else {
                covering_goes_by_parts(scopes, result[r].path@, committed[i].path@);
            }
        }
    }
    assert forall|i: int, j: int|
        #![trigger result[i], result[j]]
        0 <= i < j < result.len() implies result[i].path.parts() != result[j].path.parts() by {
        paths::parts_order_is_antisymmetric(result[i].path.parts(), result[j].path.parts());
    }
}

proof fn covering_goes_by_parts(scopes: Seq<Seq<char>>, left: Seq<char>, right: Seq<char>)
    requires
        paths::parts(left) == paths::parts(right),
        scopes::covered(scopes, right),
    ensures
        scopes::covered(scopes, left),
{
    let i = choose|i: int|
        0 <= i < scopes.len() && paths::within(
            paths::parts(right),
            paths::parts(#[trigger] scopes[i]),
        );
    assert(paths::within(paths::parts(left), paths::parts(scopes[i])));
}

/// The entry of a scope that still exists stays: where the scope was observed, exactly one entry
/// stands at its path. Where the scope has vanished and nothing was observed at its path, none
/// does.
pub proof fn repaired_scopes_keep_their_entries(
    committed: Seq<IndexedEntry>,
    reports: Seq<ScanReport>,
    scopes: Seq<Seq<char>>,
    result: Seq<IndexedEntry>,
    scope: int,
    entry: int,
)
    requires
        one_per_path(
            result,
            entries_kept(committed, scopes, reports) + reported_entries(reports),
        ),
        0 <= scope < scopes.len(),
        0 <= entry < committed.len(),
        committed[entry].path.parts() == paths::parts(scopes[scope]),
    ensures
        observed_at(reports, paths::parts(scopes[scope])) ==> path_present(
            result,
            paths::parts(scopes[scope]),
        ),
        !observed_at(reports, paths::parts(scopes[scope])) && !path_present(
            reported_entries(reports),
            paths::parts(scopes[scope]),
        ) ==> !path_present(result, paths::parts(scopes[scope])),
        forall|i: int, j: int|
            #![trigger result[i], result[j]]
            0 <= i < j < result.len() ==> result[i].path.parts() != result[j].path.parts(),
{
    repair_replaces_only_its_scopes(committed, reports, scopes, result);
    paths::within_is_reflexive(paths::parts(scopes[scope]));
    assert(scopes::covered(scopes, committed[entry].path@));
}

/// Below its scopes a repair holds exactly what was observed: where no scope leads through another
/// and each report is on one of them, every entry of the result strictly below a scope was
/// reported, and every reported path is present.
pub proof fn repaired_scopes_hold_what_was_observed(
    committed: Seq<IndexedEntry>,
    reports: Seq<ScanReport>,
    scopes: Seq<Seq<char>>,
    result: Seq<IndexedEntry>,
    scope: int,
    entry: int,
)
    requires
        one_per_path(
            result,
            entries_kept(committed, scopes, reports) + reported_entries(reports),
        ),
        scopes::separate(scopes),
        forall|k: int|
            0 <= k < reports.len() ==> exists|m: int|
                0 <= m < scopes.len() && paths::parts(#[trigger] scopes[m]) == (
                #[trigger] reports[k]).root.parts(),
        0 <= scope < scopes.len(),
        0 <= entry < result.len(),
        paths::within(result[entry].path.parts(), paths::parts(scopes[scope])),
        result[entry].path.parts() != paths::parts(scopes[scope]),
    ensures
        reported_entries(reports).contains(result[entry]),
        forall|i: int|
            0 <= i < reported_entries(reports).len() ==> path_present(
                result,
                (#[trigger] reported_entries(reports)[i]).path.parts(),
            ),
{
    repair_replaces_only_its_scopes(committed, reports, scopes, result);
    let parts = result[entry].path.parts();
    assert(scopes::covered(scopes, result[entry].path@));
    if !reported_entries(reports).contains(result[entry]) {
        assert(outlasts(result[entry], scopes, reports));
        let k = choose|k: int|
            0 <= k < reports.len() && (#[trigger] reports[k]).root.parts() == parts;
        let m = choose|m: int|
            0 <= m < scopes.len() && paths::parts(#[trigger] scopes[m]) == reports[k].root.parts();
        assert(!paths::within(paths::parts(scopes[m]), paths::parts(scopes[scope])));
    }
}

proof fn outside_goes_by_paths(scopes: Seq<FilePath>, path: FilePath)
    requires
        forall|s: int|
            0 <= s < scopes.len() ==> !paths::within(path.parts(), (#[trigger] scopes[s]).parts()),
    ensures
        !scopes::covered(scopes::path_texts(scopes), path@),
{
    let texts = scopes::path_texts(scopes);
    assert forall|s: int| 0 <= s < texts.len() implies !paths::within(
        paths::parts(path@),
        paths::parts(#[trigger] texts[s]),
    ) by {
        assert(texts[s] == scopes[s]@);
        assert(!paths::within(path.parts(), scopes[s].parts()));
    }
}

/// A repair loses nothing: every path that any report lists is present in the result, with every
/// location that it skipped, and so is every path and skipped location that was committed outside
/// all scopes.
pub proof fn merging_is_complete(
    entries: Seq<IndexedEntry>,
    skipped: Seq<SkippedLocation>,
    reports: Seq<ScanReport>,
    scopes: Seq<FilePath>,
    result: Seq<IndexedEntry>,
    skips: Seq<SkippedLocation>,
)
    requires
        one_per_path(
            result,
            entries_kept(entries, scopes::path_texts(scopes), reports) + reported_entries(reports),
        ),
        skips == skips_outside(skipped, scopes::path_texts(scopes)) + reported_skips(reports),
    ensures
        forall|k: int, i: int|
            #![trigger reports[k].entries@[i]]
            0 <= k < reports.len() && 0 <= i < reports[k].entries@.len() ==> exists|r: int|
                0 <= r < result.len() && (#[trigger] result[r]).path.parts()
                    == reports[k].entries@[i].path.parts(),
        forall|k: int, i: int|
            #![trigger reports[k].skipped@[i]]
            0 <= k < reports.len() && 0 <= i < reports[k].skipped@.len() ==> skips.contains(
                reports[k].skipped@[i],
            ),
        forall|i: int|
            0 <= i < entries.len() && (forall|s: int|
                0 <= s < scopes.len() ==> !paths::within(
                    entries[i].path.parts(),
                    (#[trigger] scopes[s]).parts(),
                )) ==> exists|r: int|
                0 <= r < result.len() && (#[trigger] result[r]).path.parts() == (
                #[trigger] entries[i]).path.parts(),
        forall|i: int|
            0 <= i < skipped.len() && (forall|s: int|
                0 <= s < scopes.len() ==> !paths::within(
                    skipped[i].path.parts(),
                    (#[trigger] scopes[s]).parts(),
                )) ==> skips.contains(#[trigger] skipped[i]),
{
    let texts = scopes::path_texts(scopes);
    everything_observed_is_merged(entries, reports, texts, result);
    skips_are_merged(skipped, reports, texts);
    assert forall|i: int|
        0 <= i < entries.len() && (forall|s: int|
            0 <= s < scopes.len() ==> !paths::within(
                entries[i].path.parts(),
                (#[trigger] scopes[s]).parts(),
            )) implies exists|r: int|
        0 <= r < result.len() && (#[trigger] result[r]).path.parts() == (
        #[trigger] entries[i]).path.parts() by {
        outside_goes_by_paths(scopes, entries[i].path);
    }
    assert forall|i: int|
        0 <= i < skipped.len() && (forall|s: int|
            0 <= s < scopes.len() ==> !paths::within(
                skipped[i].path.parts(),
                (#[trigger] scopes[s]).parts(),
            )) implies skips.contains(#[trigger] skipped[i]) by {
        outside_goes_by_paths(scopes, skipped[i].path);
    }
}

/// What every report lists is among what all of them list.
pub proof fn reports_are_gathered_completely(reports: Seq<ScanReport>, report: int, at: int)
    requires
        0 <= report < reports.len(),
    ensures
        0 <= at < reports[report].entries@.len() ==> reported_entries(reports).contains(
            reports[report].entries@[at],
        ),
        0 <= at < reports[report].skipped@.len() ==> reported_skips(reports).contains(
            reports[report].skipped@[at],
        ),
    decreases reports.len(),
{
    let rest = reports.drop_last();
    let last = reports.len() - 1;
    let entries = reported_entries(rest);
    let skips = reported_skips(rest);
    if report < last {
        assert(rest[report] == reports[report]);
        reports_are_gathered_completely(rest, report, at);
        if 0 <= at < reports[report].entries@.len() {
            let k = choose|k: int|
                0 <= k < entries.len() && entries[k] == reports[report].entries@[at];
            assert(reported_entries(reports)[k] == entries[k]);
        }
        if 0 <= at < reports[report].skipped@.len() {
            let k = choose|k: int|
                0 <= k < skips.len() && skips[k] == reports[report].skipped@[at];
            assert(reported_skips(reports)[k] == skips[k]);
        }
    } else {
        if 0 <= at < reports[report].entries@.len() {
            assert(reported_entries(reports)[entries.len() + at] == reports[report].entries@[at]);
        }
        if 0 <= at < reports[report].skipped@.len() {
            assert(reported_skips(reports)[skips.len() + at] == reports[report].skipped@[at]);
        }
    }
}

/// Nothing is among what all reports list that none of them lists.
pub proof fn nothing_else_is_gathered(reports: Seq<ScanReport>, entry: int, skip: int)
    ensures
        0 <= entry < reported_entries(reports).len() ==> exists|k: int|
            0 <= k < reports.len() && (#[trigger] reports[k]).entries@.contains(
                reported_entries(reports)[entry],
            ),
        0 <= skip < reported_skips(reports).len() ==> exists|k: int|
            0 <= k < reports.len() && (#[trigger] reports[k]).skipped@.contains(
                reported_skips(reports)[skip],
            ),
    decreases reports.len(),
{
    if reports.len() > 0 {
        let rest = reports.drop_last();
        let last = reports.len() - 1;
        nothing_else_is_gathered(rest, entry, skip);
        let entries = reported_entries(rest);
        let skips = reported_skips(rest);
        if 0 <= entry < reported_entries(reports).len() {
            if entry < entries.len() {
                let k = choose|k: int|
                    0 <= k < rest.len() && (#[trigger] rest[k]).entries@.contains(entries[entry]);
                assert(reports[k] == rest[k]);
            } else {
                assert(reports[last].entries@[entry - entries.len()] == reported_entries(
                    reports,
                )[entry]);
            }
        }
        if 0 <= skip < reported_skips(reports).len() {
            if skip < skips.len() {
                let k = choose|k: int|
                    0 <= k < rest.len() && (#[trigger] rest[k]).skipped@.contains(skips[skip]);
                assert(reports[k] == rest[k]);
            } else {
                assert(reports[last].skipped@[skip - skips.len()] == reported_skips(reports)[skip]);
            }
        }
    }
}

/// Everything that was observed in any of the scopes is merged: for every report and every entry
/// that it lists, an entry stands in the result at that path. What was committed outside all
/// scopes stays as well.
pub proof fn everything_observed_is_merged(
    committed: Seq<IndexedEntry>,
    reports: Seq<ScanReport>,
    scopes: Seq<Seq<char>>,
    result: Seq<IndexedEntry>,
)
    requires
        one_per_path(
            result,
            entries_kept(committed, scopes, reports) + reported_entries(reports),
        ),
    ensures
        forall|k: int, i: int|
            #![trigger reports[k].entries@[i]]
            0 <= k < reports.len() && 0 <= i < reports[k].entries@.len() ==> exists|r: int|
                0 <= r < result.len() && (#[trigger] result[r]).path.parts()
                    == reports[k].entries@[i].path.parts(),
        forall|i: int|
            0 <= i < committed.len() && !scopes::covered(scopes, (#[trigger] committed[i]).path@)
                ==> exists|r: int|
                0 <= r < result.len() && (#[trigger] result[r]).path.parts()
                    == committed[i].path.parts(),
{
    repair_replaces_only_its_scopes(committed, reports, scopes, result);
    let all = reported_entries(reports);
    assert forall|k: int, i: int|
        #![trigger reports[k].entries@[i]]
        0 <= k < reports.len() && 0 <= i < reports[k].entries@.len() implies exists|r: int|
        0 <= r < result.len() && (#[trigger] result[r]).path.parts()
            == reports[k].entries@[i].path.parts() by {
        reports_are_gathered_completely(reports, k, i);
        let at = choose|at: int| 0 <= at < all.len() && all[at] == reports[k].entries@[i];
        assert(path_present(result, all[at].path.parts()));
    }
    assert forall|i: int|
        0 <= i < committed.len() && !scopes::covered(
            scopes,
            (#[trigger] committed[i]).path@,
        ) implies exists|r: int|
        0 <= r < result.len() && (#[trigger] result[r]).path.parts()
            == committed[i].path.parts() by {
        assert(outlasts(committed[i], scopes, reports));
        assert(path_present(result, committed[i].path.parts()));
    }
}

/// The skipped locations of a repair are those that were committed outside its scopes and those of
/// every report, and no others.
pub proof fn skips_are_merged(
    committed: Seq<SkippedLocation>,
    reports: Seq<ScanReport>,
    scopes: Seq<Seq<char>>,
)
    ensures
        forall|i: int|
            0 <= i < committed.len() && !scopes::covered(scopes, (#[trigger] committed[i]).path@)
                ==> (skips_outside(committed, scopes) + reported_skips(reports)).contains(
                committed[i],
            ),
        forall|k: int, i: int|
            #![trigger reports[k].skipped@[i]]
            0 <= k < reports.len() && 0 <= i < reports[k].skipped@.len() ==> (skips_outside(
                committed,
                scopes,
            ) + reported_skips(reports)).contains(reports[k].skipped@[i]),
        forall|r: int|
            0 <= r < (skips_outside(committed, scopes) + reported_skips(reports)).len() ==> (
            exists|i: int|
                0 <= i < committed.len() && !scopes::covered(scopes, committed[i].path@) && (
                #[trigger] committed[i]) == (skips_outside(committed, scopes) + reported_skips(
                    reports,
                ))[r]) || (exists|k: int|
                0 <= k < reports.len() && (#[trigger] reports[k]).skipped@.contains(
                    #[trigger] (skips_outside(committed, scopes) + reported_skips(reports))[r],
                )),
{
    let kept = skips_outside(committed, scopes);
    let added = reported_skips(reports);
    let all = kept + added;
    skips_outside_keep(committed, scopes);
    assert forall|i: int|
        0 <= i < committed.len() && !scopes::covered(
            scopes,
            (#[trigger] committed[i]).path@,
        ) implies all.contains(committed[i]) by {
        let k = choose|k: int| 0 <= k < kept.len() && kept[k] == committed[i];
        assert(all[k] == kept[k]);
    }
    assert forall|k: int, i: int|
        #![trigger reports[k].skipped@[i]]
        0 <= k < reports.len() && 0 <= i < reports[k].skipped@.len() implies all.contains(
        reports[k].skipped@[i],
    ) by {
        reports_are_gathered_completely(reports, k, i);
        let at = choose|at: int| 0 <= at < added.len() && added[at] == reports[k].skipped@[i];
        assert(all[kept.len() + at] == added[at]);
    }
    assert forall|r: int| 0 <= r < all.len() implies (exists|i: int|
        0 <= i < committed.len() && !scopes::covered(scopes, committed[i].path@) && (
        #[trigger] committed[i]) == all[r]) || (exists|k: int|
        0 <= k < reports.len() && (#[trigger] reports[k]).skipped@.contains(
            #[trigger] all[r],
        )) by {
        if r < kept.len() {
            assert(all[r] == kept[r]);
            let i = choose|i: int| 0 <= i < committed.len() && committed[i] == kept[r];
            assert(committed[i] == all[r]);
        } else {
            assert(all[r] == added[r - kept.len()]);
            nothing_else_is_gathered(reports, 0, r - kept.len());
        }
    }
}

proof fn skips_outside_keep(skipped: Seq<SkippedLocation>, scopes: Seq<Seq<char>>)
    ensures
        forall|i: int|
            #![trigger skips_outside(skipped, scopes)[i]]
            0 <= i < skips_outside(skipped, scopes).len() ==> skipped.contains(
                skips_outside(skipped, scopes)[i],
            ) && !scopes::covered(scopes, skips_outside(skipped, scopes)[i].path@),
        forall|i: int|
            0 <= i < skipped.len() && !scopes::covered(scopes, (#[trigger] skipped[i]).path@)
                ==> skips_outside(skipped, scopes).contains(skipped[i]),
    decreases skipped.len(),
{
    if skipped.len() > 0 {
        let rest = skipped.drop_last();
        let before = skips_outside(rest, scopes);
        let all = skips_outside(skipped, scopes);
        skips_outside_keep(rest, scopes);
        assert forall|i: int| #![trigger all[i]] 0 <= i < all.len() implies skipped.contains(all[i])
            && !scopes::covered(scopes, all[i].path@) by {
            if i < before.len() {
                assert(all[i] == before[i]);
                let k = choose|k: int| 0 <= k < rest.len() && rest[k] == before[i];
                assert(skipped[k] == before[i]);
            } else {
                assert(skipped[skipped.len() - 1] == all[i]);
            }
        }
        assert forall|i: int|
            0 <= i < skipped.len() && !scopes::covered(
                scopes,
                (#[trigger] skipped[i]).path@,
            ) implies all.contains(skipped[i]) by {
            if i < rest.len() {
                assert(rest[i] == skipped[i]);
                let k = choose|k: int| 0 <= k < before.len() && before[k] == rest[i];
                assert(all[k] == before[k]);
            } else {
                assert(all[before.len() as int] == skipped[i]);
            }
        }
    }
}

/// What is observed again for a change is the directory that holds the changed path, and the root
/// where the root itself changed.
pub proof fn changes_are_observed_in_their_directory(root: Seq<char>, path: Seq<char>)
    requires
        paths::within(paths::parts(path), paths::parts(root)),
    ensures
        paths::parts(path) != paths::parts(root) ==> paths::parts(scope_of_change(root, path))
            == paths::parts(path).drop_last(),
        paths::parts(path) == paths::parts(root) ==> paths::parts(scope_of_change(root, path))
            == paths::parts(root),
{
    let all = paths::parts(path);
    let base = paths::parts(root);
    paths::parent_drops_the_last_part(path);
    if all != base {
        assert(all.len() > base.len()) by {
            if all.len() == base.len() {
                assert(all.take(base.len() as int) =~= all);
            }
        }
        if let Some(parent) = paths::parent_text(path) {
            assert(all.drop_last().take(base.len() as int) =~= all.take(base.len() as int));
        } else {
            assert(all.len() > 0);
            assert(all.last() == paths::Part::Root);
            paths::separators_add_no_component(path);
            root_is_first(path);
        }
    }
}

/// Only the first component of a path is the root.
proof fn root_is_first(path: Seq<char>)
    requires
        paths::parts(path).len() > 0,
        paths::parts(path).last() == paths::Part::Root,
    ensures
        paths::parts(path).len() == 1,
{
    if paths::parts(path).len() > 1 {
        paths::root_comes_first(path, paths::parts(path).len() - 1);
    }
}

/// Every scope of a repair is the root or the directory of one of the changed paths.
pub proof fn scopes_are_directories_of_changes(
    scopes: Seq<Seq<char>>,
    root: Seq<char>,
    paths: Seq<Seq<char>>,
    scope: int,
)
    requires
        scopes::settled(scopes, Seq::empty(), scopes_of_changes(root, paths)),
        0 <= scope < scopes.len(),
    ensures
        exists|i: int|
            0 <= i < paths.len() && paths::within(
                paths::parts(#[trigger] paths[i]),
                paths::parts(root),
            ) && (if paths::parts(paths[i]) == paths::parts(root) {
                paths::parts(scopes[scope]) == paths::parts(root)
            } else {
                paths::parts(scopes[scope]) == paths::parts(paths[i]).drop_last()
            }),
{
    let wanted = scopes_of_changes(root, paths);
    scopes::settled_scopes_are_minimal(scopes, Seq::empty(), wanted);
    assert(wanted.contains(scopes[scope]));
    let k = choose|k: int| 0 <= k < wanted.len() && wanted[k] == scopes[scope];
    wanted_scopes_come_from_changes(root, paths, k);
    let i = choose|i: int|
        0 <= i < paths.len() && paths::within(
            paths::parts(#[trigger] paths[i]),
            paths::parts(root),
        ) && wanted[k] == scope_of_change(root, paths[i]);
    changes_are_observed_in_their_directory(root, paths[i]);
}

proof fn wanted_scopes_come_from_changes(root: Seq<char>, paths: Seq<Seq<char>>, at: int)
    requires
        0 <= at < scopes_of_changes(root, paths).len(),
    ensures
        exists|i: int|
            0 <= i < paths.len() && paths::within(
                paths::parts(#[trigger] paths[i]),
                paths::parts(root),
            ) && scopes_of_changes(root, paths)[at] == scope_of_change(root, paths[i]),
    decreases paths.len(),
{
    let rest = paths.drop_last();
    let last = paths.len() - 1;
    let before = scopes_of_changes(root, rest);
    if at < before.len() {
        wanted_scopes_come_from_changes(root, rest, at);
        let i = choose|i: int|
            0 <= i < rest.len() && paths::within(
                paths::parts(#[trigger] rest[i]),
                paths::parts(root),
            ) && before[at] == scope_of_change(root, rest[i]);
        assert(paths[i] == rest[i]);
    } else {
        assert(paths[last] == paths.last());
    }
}

/// When a batch leads to a rebuild: always where event numbers wrapped, never where nothing was
/// lost, and where history was lost or the root changed exactly where no hint lies within the root
/// or one of them calls for the root itself to be observed.
pub proof fn rebuilds_happen_where_nothing_narrower_is_known(root: Seq<char>, batch: EventBatch)
    ensures
        batch.ids_wrapped ==> needs_rebuild(root, batch) && batch_reason(batch)
            == RecoveryReason::EventIdsWrapped,
        !batch.ids_wrapped && !batch.history_lost && !batch.root_changed ==> !needs_rebuild(
            root,
            batch,
        ) && batch_reason(batch) == RecoveryReason::NormalReplay,
        !batch.ids_wrapped && batch.root_changed ==> batch_reason(batch)
            == RecoveryReason::RootChanged,
        !batch.ids_wrapped && !batch.root_changed && batch.history_lost ==> batch_reason(batch)
            == RecoveryReason::DroppedHistory,
        !batch.ids_wrapped && (batch.history_lost || batch.root_changed) && (forall|i: int|
            0 <= i < batch.paths@.len() ==> !paths::within(
                (#[trigger] batch.paths@[i]).parts(),
                paths::parts(root),
            )) ==> needs_rebuild(root, batch),
        !batch.ids_wrapped && (batch.history_lost || batch.root_changed) && (exists|i: int|
            0 <= i < batch.paths@.len() && paths::within(
                (#[trigger] batch.paths@[i]).parts(),
                paths::parts(root),
            ) && batch.paths@[i].parts().len() <= paths::parts(root).len() + 1) ==> needs_rebuild(
            root,
            batch,
        ),
        !batch.ids_wrapped && (exists|i: int|
            0 <= i < batch.paths@.len() && paths::within(
                (#[trigger] batch.paths@[i]).parts(),
                paths::parts(root),
            )) && (forall|i: int|
            0 <= i < batch.paths@.len() && paths::within(
                (#[trigger] batch.paths@[i]).parts(),
                paths::parts(root),
            ) ==> batch.paths@[i].parts().len() > paths::parts(root).len() + 1) ==> !needs_rebuild(
            root,
            batch,
        ),
{
    let texts = scopes::path_texts(batch.paths@);
    let wanted = scopes_of_changes(root, texts);
    let none = Seq::<Seq<char>>::empty();
    let all = scopes::absorb_all(none, wanted);
    let base = paths::parts(root);
    assert(scopes::separate(none));
    scopes::absorbing_all_keeps_scopes_minimal(none, wanted);
    scopes_of_changes_are_safe(root, texts);
    assert forall|i: int| 0 <= i < texts.len() implies paths::parts(#[trigger] texts[i])
        == batch.paths@[i].parts() by {}
    if forall|i: int|
        0 <= i < batch.paths@.len() ==> !paths::within(
            (#[trigger] batch.paths@[i]).parts(),
            base,
        ) {
        if all.len() > 0 {
            assert(wanted.contains(all[0]));
            let k = choose|k: int| 0 <= k < wanted.len() && wanted[k] == all[0];
            wanted_scopes_come_from_changes(root, texts, k);
            let i = choose|i: int|
                0 <= i < texts.len() && paths::within(paths::parts(#[trigger] texts[i]), base)
                    && wanted[k] == scope_of_change(root, texts[i]);
            assert(paths::within(batch.paths@[i].parts(), base));
        }
    }
    if exists|i: int|
        0 <= i < batch.paths@.len() && paths::within((#[trigger] batch.paths@[i]).parts(), base)
            && batch.paths@[i].parts().len() <= base.len() + 1 {
        let i = choose|i: int|
            0 <= i < batch.paths@.len() && paths::within(
                (#[trigger] batch.paths@[i]).parts(),
                base,
            ) && batch.paths@[i].parts().len() <= base.len() + 1;
        let scope = scope_of_change(root, texts[i]);
        changes_are_observed_in_their_directory(root, texts[i]);
        assert(paths::parts(scope) == base) by {
            let parts = paths::parts(texts[i]);
            if parts != base {
                assert(parts.len() == base.len() + 1) by {
                    if parts.len() == base.len() {
                        assert(parts.take(base.len() as int) =~= parts);
                    }
                }
                assert(parts.drop_last() =~= parts.take(base.len() as int));
            }
        }
        assert(wanted.contains(scope));
        let k = choose|k: int| 0 <= k < wanted.len() && wanted[k] == scope;
        assert(scopes::covered(all, wanted[k]));
        let m = choose|m: int|
            0 <= m < all.len() && paths::within(base, paths::parts(#[trigger] all[m]));
        assert(wanted.contains(all[m]));
        let w = choose|w: int| 0 <= w < wanted.len() && wanted[w] == all[m];
        assert(paths::within(paths::parts(wanted[w]), base));
        assert(paths::parts(all[m]).take(base.len() as int) =~= paths::parts(all[m]));
        assert(paths::parts(all[m]) == base);
        assert(names_root(all, root));
    }
    if (exists|i: int|
        0 <= i < batch.paths@.len() && paths::within((#[trigger] batch.paths@[i]).parts(), base))
        && (forall|i: int|
        0 <= i < batch.paths@.len() && paths::within((#[trigger] batch.paths@[i]).parts(), base)
            ==> batch.paths@[i].parts().len() > base.len() + 1) {
        let i = choose|i: int|
            0 <= i < batch.paths@.len() && paths::within((#[trigger] batch.paths@[i]).parts(), base);
        assert(paths::within(paths::parts(texts[i]), base));
        let k = choose|k: int|
            0 <= k < wanted.len() && wanted[k] == scope_of_change(root, texts[i]);
        assert(scopes::covered(all, wanted[k]));
        assert(all.len() > 0);
        if names_root(all, root) {
            let m = choose|m: int|
                0 <= m < all.len() && paths::parts(#[trigger] all[m]) == paths::parts(root);
            assert(wanted.contains(all[m]));
            let w = choose|w: int| 0 <= w < wanted.len() && wanted[w] == all[m];
            wanted_scopes_come_from_changes(root, texts, w);
            let j = choose|j: int|
                0 <= j < texts.len() && paths::within(paths::parts(#[trigger] texts[j]), base)
                    && wanted[w] == scope_of_change(root, texts[j]);
            changes_are_observed_in_their_directory(root, texts[j]);
            assert(batch.paths@[j].parts().len() > base.len() + 1);
        }
    }
}

/// Whatever a batch tells is pending once it was taken in, and only that.
pub proof fn hints_are_pending_once_taken_in(batch: Hints, after: Hints)
    requires
        hints_joined(Hints::none(), batch, after),
    ensures
        after.pending() <==> batch.history_lost || batch.ids_wrapped || batch.root_changed
            || batch.paths.len() > 0,
        !Hints::none().pending(),
{
    let none = Hints::none().paths;
    assert(scopes::separate(none));
    scopes::settled_scopes_are_minimal(after.paths, none, batch.paths);
    if batch.paths.len() > 0 {
        assert(scopes::covered(after.paths, batch.paths[0]));
    }
    if after.paths.len() > 0 {
        assert(batch.paths.contains(after.paths[0]));
    }
}

/// A stream is replayed only from a checkpoint of its own and of the published generation, and
/// neither from event zero nor from the number that stands for now.
pub proof fn streams_are_replayed_from_known_events(
    checkpoint: VolumeCheckpoint,
    stream_identity: Seq<char>,
    published_generation: u64,
)
    ensures
        checkpoint.event_id == 0 ==> !replayable(
            checkpoint,
            stream_identity,
            published_generation,
        ),
        checkpoint.event_id == u64::MAX ==> !replayable(
            checkpoint,
            stream_identity,
            published_generation,
        ),
        checkpoint.stream_identity@ != stream_identity ==> !replayable(
            checkpoint,
            stream_identity,
            published_generation,
        ),
        checkpoint.generation != published_generation ==> !replayable(
            checkpoint,
            stream_identity,
            published_generation,
        ),
        0 < checkpoint.event_id < u64::MAX ==> replayable(
            checkpoint,
            checkpoint.stream_identity@,
            checkpoint.generation,
        ),
{
}

/// The presets come from the shortest window to the longest.
pub proof fn presets_wait_longer_and_longer()
    ensures
        0 < CoalescingPreset::Responsive.window_seconds()
            < CoalescingPreset::Balanced.window_seconds()
            < CoalescingPreset::LowEnergy.window_seconds(),
{
}

/// The whole root is observed for a rebuild, for a repair without scopes, and for one of whose
/// scopes the components are those of the root; it is observed for no other repair and no replay.
pub proof fn roots_are_observed_where_plans_name_them(
    root: Seq<char>,
    plan: RecoveryPlan,
    before: Seq<FilePath>,
    scope: FilePath,
    behind: Seq<FilePath>,
)
    ensures
        plan is RebuildVolume ==> observes_root(root, plan),
        plan is Replay ==> !observes_root(root, plan),
        plan matches RecoveryPlan::RepairSubtrees { scopes, .. } ==> {
            &&& scopes@.len() == 0 ==> observes_root(root, plan)
            &&& scopes@ == before.push(scope) + behind && scope.parts() == paths::parts(root)
                ==> observes_root(root, plan)
            &&& scopes@.len() > 0 && (forall|i: int|
                0 <= i < scopes@.len() ==> (#[trigger] scopes@[i]).parts() != paths::parts(root))
                ==> !observes_root(root, plan)
        },
{
    if let RecoveryPlan::RepairSubtrees { scopes, .. } = plan {
        let texts = scopes::path_texts(scopes@);
        if scopes@ == before.push(scope) + behind && scope.parts() == paths::parts(root) {
            assert(texts[before.len() as int] == scope@);
            assert(paths::parts(texts[before.len() as int]) == paths::parts(root));
        }
        if forall|i: int|
            0 <= i < scopes@.len() ==> (#[trigger] scopes@[i]).parts() != paths::parts(root) {
            assert forall|i: int| 0 <= i < texts.len() implies paths::parts(#[trigger] texts[i])
                != paths::parts(root) by {
                assert(scopes@[i].parts() != paths::parts(root));
            }
        }
    }
}

} // verus!
