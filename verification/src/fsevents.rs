//! Reading what an event stream delivers.

use vstd::prelude::*;

use crate::paths::FilePath;
use crate::reconciliation::{EventBatch, RecoveryPlan};

verus! {

/// The flags of an event that may have lost others: a subtree to scan, and drops by the user side
/// or by the kernel.
pub const HISTORY_LOST_FLAGS: u32 = 0x07;

/// The flag of wrapped event numbers.
pub const IDS_WRAPPED: u32 = 0x08;

/// The flag of a changed root.
pub const ROOT_CHANGED: u32 = 0x20;

/// The cursor from which only new events are delivered.
pub const SINCE_NOW: u64 = u64::MAX;

/// One of the events has one of the flags.
pub open spec fn raised(flags: Seq<u32>, mask: u32) -> bool {
    exists|i: int| 0 <= i < flags.len() && (#[trigger] flags[i]) & mask != 0
}

/// `id` is the highest of some event numbers, or zero without any.
pub open spec fn is_highest(ids: Seq<u64>, id: u64) -> bool {
    &&& ids.len() == 0 ==> id == 0
    &&& ids.len() > 0 ==> ids.contains(id)
    &&& forall|i: int| 0 <= i < ids.len() ==> #[trigger] ids[i] <= id
}

/// Whether one of the events has one of the flags.
pub fn any_flag(flags: &[u32], mask: u32) -> (found: bool)
    ensures
        found == raised(flags@, mask),
{
    for i in 0..flags.len()
        invariant
            forall|k: int| 0 <= k < i ==> (#[trigger] flags@[k]) & mask == 0,
    {
        if flags[i] & mask != 0 {
            return true;
        }
    }
    false
}

/// Finds the highest of some event numbers.
pub fn highest_id(ids: &[u64]) -> (id: u64)
    ensures
        is_highest(ids@, id),
{
    let mut id: u64 = 0;
    for i in 0..ids.len()
        invariant
            i == 0 ==> id == 0,
            i > 0 ==> exists|k: int| 0 <= k < i && #[trigger] ids@[k] == id,
            forall|k: int| 0 <= k < i ==> #[trigger] ids@[k] <= id,
    {
        if i == 0 || id < ids[i] {
            id = ids[i];
            assert(ids@[i as int] == id);
        }
    }
    id
}

/// Makes a batch of hints of what a stream delivered.
pub fn batch_from_events(
    stream_identity: String,
    paths: Vec<FilePath>,
    flags: &[u32],
    ids: &[u64],
) -> (batch: EventBatch)
    ensures
        batch.stream_identity == stream_identity,
        batch.paths == paths,
        is_highest(ids@, batch.highest_event_id),
        batch.history_lost == raised(flags@, HISTORY_LOST_FLAGS),
        batch.ids_wrapped == raised(flags@, IDS_WRAPPED),
        batch.root_changed == raised(flags@, ROOT_CHANGED),
{
    EventBatch {
        stream_identity,
        highest_event_id: highest_id(ids),
        paths,
        history_lost: any_flag(flags, HISTORY_LOST_FLAGS),
        ids_wrapped: any_flag(flags, IDS_WRAPPED),
        root_changed: any_flag(flags, ROOT_CHANGED),
    }
}

/// The event from which a stream is started: that of a replay, or none.
pub fn start_event(plan: &RecoveryPlan) -> (since: Option<u64>)
    ensures
        since == match *plan {
            RecoveryPlan::Replay { since_event_id } => Some(since_event_id),
            _ => None::<u64>,
        },
{
    match plan {
        RecoveryPlan::Replay { since_event_id } => Some(*since_event_id),
        _ => None,
    }
}

/// The cursor for a start event.
pub fn start_cursor(since: Option<u64>) -> (cursor: u64)
    ensures
        cursor == match since {
            Some(id) => id,
            None => SINCE_NOW,
        },
{
    match since {
        Some(id) => id,
        None => SINCE_NOW,
    }
}

/// The hint with which a stream that is not replayed starts: the whole root has changed. A replay
/// needs none.
pub fn start_hint(
    plan: &RecoveryPlan,
    stream_identity: &str,
    root: &FilePath,
    current_event_id: u64,
) -> (hint: Option<EventBatch>)
    ensures
        hint is None <==> *plan is Replay,
        hint matches Some(batch) ==> {
            &&& batch.stream_identity@ == stream_identity@
            &&& batch.highest_event_id == current_event_id
            &&& batch.paths@ == seq![*root]
            &&& !batch.history_lost
            &&& !batch.ids_wrapped
            &&& batch.root_changed
        },
{
    match plan {
        RecoveryPlan::Replay { .. } => None,
        _ => {
            let mut paths: Vec<FilePath> = Vec::new();
            paths.push(root.clone());
            assert(paths@ =~= seq![*root]);
            Some(
                EventBatch {
                    stream_identity: stream_identity.to_owned(),
                    highest_event_id: current_event_id,
                    paths,
                    history_lost: false,
                    ids_wrapped: false,
                    root_changed: true,
                },
            )
        },
    }
}

/// The event up to which a batch is applied: for a rebuild or an unknown number the current one.
pub fn applied_event(plan: &RecoveryPlan, highest_event_id: u64, current_event_id: u64) -> (id: u64)
    ensures
        id == if *plan is RebuildVolume || highest_event_id == 0 {
            current_event_id
        } else {
            highest_event_id
        },
{
    if highest_event_id == 0 {
        return current_event_id;
    }
    match plan {
        RecoveryPlan::RebuildVolume { .. } => current_event_id,
        _ => highest_event_id,
    }
}

/// Each of the flags of the stream tells what it stands for: a subtree to scan, an event dropped by
/// the user side and one dropped by the kernel that history was lost, and the flags of wrapped
/// numbers and of a changed root those. No other flag tells any of it.
pub proof fn flags_tell_what_they_stand_for(flags: Seq<u32>)
    ensures
        raised(flags, HISTORY_LOST_FLAGS) <==> exists|i: int|
            0 <= i < flags.len() && ((#[trigger] flags[i]) & 0x01 != 0 || flags[i] & 0x02 != 0
                || flags[i] & 0x04 != 0),
        raised(flags, IDS_WRAPPED) <==> exists|i: int|
            0 <= i < flags.len() && (#[trigger] flags[i]) & 0x08 != 0,
        raised(flags, ROOT_CHANGED) <==> exists|i: int|
            0 <= i < flags.len() && (#[trigger] flags[i]) & 0x20 != 0,
{
    assert forall|i: int| 0 <= i < flags.len() implies ((#[trigger] flags[i]) & 0x07 != 0 <==> (
    flags[i] & 0x01 != 0 || flags[i] & 0x02 != 0 || flags[i] & 0x04 != 0)) by {
        let flag = flags[i];
        assert(flag & 0x07 != 0 <==> (flag & 0x01 != 0 || flag & 0x02 != 0 || flag & 0x04 != 0))
            by (bit_vector);
    }
}

/// More events raise no fewer flags and have no lower number.
pub proof fn more_events_tell_no_less(
    flags: Seq<u32>,
    more_flags: Seq<u32>,
    mask: u32,
    ids: Seq<u64>,
    more_ids: Seq<u64>,
    id: u64,
    other: u64,
)
    requires
        is_highest(ids, id),
        is_highest(ids + more_ids, other),
    ensures
        raised(flags + more_flags, mask) <==> raised(flags, mask) || raised(more_flags, mask),
        id <= other,
        forall|i: int| 0 <= i < more_ids.len() ==> #[trigger] more_ids[i] <= other,
{
    let all = flags + more_flags;
    if raised(all, mask) {
        let i = choose|i: int| 0 <= i < all.len() && (#[trigger] all[i]) & mask != 0;
        if i < flags.len() {
            assert(flags[i] & mask != 0);
        } else {
            assert(more_flags[i - flags.len()] & mask != 0);
        }
    }
    if raised(flags, mask) {
        let i = choose|i: int| 0 <= i < flags.len() && (#[trigger] flags[i]) & mask != 0;
        assert(all[i] & mask != 0);
    }
    if raised(more_flags, mask) {
        let i = choose|i: int| 0 <= i < more_flags.len() && (#[trigger] more_flags[i]) & mask != 0;
        assert(all[flags.len() + i] & mask != 0);
    }
    let numbers = ids + more_ids;
    if ids.len() > 0 {
        let i = choose|i: int| 0 <= i < ids.len() && ids[i] == id;
        assert(numbers[i] <= other);
    }
    assert forall|i: int| 0 <= i < more_ids.len() implies #[trigger] more_ids[i] <= other by {
        assert(numbers[ids.len() + i] <= other);
    }
}

} // verus!
