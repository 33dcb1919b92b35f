use std::time::Duration;

use everyfile::fsevents::{
    applied_event, batch_from_events, start_cursor, start_event, start_hint,
};
use everyfile::index::{CommittedIndex, VolumeCheckpoint};
use everyfile::model::{Coverage, EntryKind, IndexedEntry, SkippedLocation};
use everyfile::paths::FilePath;
use everyfile::reconciliation::{
    known_stream, merge_repaired, minimal_safe_scopes, plan_batch, plan_stream_start,
    recovery_action, CoalescingPreset, EventBatch, HintCoalescer, RecoveryAction, RecoveryPlan,
    RecoveryReason,
};
use everyfile::scanner::ScanReport;

fn path(text: &str) -> FilePath {
    FilePath::new(text)
}

fn batch(paths: &[&str]) -> EventBatch {
    EventBatch {
        stream_identity: "uuid".into(),
        highest_event_id: 10,
        paths: paths.iter().map(|text| path(text)).collect(),
        history_lost: false,
        ids_wrapped: false,
        root_changed: false,
    }
}

fn entry(id: u64, text: &str) -> IndexedEntry {
    IndexedEntry {
        entry_id: id,
        volume_id: 1,
        name: text.rsplit('/').next().unwrap().into(),
        path: path(text),
        kind: EntryKind::File,
        size: 0,
        created_ns: None,
        modified_ns: None,
        hidden: false,
    }
}

fn skip(text: &str) -> SkippedLocation {
    SkippedLocation {
        path: path(text),
        reason: "permission denied".into(),
    }
}

#[test]
fn presets_are_coalescing_windows() {
    assert_eq!(
        CoalescingPreset::Responsive.window(),
        Duration::from_secs(1)
    );
    assert_eq!(CoalescingPreset::default().window(), Duration::from_secs(5));
    assert_eq!(
        CoalescingPreset::LowEnergy.window(),
        Duration::from_secs(15)
    );
    assert!(!HintCoalescer::default().has_pending());
}

#[test]
fn coalescing_collapses_descendants_and_keeps_highest_event() {
    let mut coalescer = HintCoalescer::default();
    coalescer.push(EventBatch {
        stream_identity: "disk".into(),
        highest_event_id: 3,
        paths: vec![path("/root/a/b"), path("/root/a")],
        history_lost: false,
        ids_wrapped: false,
        root_changed: false,
    });
    coalescer.push(EventBatch {
        stream_identity: "disk".into(),
        highest_event_id: 9,
        paths: vec![path("/root/c")],
        history_lost: true,
        ids_wrapped: false,
        root_changed: false,
    });
    let batch = coalescer.take().unwrap();
    assert_eq!(
        batch.paths,
        vec![FilePath::new("/root/a"), FilePath::new("/root/c")]
    );
    assert_eq!(batch.highest_event_id, 9);
    assert!(batch.history_lost);
    assert!(!coalescer.has_pending());
}

#[test]
fn stream_start_validates_identity_cursor_and_generation() {
    let checkpoint = VolumeCheckpoint {
        volume_id: 1,
        root: path("/root"),
        stream_identity: "uuid-a".into(),
        event_id: 42,
        generation: 7,
    };
    assert_eq!(
        plan_stream_start(Some(&checkpoint), "uuid-a", 7),
        RecoveryPlan::Replay { since_event_id: 42 }
    );
    assert_eq!(
        plan_stream_start(Some(&checkpoint), "uuid-b", 7),
        RecoveryPlan::RebuildVolume {
            reason: RecoveryReason::StreamIdentityMismatch
        }
    );
    let mut invalid = checkpoint.clone();
    invalid.event_id = 0;
    assert_eq!(
        plan_stream_start(Some(&invalid), "uuid-a", 7),
        RecoveryPlan::RebuildVolume {
            reason: RecoveryReason::MissingOrInvalidCursor
        }
    );
    assert!(matches!(
        plan_stream_start(None, "uuid-a", 7),
        RecoveryPlan::RebuildVolume { .. }
    ));
}

#[test]
fn history_loss_uses_known_subtrees_but_wrapped_ids_rebuild() {
    let known = EventBatch {
        stream_identity: "uuid".into(),
        highest_event_id: 10,
        paths: vec![path("/root/a/file"), path("/root/a/other")],
        history_lost: true,
        ids_wrapped: false,
        root_changed: false,
    };
    assert_eq!(
        plan_batch(&FilePath::new("/root"), &known),
        RecoveryPlan::RepairSubtrees {
            scopes: vec![FilePath::new("/root/a")],
            reason: RecoveryReason::DroppedHistory,
        }
    );
    let wrapped = EventBatch {
        ids_wrapped: true,
        ..known
    };
    assert_eq!(
        plan_batch(&FilePath::new("/root"), &wrapped),
        RecoveryPlan::RebuildVolume {
            reason: RecoveryReason::EventIdsWrapped
        }
    );
}

#[test]
fn a_cursor_for_now_or_for_another_generation_is_not_replayed() {
    let mut checkpoint = VolumeCheckpoint {
        volume_id: 1,
        root: path("/root"),
        stream_identity: "uuid".into(),
        event_id: u64::MAX,
        generation: 7,
    };
    let rebuild = RecoveryPlan::RebuildVolume {
        reason: RecoveryReason::MissingOrInvalidCursor,
    };
    assert_eq!(plan_stream_start(Some(&checkpoint), "uuid", 7), rebuild);
    checkpoint.event_id = 42;
    assert_eq!(plan_stream_start(Some(&checkpoint), "uuid", 8), rebuild);
    assert_eq!(plan_stream_start(None, "uuid", 7), rebuild);
}

#[test]
fn scopes_are_parents_within_the_root_without_repetition() {
    let scopes = minimal_safe_scopes(
        &path("/root"),
        &[
            path("/root/b/deep/file"),
            path("/elsewhere/file"),
            path("/root/a/one"),
            path("/root/b/file"),
            path("/root/a/two/"),
            path("/rootless/x"),
        ],
    );
    assert_eq!(scopes, vec![path("/root/a"), path("/root/b")]);
    assert_eq!(
        minimal_safe_scopes(&path("/root"), &[path("/root/a/x"), path("/root/y")]),
        vec![path("/root")]
    );
    assert_eq!(
        minimal_safe_scopes(&path("/root"), &[path("/root/")]),
        vec![path("/root")]
    );
    assert!(minimal_safe_scopes(&path("/root"), &[path("/other")]).is_empty());
}

#[test]
fn lost_history_without_narrower_scopes_rebuilds() {
    let root = path("/root");
    let mut lost = batch(&["/root/file"]);
    lost.history_lost = true;
    assert_eq!(
        plan_batch(&root, &lost),
        RecoveryPlan::RebuildVolume {
            reason: RecoveryReason::DroppedHistory
        }
    );
    lost.paths.clear();
    lost.root_changed = true;
    assert_eq!(
        plan_batch(&root, &lost),
        RecoveryPlan::RebuildVolume {
            reason: RecoveryReason::RootChanged
        }
    );
    let mut changed = batch(&["/root/a/file"]);
    changed.root_changed = true;
    assert_eq!(
        plan_batch(&root, &changed),
        RecoveryPlan::RepairSubtrees {
            scopes: vec![path("/root/a")],
            reason: RecoveryReason::RootChanged
        }
    );
    assert_eq!(
        plan_batch(&root, &batch(&["/root/file"])),
        RecoveryPlan::RepairSubtrees {
            scopes: vec![root],
            reason: RecoveryReason::NormalReplay
        }
    );
}

#[test]
fn taking_hints_forgets_them() {
    let mut coalescer = HintCoalescer::default();
    assert_eq!(coalescer.take(), None);
    let mut hint = batch(&[]);
    hint.ids_wrapped = true;
    coalescer.push(hint);
    assert!(coalescer.has_pending());
    let taken = coalescer.take().unwrap();
    assert!(taken.ids_wrapped);
    assert_eq!(taken.stream_identity, "uuid");
    coalescer.push(batch(&[]));
    assert!(!coalescer.has_pending());
    assert_eq!(coalescer.take(), None);
}

#[test]
fn plans_lead_to_observations() {
    let root = path("/root");
    let hints = batch(&[]);
    let rebuild = RecoveryPlan::RebuildVolume {
        reason: RecoveryReason::RootChanged,
    };
    let repair = |scopes: Vec<FilePath>| RecoveryPlan::RepairSubtrees {
        scopes,
        reason: RecoveryReason::NormalReplay,
    };
    assert_eq!(
        recovery_action(&root, &hints, rebuild.clone()),
        Ok(RecoveryAction::ObserveRoot)
    );
    assert_eq!(
        recovery_action(&root, &hints, repair(vec![])),
        Ok(RecoveryAction::ObserveRoot)
    );
    assert_eq!(
        recovery_action(&root, &hints, repair(vec![path("/root/a"), path("/root/")])),
        Ok(RecoveryAction::ObserveRoot)
    );
    assert_eq!(
        recovery_action(&root, &hints, repair(vec![path("/root/a")])),
        Ok(RecoveryAction::ObserveScopes(vec![path("/root/a")]))
    );
    assert_eq!(
        recovery_action(&root, &hints, RecoveryPlan::Replay { since_event_id: 1 }),
        Err("replay plan does not contain observed changes".into())
    );
    let mut unknown = batch(&[]);
    unknown.stream_identity = String::new();
    assert_eq!(
        recovery_action(&root, &unknown, rebuild),
        Err("FSEvents stream identity is missing".into())
    );
    assert_eq!(
        recovery_action(&root, &unknown, repair(vec![path("/root/a")])),
        Ok(RecoveryAction::ObserveScopes(vec![path("/root/a")]))
    );
}

#[test]
fn a_repair_replaces_what_lies_in_its_scopes() {
    let committed = CommittedIndex {
        generation: 3,
        volume_id: 1,
        root: path("/root"),
        coverage: Coverage::Complete,
        entries: vec![
            entry(1, "/root/affected"),
            entry(2, "/root/affected/old.txt"),
            entry(3, "/root/unrelated/stale.txt"),
        ],
        skipped: vec![],
    };
    let observed = ScanReport {
        root: path("/root/affected"),
        volume_id: 1,
        entries: vec![entry(5, "/root/affected/new.txt"), entry(6, "/root/affected/a")],
        skipped: vec![],
    };
    let repaired = merge_repaired(
        path("/root"),
        committed,
        &[path("/root/affected")],
        vec![observed],
    );
    let ids: Vec<_> = repaired.report.entries.iter().map(|entry| entry.entry_id).collect();
    assert_eq!(ids, vec![1, 6, 5, 3]);
    assert_eq!(repaired.report.root, path("/root"));
    assert_eq!(repaired.coverage, Coverage::Complete);
}

#[test]
fn a_repair_keeps_partial_coverage_and_outside_skips() {
    let prior = |coverage, skipped| CommittedIndex {
        generation: 3,
        volume_id: 1,
        root: path("/root"),
        coverage,
        entries: vec![entry(1, "/root/a"), entry(2, "/root/a/")],
        skipped,
    };
    let partial = merge_repaired(
        path("/root"),
        prior(Coverage::Partial, vec![skip("/root/b/x")]),
        &[path("/root/b")],
        vec![],
    );
    assert_eq!(partial.coverage, Coverage::Partial);
    assert!(partial.report.skipped.is_empty());
    assert_eq!(partial.report.entries.len(), 1);
    let skipping = merge_repaired(
        path("/root"),
        prior(Coverage::Complete, vec![skip("/root/c")]),
        &[path("/root/b")],
        vec![],
    );
    assert_eq!(skipping.coverage, Coverage::Partial);
    assert_eq!(skipping.report.skipped, vec![skip("/root/c")]);
}

#[test]
fn events_become_hints() {
    let made = batch_from_events("uuid".into(), vec![path("/a")], &[0x10000, 0x02], &[4, 9, 7]);
    assert_eq!(made.highest_event_id, 9);
    assert!(made.history_lost);
    assert!(!made.ids_wrapped);
    assert!(!made.root_changed);
    assert_eq!(made.paths, vec![path("/a")]);
    let other = batch_from_events("uuid".into(), vec![], &[0x08, 0x20], &[]);
    assert_eq!(other.highest_event_id, 0);
    assert!(!other.history_lost);
    assert!(other.ids_wrapped);
    assert!(other.root_changed);
}

#[test]
fn a_stream_that_is_not_replayed_starts_with_its_root() {
    let root = path("/root");
    let replay = RecoveryPlan::Replay { since_event_id: 42 };
    assert_eq!(start_event(&replay), Some(42));
    assert_eq!(start_cursor(start_event(&replay)), 42);
    assert_eq!(start_hint(&replay, "uuid", &root, 99), None);
    assert_eq!(applied_event(&replay, 7, 99), 7);
    assert_eq!(applied_event(&replay, 0, 99), 99);
    let rebuild = RecoveryPlan::RebuildVolume {
        reason: RecoveryReason::StreamIdentityMismatch,
    };
    assert_eq!(start_event(&rebuild), None);
    assert_eq!(start_cursor(None), u64::MAX);
    assert_eq!(applied_event(&rebuild, 7, 99), 99);
    let hint = start_hint(&rebuild, "uuid", &root, 99).unwrap();
    assert_eq!(hint.highest_event_id, 99);
    assert_eq!(hint.paths, vec![path("/root")]);
    assert_eq!(
        plan_batch(&root, &hint),
        RecoveryPlan::RebuildVolume {
            reason: RecoveryReason::RootChanged
        }
    );
}

#[test]
fn a_vanished_scope_loses_its_entry_and_an_observed_one_keeps_it() {
    let committed = || CommittedIndex {
        generation: 3,
        volume_id: 1,
        root: path("/root"),
        coverage: Coverage::Complete,
        entries: vec![
            entry(1, "/root/gone"),
            entry(2, "/root/gone/old.txt"),
            entry(3, "/root/here"),
            entry(4, "/root/here/old.txt"),
        ],
        skipped: vec![],
    };
    let observed = |root: &str| ScanReport {
        root: path(root),
        volume_id: 1,
        entries: vec![],
        skipped: vec![],
    };
    let scopes = [path("/root/gone"), path("/root/here")];
    let ids = |reports| -> Vec<u64> {
        let repaired = merge_repaired(path("/root"), committed(), &scopes, reports);
        repaired.report.entries.iter().map(|entry| entry.entry_id).collect()
    };
    assert_eq!(ids(vec![observed("/root/here/")]), vec![3]);
    assert_eq!(ids(vec![observed("/root/gone"), observed("/root/here")]), vec![1, 3]);
    assert_eq!(ids(vec![]), Vec::<u64>::new());
}

#[test]
fn batches_without_a_stream_are_refused() {
    let mut hints = batch(&[]);
    assert_eq!(known_stream(&hints), Ok(()));
    hints.stream_identity = String::new();
    assert_eq!(known_stream(&hints), Err("FSEvents stream identity is missing".into()));
}

#[test]
fn pending_paths_do_not_depend_on_the_order_of_pushes() {
    let mut first = batch(&["/a/b", "/c"]);
    first.highest_event_id = 30;
    first.history_lost = true;
    let mut second = batch(&["/a/b/x", "/d/e", "/c/"]);
    second.highest_event_id = 20;
    second.stream_identity = "other".into();
    let mut third = batch(&["/a", "/d/e/f"]);
    third.root_changed = true;
    let all = [first, second, third];
    for order in [[0, 1, 2], [0, 2, 1], [1, 0, 2], [1, 2, 0], [2, 0, 1], [2, 1, 0]] {
        let mut coalescer = HintCoalescer::default();
        for at in order {
            coalescer.push(all[at].clone());
        }
        let taken = coalescer.take().unwrap();
        assert_eq!(taken.paths, vec![path("/a"), path("/c"), path("/d/e")]);
        assert_eq!(taken.highest_event_id, 30);
        assert!(taken.history_lost && taken.root_changed && !taken.ids_wrapped);
        assert_eq!(taken.stream_identity, all[order[2]].stream_identity);
    }
}

#[test]
fn what_an_outer_scope_lists_replaces_the_entry_of_an_inner_one() {
    let committed = CommittedIndex {
        generation: 3,
        volume_id: 1,
        root: path("/root"),
        coverage: Coverage::Complete,
        entries: vec![entry(1, "/root/a"), entry(2, "/root/a/b"), entry(3, "/root/a/b/old")],
        skipped: vec![],
    };
    let report = |root: &str, entries| ScanReport {
        root: path(root),
        volume_id: 1,
        entries,
        skipped: vec![],
    };
    let repaired = merge_repaired(
        path("/root"),
        committed,
        &[path("/root/a"), path("/root/a/b")],
        vec![
            report("/root/a", vec![entry(12, "/root/a/b"), entry(13, "/root/a/b/new")]),
            report("/root/a/b", vec![entry(13, "/root/a/b/new")]),
        ],
    );
    let ids: Vec<_> = repaired.report.entries.iter().map(|entry| entry.entry_id).collect();
    assert_eq!(ids, vec![1, 12, 13]);
}
