use std::collections::HashMap;

use everyfile::actions::{
    action_outcome, dispatch_selected, return_key_action, selected_index, ResultAction,
    ResultActionDispatcher,
};
use everyfile::indexing_control::{work_allowance, ResourceConditions, WorkAllowance};
use everyfile::model::{
    overall_coverage, AppSnapshot, Coverage, EntryKind, FileIndexState, Freshness, RootCoverage,
    SearchResult, SkippedLocation,
};
use everyfile::paths::FilePath;
use everyfile::query::{RankedResults, SortDirection, SortField, SortOrder};
use everyfile::reconciliation::{CoalescingPreset, EventBatch, HintCoalescer};
use everyfile::scheduler::{schedule_result, QueueOutcome, ScheduleError};
use everyfile::shell::{
    cell_text, choose_sort, field_of_column, is_rebuild, opening_time, persisted_preset,
    persisted_sort, publication_of, restored_preset, restored_shortcut, restored_sort,
    shortcut_modifiers, skipped_title, tool_tip, QueryPanel, QueryPublication, Runtime,
};

#[derive(Default)]
struct RecordingDispatcher(Vec<(ResultAction, FilePath)>);

impl ResultActionDispatcher for RecordingDispatcher {
    fn dispatch(&mut self, action: ResultAction, result: &SearchResult) -> bool {
        self.0.push((action, result.path.clone()));
        true
    }
}

struct RefusingDispatcher;

impl ResultActionDispatcher for RefusingDispatcher {
    fn dispatch(&mut self, _action: ResultAction, _result: &SearchResult) -> bool {
        false
    }
}

fn row(id: u64, name: &str) -> SearchResult {
    SearchResult {
        entry_id: id,
        name: name.into(),
        path: FilePath::new(&format!("/tmp/{name}")),
        size: 12,
        created_ns: None,
        modified_ns: Some(-34),
    }
}

fn report(root: &str, coverage: Coverage, skipped: &[(&str, &str)]) -> RootCoverage {
    RootCoverage {
        volume_id: 1,
        root: FilePath::new(root),
        coverage,
        skipped: skipped
            .iter()
            .map(|(path, reason)| SkippedLocation {
                path: FilePath::new(path),
                reason: (*reason).into(),
            })
            .collect(),
    }
}

#[test]
fn dispatcher_seam_records_observable_commands() {
    let result = SearchResult {
        entry_id: 1,
        name: "report.txt".into(),
        path: FilePath::new("/tmp/report.txt"),
        size: 0,
        created_ns: None,
        modified_ns: None,
    };
    let mut dispatcher = RecordingDispatcher::default();
    assert!(dispatcher.dispatch(ResultAction::Reveal, &result));
    assert_eq!(dispatcher.0, vec![(ResultAction::Reveal, result.path)]);
}

#[test]
fn empty_state_never_claims_freshness_or_coverage() {
    let snapshot = AppSnapshot::default();
    assert_eq!(snapshot.file_index.title(), "No File Index");
    assert!(snapshot.file_index.detail().contains("not built"));
}

#[test]
fn overall_coverage_requires_reports_and_every_root_complete() {
    assert_eq!(overall_coverage(&[]), None);
    let report = |coverage| RootCoverage {
        volume_id: 1,
        root: FilePath::new("/"),
        coverage,
        skipped: Vec::new(),
    };
    assert_eq!(
        overall_coverage(&[report(Coverage::Complete)]),
        Some(Coverage::Complete)
    );
    assert_eq!(
        overall_coverage(&[report(Coverage::Complete), report(Coverage::Partial)]),
        Some(Coverage::Partial)
    );
}

#[test]
fn unsafe_conditions_pause_and_constrained_power_reduces_work() {
    let normal = ResourceConditions {
        volume_available: true,
        ..ResourceConditions::default()
    };
    assert_eq!(work_allowance(false, normal), WorkAllowance::Normal);
    assert_eq!(work_allowance(true, normal), WorkAllowance::Paused);
    assert_eq!(
        work_allowance(
            false,
            ResourceConditions {
                low_power_mode: true,
                ..normal
            }
        ),
        WorkAllowance::Reduced
    );
    for constrained in [
        ResourceConditions {
            severe_thermal_state: true,
            ..normal
        },
        ResourceConditions {
            memory_pressure: true,
            ..normal
        },
        ResourceConditions {
            volume_available: false,
            ..normal
        },
    ] {
        assert_eq!(work_allowance(false, constrained), WorkAllowance::Paused);
    }
}

#[test]
fn low_battery_reduces_only_while_running_on_battery() {
    let low = ResourceConditions {
        on_battery: true,
        battery_percent: Some(20),
        volume_available: true,
        ..ResourceConditions::default()
    };
    assert_eq!(work_allowance(false, low), WorkAllowance::Reduced);
    assert_eq!(
        work_allowance(
            false,
            ResourceConditions {
                on_battery: false,
                ..low
            }
        ),
        WorkAllowance::Normal
    );
}

#[test]
fn charge_above_a_fifth_or_unknown_allows_normal_work() {
    for battery_percent in [Some(21), None] {
        let conditions = ResourceConditions {
            on_battery: true,
            battery_percent,
            volume_available: true,
            ..ResourceConditions::default()
        };
        assert_eq!(work_allowance(false, conditions), WorkAllowance::Normal);
    }
}

#[test]
fn index_states_have_titles_and_details() {
    let rebuilding = FileIndexState::Rebuilding { scanned_entries: 1204 };
    assert_eq!(rebuilding.title(), "File Index: Rebuilding");
    assert_eq!(
        rebuilding.detail(),
        "Scanning configured root — 1204 entries observed"
    );
    let complete = FileIndexState::Current { coverage: Coverage::Complete };
    assert_eq!(complete.title(), "File Index: Current");
    assert_eq!(complete.detail(), "Coverage: Complete");
    let partial = FileIndexState::Current { coverage: Coverage::Partial };
    assert_eq!(
        partial.detail(),
        "Coverage: Partial — some locations were skipped."
    );
    assert_eq!(
        FileIndexState::NotAvailable.detail(),
        "Everyfile has not built a File Index yet."
    );
}

#[test]
fn kinds_have_numbers() {
    assert_eq!(EntryKind::File.as_i64(), 1);
    assert_eq!(EntryKind::Directory.as_i64(), 2);
    assert_eq!(EntryKind::Symlink.as_i64(), 3);
    assert_eq!(EntryKind::Other.as_i64(), 4);
}

#[test]
fn only_successful_openings_count() {
    assert_eq!(action_outcome(ResultAction::Open, 7, true).opened, Some(7));
    assert_eq!(action_outcome(ResultAction::Open, 7, false).opened, None);
    assert_eq!(action_outcome(ResultAction::Reveal, 7, true).opened, None);
    assert_eq!(return_key_action(true), ResultAction::Reveal);
    assert_eq!(return_key_action(false), ResultAction::Open);
}

#[test]
fn an_action_applies_to_the_selected_row() {
    let rows = [row(1, "a"), row(2, "b"), row(3, "c")];
    assert_eq!(selected_index(-1, 3), 0);
    assert_eq!(selected_index(1, 3), 1);
    assert_eq!(selected_index(9, 3), 2);
    let mut dispatcher = RecordingDispatcher::default();
    let outcome = dispatch_selected(&mut dispatcher, ResultAction::Open, &rows, 1);
    assert!(outcome.succeeded);
    assert_eq!(outcome.opened, Some(2));
    assert_eq!(dispatcher.0, vec![(ResultAction::Open, FilePath::new("/tmp/b"))]);
    let outcome = dispatch_selected(&mut dispatcher, ResultAction::Open, &[], 0);
    assert!(!outcome.succeeded);
    assert_eq!(dispatcher.0.len(), 1);
    let outcome = dispatch_selected(&mut RefusingDispatcher, ResultAction::Open, &rows, 1);
    assert!(!outcome.succeeded);
    assert_eq!(outcome.opened, None);
}

#[test]
fn a_full_or_stopped_queue_refuses_work() {
    assert_eq!(schedule_result(QueueOutcome::Accepted), Ok(()));
    assert_eq!(schedule_result(QueueOutcome::Full), Err(ScheduleError::Full));
    assert_eq!(
        schedule_result(QueueOutcome::Disconnected),
        Err(ScheduleError::Stopped)
    );
    assert_eq!(ScheduleError::Full.name(), "Full");
    assert_eq!(ScheduleError::Stopped.name(), "Stopped");
}

#[test]
fn choosing_a_field_again_turns_the_direction() {
    let start = SortOrder::default();
    let by_name = choose_sort(start, SortField::FileName);
    assert_eq!(by_name.direction, SortDirection::Ascending);
    let turned = choose_sort(by_name, SortField::FileName);
    assert_eq!(turned.direction, SortDirection::Descending);
    assert_eq!(choose_sort(turned, SortField::FileName), by_name);
    assert_eq!(
        choose_sort(turned, SortField::FileSize).direction,
        SortDirection::Ascending
    );
}

#[test]
fn remembered_choices_come_back() {
    for field in [
        SortField::Relevance,
        SortField::ModificationTime,
        SortField::CreationTime,
        SortField::FileName,
        SortField::FullPath,
        SortField::FileSize,
    ] {
        for direction in [SortDirection::Ascending, SortDirection::Descending] {
            let sort = SortOrder { field, direction };
            let (a, b) = persisted_sort(sort);
            assert_eq!(restored_sort(a, b), sort);
        }
    }
    assert_eq!(restored_sort(77, -1), SortOrder::default());
    assert_eq!(
        persisted_sort(SortOrder {
            field: SortField::FileSize,
            direction: SortDirection::Descending
        }),
        (5, 1)
    );
    for preset in [
        CoalescingPreset::Responsive,
        CoalescingPreset::Balanced,
        CoalescingPreset::LowEnergy,
    ] {
        assert_eq!(restored_preset(persisted_preset(preset)), preset);
    }
    assert_eq!(restored_preset(9), CoalescingPreset::Balanced);
    assert_eq!(restored_shortcut(2), 2);
    assert_eq!(restored_shortcut(0), 1);
    assert_eq!(shortcut_modifiers(1), 0x100 | 0x800);
    assert_eq!(shortcut_modifiers(2), 0x100 | 0x200);
}

#[test]
fn columns_show_fields() {
    let result = row(1, "a");
    assert_eq!(field_of_column("modified"), Some(SortField::ModificationTime));
    assert_eq!(field_of_column("kind"), None);
    assert_eq!(cell_text("name", &result), "a");
    assert_eq!(cell_text("path", &result), "/tmp/a");
    assert_eq!(cell_text("modified", &result), "-34");
    assert_eq!(cell_text("created", &result), "");
    assert_eq!(cell_text("size", &result), "12");
    assert_eq!(cell_text("kind", &result), "");
}

#[test]
fn only_the_current_query_is_shown() {
    let mut panel = QueryPanel::new(SortOrder::default());
    let first = panel.begin();
    assert_eq!(first.limit, 100);
    let second = panel.begin();
    assert!(!panel.publish(QueryPublication {
        generation: first.generation,
        rows: vec![row(1, "old")],
        exact_total: 1
    }));
    assert!(panel.rows.is_empty());
    assert!(panel.publish(QueryPublication {
        generation: second.generation,
        rows: vec![row(2, "new")],
        exact_total: 5
    }));
    assert_eq!(panel.rows[0].entry_id, 2);
    assert_eq!(panel.exact_total, 5);
}

#[test]
fn a_selection_near_the_end_asks_for_more_rows() {
    let mut panel = QueryPanel::new(SortOrder::default());
    panel.rows = (0..100).map(|id| row(id, "x")).collect();
    panel.exact_total = 250;
    assert!(!panel.selected(79));
    assert!(panel.selected(80));
    assert_eq!(panel.requested_limit, 200);
    panel.edited();
    assert_eq!(panel.requested_limit, 100);
    panel.exact_total = 100;
    assert!(!panel.selected(99));
    panel.choose_field(SortField::FileName);
    assert_eq!(panel.sort.field, SortField::FileName);
}

#[test]
fn the_runtime_tells_how_the_index_stands() {
    let mut runtime: Runtime<u32> = Runtime::new();
    assert_eq!(runtime.title(), "No File Index");
    assert_eq!(runtime.coverage_title(), "Overall Coverage: Not Available");
    assert_eq!(runtime.root_detail(), "Everyfile has not built a File Index yet.");
    runtime.scanning(3);
    assert_eq!(runtime.detail(), "Scanning configured root — 3 entries observed");
    runtime.build_failed("no disk".into());
    assert_eq!(runtime.detail(), "no disk");
    runtime.build_not_scheduled(ScheduleError::Full);
    assert_eq!(runtime.detail(), "could not schedule initial scan: Full");
    runtime.built(
        FileIndexState::Current { coverage: Coverage::Partial },
        1,
        HashMap::from([(4, 9)]),
        report("/root", Coverage::Partial, &[("/root/a", "denied"), ("/root/b", "gone")]),
    );
    assert_eq!(runtime.title(), "File Index: Current");
    assert_eq!(
        runtime.detail(),
        "Freshness: Current · Coverage: Partial across 1 configured root(s)"
    );
    assert_eq!(runtime.coverage_title(), "Overall Coverage: Partial");
    assert_eq!(runtime.root_detail(), "/root — Partial (2 skipped)");
    assert_eq!(runtime.skipped_count(), 2);
    assert_eq!(
        runtime.skipped_text().unwrap(),
        "/root/a\n  denied\n\n/root/b\n  gone"
    );
    assert!(runtime.take_refresh());
    assert!(!runtime.take_refresh());
}

#[test]
fn searching_goes_on_while_changes_are_applied() {
    let mut runtime: Runtime<u32> = Runtime::new();
    runtime.built(
        FileIndexState::Current { coverage: Coverage::Complete },
        1,
        HashMap::new(),
        report("/root", Coverage::Complete, &[]),
    );
    assert!(runtime.begin_reconciliation());
    assert!(!runtime.begin_reconciliation());
    assert_eq!(runtime.title(), "File Index: Catching Up");
    assert_eq!(
        runtime.detail(),
        "Applying pending filesystem changes to the committed File Index…"
    );
    runtime.reconciliation_failed(true, "interrupted".into());
    assert_eq!(runtime.projection, Some(1));
    assert_eq!(runtime.error.as_deref(), Some("interrupted"));
    assert!(runtime.begin_reconciliation());
    runtime.reconciliation_not_scheduled(false);
    assert_eq!(
        runtime.error.as_deref(),
        Some("could not schedule FSEvents reconciliation")
    );
    assert_eq!(runtime.freshness, Freshness::CatchingUp);
    assert!(runtime.begin_reconciliation());
    runtime.reconciled(Coverage::Complete, 2, report("/root", Coverage::Complete, &[]));
    assert_eq!(runtime.projection, Some(2));
    assert_eq!(runtime.freshness, Freshness::Current);
    assert_eq!(runtime.error, None);
    assert_eq!(runtime.skipped_text(), None);
    runtime.freshness = Freshness::Offline;
    assert_eq!(runtime.title(), "File Index: Offline");
    runtime.stream_failed("could not start".into());
    assert_eq!(runtime.detail(), "could not start");
}

#[test]
fn pending_hints_are_reconciled_one_batch_at_a_time() {
    let mut runtime: Runtime<u32> = Runtime::new();
    let mut hints = HintCoalescer::default();
    assert_eq!(runtime.take_work(&mut hints), None);
    assert!(!runtime.reconciliation_in_flight);
    let hint = |path: &str, event| EventBatch {
        stream_identity: "uuid".into(),
        highest_event_id: event,
        paths: vec![FilePath::new(path)],
        history_lost: false,
        ids_wrapped: false,
        root_changed: path == "/root",
    };
    hints.push(hint("/root/a/file", 7));
    let batch = runtime.take_work(&mut hints).unwrap();
    assert!(runtime.reconciliation_in_flight);
    let root = FilePath::new("/root");
    let (batch, plan) = runtime.plan_work(&root, batch, 99);
    assert_eq!(batch.highest_event_id, 7);
    assert!(!is_rebuild(&plan));
    assert_eq!(runtime.freshness, Freshness::CatchingUp);
    hints.push(hint("/root", 8));
    assert_eq!(runtime.take_work(&mut hints), None);
    assert!(hints.has_pending());
    runtime.reconciliation_failed(false, "interrupted".into());
    let batch = runtime.take_work(&mut hints).unwrap();
    let (batch, plan) = runtime.plan_work(&root, batch, 99);
    assert_eq!(batch.highest_event_id, 99);
    assert!(is_rebuild(&plan));
    assert_eq!(runtime.freshness, Freshness::Rebuilding);
}

#[test]
fn a_cancelled_query_publishes_nothing() {
    let mut panel = QueryPanel::new(SortOrder::default());
    let request = panel.begin();
    let ranked = |cancelled| RankedResults {
        rows: vec![row(1, "a")],
        exact_total: 3,
        max_retained: 1,
        cancelled,
    };
    assert_eq!(publication_of(request, ranked(true)), None);
    let publication = publication_of(request, ranked(false)).unwrap();
    assert_eq!(publication.generation, request.generation);
    assert_eq!(publication.exact_total, 3);
    assert_eq!(publication.rows.len(), 1);
}

#[test]
fn publications_and_openings_are_kept_until_taken_or_forgotten() {
    let mut runtime: Runtime<u32> = Runtime::new();
    runtime.publish(QueryPublication {
        generation: 4,
        rows: vec![],
        exact_total: 0,
    });
    assert_eq!(runtime.take_publication().map(|publication| publication.generation), Some(4));
    assert_eq!(runtime.take_publication(), None);
    runtime.opened(7, 99);
    assert_eq!(runtime.recent_opens.get(&7), Some(&99));
    runtime.forget_openings();
    assert!(runtime.recent_opens.is_empty());
}

#[test]
fn menu_lines_count_and_name() {
    assert_eq!(skipped_title(0), ("Skipped Locations… (0)".to_owned(), false));
    assert_eq!(skipped_title(12), ("Skipped Locations… (12)".to_owned(), true));
    assert_eq!(tool_tip("File Index: Current"), "Everyfile — File Index: Current");
}

#[test]
fn remembered_openings_are_clamped() {
    assert_eq!(opening_time(5), 5);
    assert_eq!(opening_time(u64::MAX as u128 + 1), u64::MAX);
}

#[test]
fn hints_accumulate_while_work_is_paused() {
    let mut runtime: Runtime<u32> = Runtime::new();
    let mut hints = HintCoalescer::default();
    let hint = |path: &str, event| EventBatch {
        stream_identity: "uuid".into(),
        highest_event_id: event,
        paths: vec![FilePath::new(path)],
        history_lost: false,
        ids_wrapped: false,
        root_changed: false,
    };
    hints.push(hint("/root/a", 7));
    assert_eq!(runtime.take_allowed_work(&mut hints, WorkAllowance::Paused), None);
    assert!(!runtime.reconciliation_in_flight);
    hints.push(hint("/root/b", 9));
    let batch = runtime
        .take_allowed_work(&mut hints, WorkAllowance::Reduced)
        .unwrap();
    assert_eq!(batch.paths, vec![FilePath::new("/root/a"), FilePath::new("/root/b")]);
    assert_eq!(batch.highest_event_id, 9);
    assert!(runtime.reconciliation_in_flight);
    hints.push(hint("/root/c", 10));
    assert_eq!(runtime.take_allowed_work(&mut hints, WorkAllowance::Normal), None);
    assert!(hints.has_pending());
}
