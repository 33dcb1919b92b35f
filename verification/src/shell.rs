//! What the search window and the menu show, and how they change.

use std::collections::HashMap;

use vstd::prelude::*;

use crate::fsevents::applied_event;
use crate::indexing_control::WorkAllowance;
use crate::model::{
    self, overall_coverage, Coverage, FileIndexState, Freshness, RootCoverage, SearchResult,
};
use crate::paths::FilePath;
use crate::query::{RankedResults, SortDirection, SortField, SortOrder};
use crate::reconciliation::{
    self, plan_batch, CoalescingPreset, EventBatch, HintCoalescer, RecoveryPlan,
};
use crate::scheduler::ScheduleError;
use crate::scopes;
use crate::text::{self, render, render_signed, same_str};

verus! {

/// How many rows a new query asks for, and by how many a frontier grows.
pub const FRONTIER_STEP: usize = 100;

/// How close to the end of the rows a selection has to be for the frontier to grow.
pub const FRONTIER_MARGIN: usize = 20;

/// The order after a field was chosen: choosing the field that is sorted by turns the direction,
/// any other one starts ascending.
pub open spec fn sort_after_choice(current: SortOrder, field: SortField) -> SortOrder {
    if current.field == field && current.direction == SortDirection::Ascending {
        SortOrder { field, direction: SortDirection::Descending }
    } else {
        SortOrder { field, direction: SortDirection::Ascending }
    }
}

/// Chooses a field to sort by.
pub fn choose_sort(current: SortOrder, field: SortField) -> (sort: SortOrder)
    ensures
        sort == sort_after_choice(current, field),
{
    if current.field == field && current.direction == SortDirection::Ascending {
        SortOrder { field, direction: SortDirection::Descending }
    } else {
        SortOrder { field, direction: SortDirection::Ascending }
    }
}

/// Choosing the field that is sorted by twice gives the order back.
pub proof fn choosing_twice_gives_the_order_back(current: SortOrder)
    ensures
        sort_after_choice(sort_after_choice(current, current.field), current.field) == current,
{
}

/// The number under which a field is remembered.
pub open spec fn field_number(field: SortField) -> isize {
    match field {
        SortField::Relevance => 0,
        SortField::ModificationTime => 1,
        SortField::CreationTime => 2,
        SortField::FileName => 3,
        SortField::FullPath => 4,
        SortField::FileSize => 5,
    }
}

/// The number under which a direction is remembered.
pub open spec fn direction_number(direction: SortDirection) -> isize {
    match direction {
        SortDirection::Ascending => 0,
        SortDirection::Descending => 1,
    }
}

/// The order that two remembered numbers stand for.
pub open spec fn sort_numbered(field: isize, direction: isize) -> SortOrder {
    SortOrder {
        field: if field == 1 {
            SortField::ModificationTime
        } else if field == 2 {
            SortField::CreationTime
        } else if field == 3 {
            SortField::FileName
        } else if field == 4 {
            SortField::FullPath
        } else if field == 5 {
            SortField::FileSize
        } else {
            SortField::Relevance
        },
        direction: if direction == 1 {
            SortDirection::Descending
        } else {
            SortDirection::Ascending
        },
    }
}

/// Gives the numbers under which an order is remembered.
pub fn persisted_sort(sort: SortOrder) -> (numbers: (isize, isize))
    ensures
        numbers.0 == field_number(sort.field),
        numbers.1 == direction_number(sort.direction),
{
    let field: isize = match sort.field {
        SortField::Relevance => 0,
        SortField::ModificationTime => 1,
        SortField::CreationTime => 2,
        SortField::FileName => 3,
        SortField::FullPath => 4,
        SortField::FileSize => 5,
    };
    let direction: isize = match sort.direction {
        SortDirection::Ascending => 0,
        SortDirection::Descending => 1,
    };
    (field, direction)
}

/// Reads the numbers under which an order is remembered.
pub fn restored_sort(field: isize, direction: isize) -> (sort: SortOrder)
    ensures
        sort == sort_numbered(field, direction),
{
    SortOrder {
        field: match field {
            1 => SortField::ModificationTime,
            2 => SortField::CreationTime,
            3 => SortField::FileName,
            4 => SortField::FullPath,
            5 => SortField::FileSize,
            _ => SortField::Relevance,
        },
        direction: if direction == 1 {
            SortDirection::Descending
        } else {
            SortDirection::Ascending
        },
    }
}

/// A remembered order comes back as it was.
pub proof fn remembered_sort_comes_back(sort: SortOrder)
    ensures
        sort_numbered(field_number(sort.field), direction_number(sort.direction)) == sort,
{
}

/// The number under which a preset is remembered.
pub open spec fn preset_number(preset: CoalescingPreset) -> isize {
    match preset {
        CoalescingPreset::Responsive => 0,
        CoalescingPreset::Balanced => 1,
        CoalescingPreset::LowEnergy => 2,
    }
}

/// The preset that a remembered number stands for.
pub open spec fn preset_numbered(number: isize) -> CoalescingPreset {
    if number == 0 {
        CoalescingPreset::Responsive
    } else if number == 2 {
        CoalescingPreset::LowEnergy
    } else {
        CoalescingPreset::Balanced
    }
}

/// Gives the number under which a preset is remembered.
pub fn persisted_preset(preset: CoalescingPreset) -> (number: isize)
    ensures
        number == preset_number(preset),
{
    match preset {
        CoalescingPreset::Responsive => 0,
        CoalescingPreset::Balanced => 1,
        CoalescingPreset::LowEnergy => 2,
    }
}

/// Reads the number under which a preset is remembered.
pub fn restored_preset(number: isize) -> (preset: CoalescingPreset)
    ensures
        preset == preset_numbered(number),
{
    match number {
        0 => CoalescingPreset::Responsive,
        2 => CoalescingPreset::LowEnergy,
        _ => CoalescingPreset::Balanced,
    }
}

/// A remembered preset comes back as it was.
pub proof fn remembered_preset_comes_back(preset: CoalescingPreset)
    ensures
        preset_numbered(preset_number(preset)) == preset,
{
}

/// The shortcut that a remembered number stands for: the second one, or else the first.
pub fn restored_shortcut(number: isize) -> (preset: isize)
    ensures
        preset == if number == 2 {
            2isize
        } else {
            1
        },
{
    if number == 2 {
        2
    } else {
        1
    }
}

/// The keys that are held for a shortcut: the command key with the shift key for the second one,
/// and with the option key for any other.
pub fn shortcut_modifiers(preset: isize) -> (modifiers: u32)
    ensures
        modifiers == if preset == 2 {
            0x300u32
        } else {
            0x900u32
        },
{
    if preset == 2 {
        0x300
    } else {
        0x900
    }
}

/// The field that a column of the table shows.
pub open spec fn column_field(identifier: Seq<char>) -> Option<SortField> {
    if identifier == "name"@ {
        Some(SortField::FileName)
    } else if identifier == "path"@ {
        Some(SortField::FullPath)
    } else if identifier == "modified"@ {
        Some(SortField::ModificationTime)
    } else if identifier == "created"@ {
        Some(SortField::CreationTime)
    } else if identifier == "size"@ {
        Some(SortField::FileSize)
    } else {
        None
    }
}

/// Finds the field that a column of the table shows.
pub fn field_of_column(identifier: &str) -> (field: Option<SortField>)
    ensures
        field == column_field(identifier@),
{
    if same_str(identifier, "name") {
        Some(SortField::FileName)
    } else if same_str(identifier, "path") {
        Some(SortField::FullPath)
    } else if same_str(identifier, "modified") {
        Some(SortField::ModificationTime)
    } else if same_str(identifier, "created") {
        Some(SortField::CreationTime)
    } else if same_str(identifier, "size") {
        Some(SortField::FileSize)
    } else {
        None
    }
}

/// A time as the table shows it.
pub open spec fn time_text(time: Option<i64>) -> Seq<char> {
    match time {
        Some(value) => text::signed_decimal(value as int),
        None => Seq::empty(),
    }
}

fn show_time(time: Option<i64>) -> (text: String)
    ensures
        text@ == time_text(time),
{
    match time {
        Some(value) => render_signed(value),
        None => String::new(),
    }
}

/// What a column shows of a row.
pub open spec fn cell(identifier: Seq<char>, row: model::Row) -> Seq<char> {
    match column_field(identifier) {
        Some(SortField::FileName) => row.name,
        Some(SortField::FullPath) => row.path,
        Some(SortField::ModificationTime) => time_text(row.modified_ns),
        Some(SortField::CreationTime) => time_text(row.created_ns),
        Some(SortField::FileSize) => text::decimal(row.size as nat),
        _ => Seq::empty(),
    }
}

/// Gives what a column shows of a result.
pub fn cell_text(identifier: &str, result: &SearchResult) -> (text: String)
    ensures
        text@ == cell(identifier@, result@),
{
    match field_of_column(identifier) {
        Some(SortField::FileName) => result.name.clone(),
        Some(SortField::FullPath) => result.path.as_str().to_owned(),
        Some(SortField::ModificationTime) => show_time(result.modified_ns),
        Some(SortField::CreationTime) => show_time(result.created_ns),
        Some(SortField::FileSize) => render(result.size),
        _ => String::new(),
    }
}

/// What a finished query hands to the window.
#[derive(Debug, PartialEq, Eq)]
pub struct QueryPublication {
    pub generation: u64,
    pub rows: Vec<SearchResult>,
    pub exact_total: usize,
}

/// What a query is run with.
#[derive(Clone, Copy, Debug, PartialEq, Eq, Structural)]
pub struct QueryRequest {
    pub generation: u64,
    pub sort: SortOrder,
    pub limit: usize,
}

/// What a finished query hands to the window: nothing where it was cancelled.
pub fn publication_of(request: QueryRequest, ranked: RankedResults) -> (publication: Option<
    QueryPublication,
>)
    ensures
        publication == if ranked.cancelled {
            None
        } else {
            Some(
                QueryPublication {
                    generation: request.generation,
                    rows: ranked.rows,
                    exact_total: ranked.exact_total,
                },
            )
        },
{
    if ranked.cancelled {
        return None;
    }
    Some(
        QueryPublication {
            generation: request.generation,
            rows: ranked.rows,
            exact_total: ranked.exact_total,
        },
    )
}

/// The query of the search window: its order, how many rows it asks for and what it shows.
#[derive(Debug)]
pub struct QueryPanel {
    pub sort: SortOrder,
    pub generation: u64,
    pub requested_limit: usize,
    pub exact_total: usize,
    pub rows: Vec<SearchResult>,
}

impl QueryPanel {
    /// A window that shows nothing yet.
    pub fn new(sort: SortOrder) -> (panel: QueryPanel)
        ensures
            panel.sort == sort,
            panel.generation == 0,
            panel.requested_limit == FRONTIER_STEP,
            panel.exact_total == 0,
            panel.rows@ == Seq::<SearchResult>::empty(),
    {
        QueryPanel {
            sort,
            generation: 0,
            requested_limit: FRONTIER_STEP,
            exact_total: 0,
            rows: Vec::new(),
        }
    }

    /// Notes that the query text was edited.
    pub fn edited(&mut self)
        ensures
            *final(self) == (QueryPanel { requested_limit: FRONTIER_STEP, ..*old(self) }),
    {
        self.requested_limit = FRONTIER_STEP;
    }

    /// Notes that a field to sort by was chosen.
    pub fn choose_field(&mut self, field: SortField)
        ensures
            *final(self) == (QueryPanel {
                sort: sort_after_choice(old(self).sort, field),
                requested_limit: FRONTIER_STEP,
                ..*old(self)
            }),
    {
        self.sort = choose_sort(self.sort, field);
        self.requested_limit = FRONTIER_STEP;
    }

    /// The selection calls for more rows: there are more than are shown, and the selected one is
    /// close to the last.
    pub open spec fn needs_more(&self, selected_row: isize) -> bool {
        let selected: int = if selected_row < 0 {
            0
        } else {
            selected_row as int
        };
        self.rows@.len() < self.exact_total && selected + FRONTIER_MARGIN >= self.rows@.len()
    }

    /// Notes that a row was selected, and tells whether more rows are to be asked for.
    pub fn selected(&mut self, selected_row: isize) -> (grow: bool)
        ensures
            grow == old(self).needs_more(selected_row),
            *final(self) == if grow {
                QueryPanel {
                    requested_limit: if old(self).rows@.len() + FRONTIER_STEP <= usize::MAX {
                        (old(self).rows@.len() + FRONTIER_STEP) as usize
                    } else {
                        usize::MAX
                    },
                    ..*old(self)
                }
            } else {
                *old(self)
            },
    {
        let selected: usize = if selected_row < 0 {
            0
        } else {
            selected_row as usize
        };
        let current: usize = self.rows.len();
        if current < self.exact_total && selected.saturating_add(FRONTIER_MARGIN) >= current {
            self.requested_limit = current.saturating_add(FRONTIER_STEP);
            true
        } else {
            false
        }
    }

    /// Starts a query: from now on only what it publishes is shown.
    pub fn begin(&mut self) -> (request: QueryRequest)
        ensures
            request.generation == old(self).generation.wrapping_add(1),
            request.sort == old(self).sort,
            request.limit == old(self).requested_limit,
            *final(self) == (QueryPanel { generation: request.generation, ..*old(self) }),
    {
        self.generation = self.generation.wrapping_add(1);
        QueryRequest {
            generation: self.generation,
            sort: self.sort,
            limit: self.requested_limit,
        }
    }

    /// Shows what a query published, unless another one was started since.
    pub fn publish(&mut self, publication: QueryPublication) -> (shown: bool)
        ensures
            shown == (publication.generation == old(self).generation),
            *final(self) == if shown {
                QueryPanel {
                    rows: publication.rows,
                    exact_total: publication.exact_total,
                    ..*old(self)
                }
            } else {
                *old(self)
            },
    {
        if publication.generation != self.generation {
            return false;
        }
        self.rows = publication.rows;
        self.exact_total = publication.exact_total;
        true
    }
}

/// Two queries in a row have different generations, so what the earlier one publishes once the
/// later one has started is not the publication of the current query.
pub proof fn obsolete_publication_is_not_current(
    publication: QueryPublication,
    before: QueryPanel,
    after: QueryPanel,
)
    requires
        publication.generation == before.generation,
        after.generation == before.generation.wrapping_add(1),
    ensures
        publication.generation != after.generation,
{
}

/// The state of the index as the window and the menu see it. `P` is what queries read.
pub struct Runtime<P> {
    pub state: FileIndexState,
    pub projection: Option<P>,
    pub error: Option<String>,
    pub recent_opens: HashMap<u64, u64>,
    pub pending_query: Option<QueryPublication>,
    pub freshness: Freshness,
    pub reconciliation_in_flight: bool,
    pub query_refresh_needed: bool,
    pub coverage_reports: Vec<RootCoverage>,
}

/// The freshness while a plan is carried out.
pub open spec fn freshness_during(rebuilding: bool) -> Freshness {
    if rebuilding {
        Freshness::Rebuilding
    } else {
        Freshness::CatchingUp
    }
}

fn working_freshness(rebuilding: bool) -> (freshness: Freshness)
    ensures
        freshness == freshness_during(rebuilding),
{
    if rebuilding {
        Freshness::Rebuilding
    } else {
        Freshness::CatchingUp
    }
}

/// Whether a plan rebuilds the whole root.
pub fn is_rebuild(plan: &RecoveryPlan) -> (rebuild: bool)
    ensures
        rebuild == (*plan is RebuildVolume),
{
    match plan {
        RecoveryPlan::RebuildVolume { .. } => true,
        _ => false,
    }
}

impl<P> Runtime<P> {
    /// The index is shown as current only where there is something to search and a report on
    /// what it covers.
    pub open spec fn truthful(&self) -> bool {
        self.state is Current ==> self.projection is Some && self.coverage_reports@.len() > 0
    }

    /// The state before anything is known.
    pub fn new() -> (runtime: Runtime<P>)
        ensures
            runtime.truthful(),
            runtime.state == FileIndexState::NotAvailable,
            runtime.projection is None,
            runtime.error is None,
            runtime.recent_opens@ == Map::<u64, u64>::empty(),
            runtime.pending_query is None,
            runtime.freshness == Freshness::Rebuilding,
            !runtime.reconciliation_in_flight,
            !runtime.query_refresh_needed,
            runtime.coverage_reports@ == Seq::<RootCoverage>::empty(),
    {
        Runtime {
            state: FileIndexState::NotAvailable,
            projection: None,
            error: None,
            recent_opens: HashMap::new(),
            pending_query: None,
            freshness: Freshness::Rebuilding,
            reconciliation_in_flight: false,
            query_refresh_needed: false,
            coverage_reports: Vec::new(),
        }
    }

    /// Notes how many entries the first scan has seen.
    pub fn scanning(&mut self, scanned_entries: u64)
        ensures
            old(self).truthful() ==> final(self).truthful(),
            *final(self) == (Runtime {
                state: FileIndexState::Rebuilding { scanned_entries },
                ..*old(self)
            }),
    {
        self.state = FileIndexState::Rebuilding { scanned_entries };
    }

    /// Notes that the first index is ready to be searched.
    pub fn built(
        &mut self,
        state: FileIndexState,
        projection: P,
        recent_opens: HashMap<u64, u64>,
        report: RootCoverage,
    )
        ensures
            old(self).truthful() ==> final(self).truthful(),
            final(self).coverage_reports@ == seq![report],
            *final(self) == (Runtime {
                state,
                projection: Some(projection),
                error: None,
                recent_opens,
                freshness: Freshness::Current,
                query_refresh_needed: true,
                coverage_reports: final(self).coverage_reports,
                ..*old(self)
            }),
    {
        self.state = state;
        self.projection = Some(projection);
        self.error = None;
        self.recent_opens = recent_opens;
        self.freshness = Freshness::Current;
        self.query_refresh_needed = true;
        self.coverage_reports = only(report);
    }

    /// Notes that the first index could not be built.
    pub fn build_failed(&mut self, error: String)
        ensures
            old(self).truthful() ==> final(self).truthful(),
            *final(self) == (Runtime {
                state: FileIndexState::NotAvailable,
                error: Some(error),
                freshness: Freshness::Rebuilding,
                ..*old(self)
            }),
    {
        self.state = FileIndexState::NotAvailable;
        self.error = Some(error);
        self.freshness = Freshness::Rebuilding;
    }

    /// Notes that the first scan could not be scheduled.
    pub fn build_not_scheduled(&mut self, error: ScheduleError)
        ensures
            old(self).truthful() ==> final(self).truthful(),
            final(self).error matches Some(text) && text@ == "could not schedule initial scan: "@
                + error.text(),
            *final(self) == (Runtime {
                state: FileIndexState::NotAvailable,
                error: final(self).error,
                ..*old(self)
            }),
    {
        self.state = FileIndexState::NotAvailable;
        let mut text = "could not schedule initial scan: ".to_owned();
        text.append(error.name());
        self.error = Some(text);
    }

    /// Notes that an event stream could not be started.
    pub fn stream_failed(&mut self, error: String)
        ensures
            old(self).truthful() ==> final(self).truthful(),
            *final(self) == (Runtime { error: Some(error), ..*old(self) }),
    {
        self.error = Some(error);
    }

    /// Starts a reconciliation unless one is under way.
    pub fn begin_reconciliation(&mut self) -> (started: bool)
        ensures
            old(self).truthful() ==> final(self).truthful(),
            started == !old(self).reconciliation_in_flight,
            *final(self) == if started {
                Runtime {
                    reconciliation_in_flight: true,
                    freshness: Freshness::CatchingUp,
                    ..*old(self)
                }
            } else {
                *old(self)
            },
    {
        if self.reconciliation_in_flight {
            return false;
        }
        self.reconciliation_in_flight = true;
        self.freshness = Freshness::CatchingUp;
        true
    }

    /// Takes the pending hints to reconcile, where there are any and no reconciliation is under
    /// way.
    pub fn take_work(&mut self, hints: &mut HintCoalescer) -> (work: Option<EventBatch>)
        ensures
            old(self).truthful() ==> final(self).truthful(),
            match work {
                Some(batch) => {
                    &&& old(hints)@.pending()
                    &&& !old(self).reconciliation_in_flight
                    &&& batch@ == old(hints)@
                    &&& final(hints)@ == reconciliation::Hints::none()
                    &&& *final(self) == (Runtime {
                        reconciliation_in_flight: true,
                        freshness: Freshness::CatchingUp,
                        ..*old(self)
                    })
                },
                None => {
                    &&& !old(hints)@.pending() || old(self).reconciliation_in_flight
                    &&& final(hints)@ == old(hints)@
                    &&& *final(self) == *old(self)
                },
            },
    {
        if !hints.has_pending() || !self.begin_reconciliation() {
            return None;
        }
        hints.take()
    }

    /// Takes the pending hints to reconcile as far as work is allowed: while it is paused, hints go
    /// on to accumulate and nothing is taken.
    pub fn take_allowed_work(
        &mut self,
        hints: &mut HintCoalescer,
        allowance: WorkAllowance,
    ) -> (work: Option<EventBatch>)
        ensures
            old(self).truthful() ==> final(self).truthful(),
            match work {
                Some(batch) => {
                    &&& allowance != WorkAllowance::Paused
                    &&& old(hints)@.pending()
                    &&& !old(self).reconciliation_in_flight
                    &&& batch@ == old(hints)@
                    &&& final(hints)@ == reconciliation::Hints::none()
                    &&& *final(self) == (Runtime {
                        reconciliation_in_flight: true,
                        freshness: Freshness::CatchingUp,
                        ..*old(self)
                    })
                },
                None => {
                    &&& allowance == WorkAllowance::Paused || !old(hints)@.pending() || old(
                        self,
                    ).reconciliation_in_flight
                    &&& final(hints)@ == old(hints)@
                    &&& *final(self) == *old(self)
                },
            },
    {
        if allowance == WorkAllowance::Paused {
            return None;
        }
        self.take_work(hints)
    }

    /// Plans a batch that was taken: gives the plan and the batch with the event up to which it
    /// is applied.
    pub fn plan_work(&mut self, root: &FilePath, batch: EventBatch, current_event_id: u64) -> (work:
        (EventBatch, RecoveryPlan))
        ensures
            old(self).truthful() ==> final(self).truthful(),
            work.1 is RebuildVolume <==> reconciliation::needs_rebuild(root@, batch),
            work.1 matches RecoveryPlan::RebuildVolume { reason } ==> reason
                == reconciliation::batch_reason(batch),
            !(work.1 is RebuildVolume) ==> (work.1 matches RecoveryPlan::RepairSubtrees {
                scopes,
                reason,
            } && reason == reconciliation::batch_reason(batch)
                && scopes::settled(
                scopes::path_texts(scopes@),
                Seq::empty(),
                reconciliation::scopes_of_changes(
                    root@,
                    scopes::path_texts(batch.paths@),
                ),
            )),
            work.0 == (EventBatch {
                highest_event_id: if work.1 is RebuildVolume || batch.highest_event_id == 0 {
                    current_event_id
                } else {
                    batch.highest_event_id
                },
                ..batch
            }),
            *final(self) == (Runtime {
                freshness: freshness_during(work.1 is RebuildVolume),
                ..*old(self)
            }),
    {
        let plan = plan_batch(root, &batch);
        let rebuilding = is_rebuild(&plan);
        let mut batch = batch;
        batch.highest_event_id = applied_event(&plan, batch.highest_event_id, current_event_id);
        self.freshness = working_freshness(rebuilding);
        (batch, plan)
    }

    /// Notes that a reconciliation was committed.
    pub fn reconciled(&mut self, coverage: Coverage, projection: P, report: RootCoverage)
        ensures
            old(self).truthful() ==> final(self).truthful(),
            final(self).coverage_reports@ == seq![report],
            *final(self) == (Runtime {
                state: FileIndexState::Current { coverage },
                projection: Some(projection),
                error: None,
                freshness: Freshness::Current,
                reconciliation_in_flight: false,
                query_refresh_needed: true,
                coverage_reports: final(self).coverage_reports,
                ..*old(self)
            }),
    {
        self.reconciliation_in_flight = false;
        self.state = FileIndexState::Current { coverage };
        self.projection = Some(projection);
        self.freshness = Freshness::Current;
        self.error = None;
        self.query_refresh_needed = true;
        self.coverage_reports = only(report);
    }

    /// Notes that a reconciliation failed: what was searched before stays.
    pub fn reconciliation_failed(&mut self, rebuilding: bool, error: String)
        ensures
            old(self).truthful() ==> final(self).truthful(),
            *final(self) == (Runtime {
                reconciliation_in_flight: false,
                freshness: freshness_during(rebuilding),
                error: Some(error),
                ..*old(self)
            }),
    {
        self.reconciliation_in_flight = false;
        self.freshness = working_freshness(rebuilding);
        self.error = Some(error);
    }

    /// Notes that a reconciliation could not be scheduled.
    pub fn reconciliation_not_scheduled(&mut self, rebuilding: bool)
        ensures
            old(self).truthful() ==> final(self).truthful(),
            final(self).error matches Some(text) && text@
                == "could not schedule FSEvents reconciliation"@,
            *final(self) == (Runtime {
                reconciliation_in_flight: false,
                freshness: freshness_during(rebuilding),
                error: final(self).error,
                ..*old(self)
            }),
    {
        self.reconciliation_failed(
            rebuilding,
            "could not schedule FSEvents reconciliation".to_owned(),
        );
    }

    /// Keeps what a query published until the window takes it.
    pub fn publish(&mut self, publication: QueryPublication)
        ensures
            old(self).truthful() ==> final(self).truthful(),
            *final(self) == (Runtime { pending_query: Some(publication), ..*old(self) }),
    {
        self.pending_query = Some(publication);
    }

    /// Hands out what a query published.
    pub fn take_publication(&mut self) -> (publication: Option<QueryPublication>)
        ensures
            old(self).truthful() ==> final(self).truthful(),
            publication == old(self).pending_query,
            *final(self) == (Runtime { pending_query: None, ..*old(self) }),
    {
        let mut publication: Option<QueryPublication> = None;
        std::mem::swap(&mut publication, &mut self.pending_query);
        publication
    }

    /// Tells once whether the query has to run again.
    pub fn take_refresh(&mut self) -> (needed: bool)
        ensures
            old(self).truthful() ==> final(self).truthful(),
            needed == old(self).query_refresh_needed,
            *final(self) == (Runtime { query_refresh_needed: false, ..*old(self) }),
    {
        let needed = self.query_refresh_needed;
        self.query_refresh_needed = false;
        needed
    }

    /// Notes when an entry was opened.
    pub fn opened(&mut self, entry_id: u64, time: u64)
        ensures
            old(self).truthful() ==> final(self).truthful(),
            final(self).recent_opens@ == old(self).recent_opens@.insert(entry_id, time),
            *final(self) == (Runtime { recent_opens: final(self).recent_opens, ..*old(self) }),
    {
        broadcast use vstd::std_specs::hash::group_hash_axioms;

        let _ = self.recent_opens.insert(entry_id, time);
    }

    /// Forgets when entries were opened.
    pub fn forget_openings(&mut self)
        ensures
            old(self).truthful() ==> final(self).truthful(),
            final(self).recent_opens@ == Map::<u64, u64>::empty(),
            *final(self) == (Runtime { recent_opens: final(self).recent_opens, ..*old(self) }),
    {
        self.recent_opens.clear();
    }

    /// The title of the state.
    pub open spec fn title_text(&self) -> Seq<char> {
        match self.freshness {
            Freshness::CatchingUp => "File Index: Catching Up"@,
            Freshness::Offline => "File Index: Offline"@,
            _ => self.state.title_text(),
        }
    }

    /// Gives the title of the state.
    pub fn title(&self) -> (text: &'static str)
        ensures
            text@ == self.title_text(),
    {
        match self.freshness {
            Freshness::CatchingUp => "File Index: Catching Up",
            Freshness::Offline => "File Index: Offline",
            _ => self.state.title(),
        }
    }

    /// The explanation of the state: an error, the work under way, or freshness and coverage.
    pub open spec fn detail_text(&self) -> Seq<char> {
        match self.error {
            Some(error) => error@,
            None => if self.freshness == Freshness::CatchingUp {
                "Applying pending filesystem changes to the committed File Index…"@
            } else {
                match model::overall(self.coverage_reports@) {
                    Some(coverage) => "Freshness: "@ + freshness_name(self.freshness)
                        + " · Coverage: "@ + coverage_name(coverage) + " across "@
                        + text::decimal(self.coverage_reports@.len())
                        + " configured root(s)"@,
                    None => self.state.detail_text(),
                }
            },
        }
    }

    /// Explains the state.
    pub fn detail(&self) -> (text: String)
        ensures
            text@ == self.detail_text(),
    {
        if let Some(error) = &self.error {
            return error.clone();
        }
        if self.freshness == Freshness::CatchingUp {
            return "Applying pending filesystem changes to the committed File Index…".to_owned();
        }
        match overall_coverage(self.coverage_reports.as_slice()) {
            Some(coverage) => {
                let mut text = "Freshness: ".to_owned();
                text.append(name_of_freshness(self.freshness));
                text.append(" · Coverage: ");
                text.append(name_of_coverage(coverage));
                text.append(" across ");
                text.append(render(self.coverage_reports.len() as u64).as_str());
                text.append(" configured root(s)");
                text
            },
            None => self.state.detail(),
        }
    }

    /// The line on the coverage of all roots.
    pub open spec fn coverage_text(&self) -> Seq<char> {
        match model::overall(self.coverage_reports@) {
            Some(Coverage::Complete) => "Overall Coverage: Complete"@,
            Some(Coverage::Partial) => "Overall Coverage: Partial"@,
            None => "Overall Coverage: Not Available"@,
        }
    }

    /// Gives the line on the coverage of all roots.
    pub fn coverage_title(&self) -> (text: &'static str)
        ensures
            text@ == self.coverage_text(),
    {
        match overall_coverage(self.coverage_reports.as_slice()) {
            Some(Coverage::Complete) => "Overall Coverage: Complete",
            Some(Coverage::Partial) => "Overall Coverage: Partial",
            None => "Overall Coverage: Not Available",
        }
    }

    /// The line on the first root, or the explanation of the state where there is none.
    pub open spec fn root_text(&self) -> Seq<char> {
        if self.coverage_reports@.len() > 0 {
            let report = self.coverage_reports@[0];
            report.root@ + " — "@ + coverage_name(report.coverage) + " ("@ + text::decimal(
                report.skipped@.len(),
            ) + " skipped)"@
        } else {
            self.detail_text()
        }
    }

    /// Gives the line on the first root.
    pub fn root_detail(&self) -> (text: String)
        ensures
            text@ == self.root_text(),
    {
        if self.coverage_reports.len() == 0 {
            return self.detail();
        }
        let report = &self.coverage_reports[0];
        let mut text = report.root.as_str().to_owned();
        text.append(" — ");
        text.append(name_of_coverage(report.coverage));
        text.append(" (");
        text.append(render(report.skipped.len() as u64).as_str());
        text.append(" skipped)");
        text
    }

    /// Counts the skipped locations of all roots, as far as the count fits.
    pub fn skipped_count(&self) -> (count: usize)
        ensures
            count == if skips_in(self.coverage_reports@) <= usize::MAX {
                skips_in(self.coverage_reports@) as int
            } else {
                usize::MAX as int
            },
    {
        let ghost reports = self.coverage_reports@;
        let mut count: usize = 0;
        assert(reports.take(0) =~= Seq::empty());
        for i in 0..self.coverage_reports.len()
            invariant
                reports == self.coverage_reports@,
                count == if skips_in(reports.take(i as int)) <= usize::MAX {
                    skips_in(reports.take(i as int)) as int
                } else {
                    usize::MAX as int
                },
        {
            assert(reports.take(i + 1).drop_last() =~= reports.take(i as int));
            count = count.saturating_add(self.coverage_reports[i].skipped.len());
        }
        assert(reports.take(reports.len() as int) =~= reports);
        count
    }

    /// Lists the skipped locations of all roots, where there are any.
    pub fn skipped_text(&self) -> (text: Option<String>)
        ensures
            match text {
                Some(lines) => skips_in(self.coverage_reports@) > 0 && lines@ == blocks_text(
                    report_blocks(self.coverage_reports@),
                ),
                None => skips_in(self.coverage_reports@) == 0,
            },
    {
        let ghost reports = self.coverage_reports@;
        let mut text = String::new();
        let mut any = false;
        proof {
            assert(reports.take(0) =~= Seq::empty());
            assert(report_blocks(reports.take(0)) =~= Seq::empty());
        }
        for i in 0..self.coverage_reports.len()
            invariant
                reports == self.coverage_reports@,
                text@ == blocks_text(report_blocks(reports.take(i as int))),
                any == (report_blocks(reports.take(i as int)).len() > 0),
                report_blocks(reports.take(i as int)).len() == skips_in(reports.take(i as int)),
        {
            let report = &self.coverage_reports[i];
            let ghost before = report_blocks(reports.take(i as int));
            let ghost locations = report.skipped@;
            proof {
                assert(reports.take(i + 1).drop_last() =~= reports.take(i as int));
                assert(reports.take(i + 1).last() == *report);
                assert(before + skip_blocks(locations.take(0)) =~= before);
            }
            for k in 0..report.skipped.len()
                invariant
                    locations == report.skipped@,
                    text@ == blocks_text(before + skip_blocks(locations.take(k as int))),
                    any == ((before + skip_blocks(locations.take(k as int))).len() > 0),
            {
                let location = &report.skipped[k];
                let ghost so_far = before + skip_blocks(locations.take(k as int));
                let ghost block = skip_block(*location);
                let ghost start = text@;
                proof {
                    assert(skip_blocks(locations.take(k + 1)) =~= skip_blocks(
                        locations.take(k as int),
                    ).push(block));
                    assert(before + skip_blocks(locations.take(k + 1)) =~= so_far.push(block));
                    assert(so_far.push(block).drop_last() =~= so_far);
                }
                if any {
                    text.append("\n\n");
                }
                text.append(location.path.as_str());
                text.append("\n  ");
                text.append(location.reason.as_str());
                proof {
                    if so_far.len() > 0 {
                        assert(text@ =~= start + "\n\n"@ + block);
                    } else {
                        assert(text@ =~= block);
                    }
                }
                any = true;
            }
            assert(locations.take(locations.len() as int) =~= locations);
        }
        assert(reports.take(reports.len() as int) =~= reports);
        if any {
            Some(text)
        } else {
            None
        }
    }
}

fn only(report: RootCoverage) -> (reports: Vec<RootCoverage>)
    ensures
        reports@ == seq![report],
{
    let mut reports: Vec<RootCoverage> = Vec::new();
    reports.push(report);
    assert(reports@ =~= seq![report]);
    reports
}

/// The number of skipped locations of some roots.
pub open spec fn skips_in(reports: Seq<RootCoverage>) -> nat
    decreases reports.len(),
{
    if reports.len() == 0 {
        0
    } else {
        skips_in(reports.drop_last()) + reports.last().skipped@.len()
    }
}

/// What is shown of a skipped location: its path, and the reason on a line of its own.
pub open spec fn skip_block(location: model::SkippedLocation) -> Seq<char> {
    location.path@ + "\n  "@ + location.reason@
}

/// What is shown of some skipped locations.
pub open spec fn skip_blocks(locations: Seq<model::SkippedLocation>) -> Seq<Seq<char>> {
    locations.map_values(|location: model::SkippedLocation| skip_block(location))
}

/// What is shown of the skipped locations of some roots.
pub open spec fn report_blocks(reports: Seq<RootCoverage>) -> Seq<Seq<char>>
    decreases reports.len(),
{
    if reports.len() == 0 {
        Seq::empty()
    } else {
        report_blocks(reports.drop_last()) + skip_blocks(reports.last().skipped@)
    }
}

/// Blocks of text with an empty line between each two.
pub open spec fn blocks_text(blocks: Seq<Seq<char>>) -> Seq<char>
    decreases blocks.len(),
{
    if blocks.len() == 0 {
        Seq::empty()
    } else if blocks.len() == 1 {
        blocks[0]
    } else {
        blocks_text(blocks.drop_last()) + "\n\n"@ + blocks.last()
    }
}

/// The name of a freshness.
pub open spec fn freshness_name(freshness: Freshness) -> Seq<char> {
    match freshness {
        Freshness::Current => "Current"@,
        Freshness::CatchingUp => "CatchingUp"@,
        Freshness::Rebuilding => "Rebuilding"@,
        Freshness::Offline => "Offline"@,
    }
}

fn name_of_freshness(freshness: Freshness) -> (name: &'static str)
    ensures
        name@ == freshness_name(freshness),
{
    match freshness {
        Freshness::Current => "Current",
        Freshness::CatchingUp => "CatchingUp",
        Freshness::Rebuilding => "Rebuilding",
        Freshness::Offline => "Offline",
    }
}

/// The name of a coverage.
pub open spec fn coverage_name(coverage: Coverage) -> Seq<char> {
    match coverage {
        Coverage::Complete => "Complete"@,
        Coverage::Partial => "Partial"@,
    }
}

fn name_of_coverage(coverage: Coverage) -> (name: &'static str)
    ensures
        name@ == coverage_name(coverage),
{
    match coverage {
        Coverage::Complete => "Complete",
        Coverage::Partial => "Partial",
    }
}

/// The menu line for the skipped locations, and whether it can be chosen.
pub fn skipped_title(count: usize) -> (line: (String, bool))
    ensures
        line.0@ == "Skipped Locations… ("@ + text::decimal(count as nat) + ")"@,
        line.1 == (count > 0),
{
    let mut text = "Skipped Locations… (".to_owned();
    text.append(render(count as u64).as_str());
    text.append(")");
    (text, count > 0)
}

/// The hint of the menu bar item.
pub fn tool_tip(title: &str) -> (text: String)
    ensures
        text@ == "Everyfile — "@ + title@,
{
    let mut text = "Everyfile — ".to_owned();
    text.append(title);
    text
}

/// The time of an opening as it is remembered while the application runs.
pub fn opening_time(since_epoch_ns: u128) -> (time: u64)
    ensures
        time == if since_epoch_ns < u64::MAX {
            since_epoch_ns as int
        } else {
            u64::MAX as int
        },
{
    if since_epoch_ns < u64::MAX as u128 {
        since_epoch_ns as u64
    } else {
        u64::MAX
    }
}

/// Choosing another field than the one that is sorted by sorts by that field, in ascending order.
pub proof fn another_field_starts_ascending(current: SortOrder, field: SortField)
    ensures
        sort_after_choice(current, field).field == field,
        field != current.field ==> sort_after_choice(current, field).direction
            == SortDirection::Ascending,
        field == current.field ==> sort_after_choice(current, field).direction
            != current.direction,
{
}

/// Each column shows one field, and a cell shows that field of its row.
pub proof fn columns_show_their_field(row: model::Row)
    ensures
        cell("name"@, row) == row.name,
        cell("path"@, row) == row.path,
        text::number_of(cell("size"@, row)) == row.size,
        row.modified_ns is None ==> cell("modified"@, row) == Seq::<char>::empty(),
        row.created_ns is None ==> cell("created"@, row) == Seq::<char>::empty(),
        row.modified_ns matches Some(time) ==> cell("modified"@, row) == text::signed_decimal(
            time as int,
        ),
        row.created_ns matches Some(time) ==> cell("created"@, row) == text::signed_decimal(
            time as int,
        ),
        column_field("name"@) == Some(SortField::FileName),
        column_field("path"@) == Some(SortField::FullPath),
        column_field("size"@) == Some(SortField::FileSize),
        column_field("modified"@) == Some(SortField::ModificationTime),
        column_field("created"@) == Some(SortField::CreationTime),
{
    reveal_strlit("name");
    reveal_strlit("path");
    reveal_strlit("size");
    reveal_strlit("modified");
    reveal_strlit("created");
    assert("name"@[0] == 'n' && "path"@[0] == 'p' && "size"@[0] == 's' && "modified"@[0] == 'm'
        && "created"@[0] == 'c');
    text::rendered_numbers_read_back(row.size as nat);
}

/// The frontier grows only where there are more rows than are shown, and does so where the last of
/// the shown rows is selected.
pub proof fn frontiers_grow_near_their_end(panel: QueryPanel, selected_row: isize)
    ensures
        panel.rows@.len() >= panel.exact_total ==> !panel.needs_more(selected_row),
        panel.rows@.len() < panel.exact_total && selected_row >= 0 && selected_row + 1
            >= panel.rows@.len() ==> panel.needs_more(selected_row),
        panel.needs_more(selected_row) && selected_row >= 0 ==> selected_row + 20
            >= panel.rows@.len(),
        selected_row >= 0 && selected_row + 20 < panel.rows@.len() ==> !panel.needs_more(
            selected_row,
        ),
        panel.rows@.len() < panel.exact_total && selected_row >= 0 && selected_row + 20
            >= panel.rows@.len() ==> panel.needs_more(selected_row),
        selected_row < 0 ==> panel.needs_more(selected_row) == panel.needs_more(0),
{
}

/// The skipped locations of two lists of roots are counted and listed together: as many as in both,
/// those of the one and then those of the other.
pub proof fn skips_of_roots_are_listed_in_turn(
    left: Seq<RootCoverage>,
    right: Seq<RootCoverage>,
    single: RootCoverage,
)
    ensures
        skips_in(left + right) == skips_in(left) + skips_in(right),
        report_blocks(left + right) == report_blocks(left) + report_blocks(right),
        skips_in(seq![single]) == single.skipped@.len(),
        report_blocks(seq![single]).len() == single.skipped@.len(),
        forall|i: int|
            0 <= i < single.skipped@.len() ==> #[trigger] report_blocks(seq![single])[i]
                == single.skipped@[i].path@ + "\n  "@ + single.skipped@[i].reason@,
        skips_in(Seq::<RootCoverage>::empty()) == 0,
        report_blocks(Seq::<RootCoverage>::empty()) == Seq::<Seq<char>>::empty(),
    decreases right.len(),
{
    let none = Seq::<RootCoverage>::empty();
    let one = seq![single];
    assert(one.drop_last() =~= none);
    assert(skips_in(none) == 0);
    assert(report_blocks(none) =~= Seq::<Seq<char>>::empty());
    assert(report_blocks(one) =~= skip_blocks(single.skipped@));
    if right.len() == 0 {
        assert(left + right =~= left);
        assert(report_blocks(left) + report_blocks(right) =~= report_blocks(left));
    } else {
        let rest = right.drop_last();
        assert((left + right).drop_last() =~= left + rest);
        skips_of_roots_are_listed_in_turn(left, rest, single);
        assert(report_blocks(left) + (report_blocks(rest) + skip_blocks(right.last().skipped@))
            =~= report_blocks(left) + report_blocks(rest) + skip_blocks(right.last().skipped@));
    }
}

/// Blocks of text stand one behind the other with an empty line between each two.
pub proof fn blocks_are_joined_by_empty_lines(blocks: Seq<Seq<char>>, block: Seq<char>)
    ensures
        blocks_text(seq![block]) == block,
        blocks.len() > 0 ==> blocks_text(blocks.push(block)) == blocks_text(blocks) + "\n\n"@
            + block,
        blocks_text(Seq::<Seq<char>>::empty()) == Seq::<char>::empty(),
{
    assert(blocks.push(block).drop_last() =~= blocks);
}

/// The line on the coverage tells of complete coverage only where there are roots and none of them
/// is partially covered, and of none at all where there are no roots.
pub proof fn coverage_is_claimed_for_every_root_only<P>(runtime: Runtime<P>)
    ensures
        runtime.coverage_text() == "Overall Coverage: Complete"@ <==>
            runtime.coverage_reports@.len() > 0 && forall|i: int|
            0 <= i < runtime.coverage_reports@.len() ==> (
            #[trigger] runtime.coverage_reports@[i]).coverage == Coverage::Complete,
        runtime.coverage_text() == "Overall Coverage: Partial"@ <==> exists|i: int|
            0 <= i < runtime.coverage_reports@.len() && (
            #[trigger] runtime.coverage_reports@[i]).coverage == Coverage::Partial,
        runtime.coverage_text() == "Overall Coverage: Not Available"@ <==>
            runtime.coverage_reports@.len() == 0,
{
    reveal_strlit("Overall Coverage: Complete");
    reveal_strlit("Overall Coverage: Partial");
    reveal_strlit("Overall Coverage: Not Available");
    assert("Overall Coverage: Complete"@.len() != "Overall Coverage: Partial"@.len());
    assert("Overall Coverage: Complete"@.len() != "Overall Coverage: Not Available"@.len());
    assert("Overall Coverage: Partial"@.len() != "Overall Coverage: Not Available"@.len());
    model::one_partial_root_makes_the_whole_partial(runtime.coverage_reports@);
}

/// An error is shown as it is, whatever else is known; the title tells where changes are applied or
/// the volume is gone, and otherwise goes by the state.
pub proof fn errors_come_before_the_state<P>(runtime: Runtime<P>)
    ensures
        runtime.error matches Some(error) ==> runtime.detail_text() == error@,
        runtime.freshness == Freshness::CatchingUp ==> runtime.title_text()
            == "File Index: Catching Up"@,
        runtime.freshness == Freshness::Offline ==> runtime.title_text() == "File Index: Offline"@,
        runtime.freshness == Freshness::Current || runtime.freshness == Freshness::Rebuilding
            ==> runtime.title_text() == runtime.state.title_text(),
        runtime.error is None && runtime.freshness != Freshness::CatchingUp
            && runtime.coverage_reports@.len() == 0 ==> runtime.detail_text()
            == runtime.state.detail_text(),
{
}

/// While a plan is carried out the index is never shown as current: a rebuild is told from
/// catching up.
pub proof fn work_under_way_is_not_current(rebuilding: bool)
    ensures
        freshness_during(rebuilding) == Freshness::Rebuilding <==> rebuilding,
        freshness_during(rebuilding) == Freshness::CatchingUp <==> !rebuilding,
{
}

} // verus!
